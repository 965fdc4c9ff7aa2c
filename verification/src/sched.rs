//! Streaming scheduler: window advancement with catch-up, the sleep
//! computation, cursor bookkeeping, and the per-cycle decision that keeps
//! follow mode alive across empty fetches.

use vstd::prelude::*;

verus! {

/// How the stream was started: render one window and stop, or keep
/// following wall-clock time.
#[derive(Clone, Copy, PartialEq, Eq, Structural, Debug)]
pub enum Mode {
    Once,
    Follow,
}

/// What one fetch of the current window produced: no frames at all, or a
/// matrix with the given number of timeline entries.
#[derive(Clone, Copy, PartialEq, Eq, Structural, Debug)]
pub enum FetchOutcome {
    Empty,
    Frames,
}

/// What the driving loop must do after a fetch.
#[derive(Clone, Copy, PartialEq, Eq, Structural, Debug)]
pub enum Step {
    /// Render the batch, then compute the next window and go on fetching.
    RenderThenContinue,
    /// Render the batch, then stop.
    RenderThenStop,
    /// Report "no data" for this cycle and retry on the next cadence.
    SkipThenRetry,
    /// Report "no data" and stop.
    NoDataThenStop,
}

/// Decides how one fetch/render cycle ends. An empty fetch never
/// terminates a follow session, and a once-off run always terminates.
pub fn react(mode: Mode, outcome: FetchOutcome) -> (step: Step)
    ensures
        mode == Mode::Follow && outcome == FetchOutcome::Empty ==> step == Step::SkipThenRetry,
        mode == Mode::Follow && outcome == FetchOutcome::Frames ==> step
            == Step::RenderThenContinue,
        mode == Mode::Once && outcome == FetchOutcome::Empty ==> step == Step::NoDataThenStop,
        mode == Mode::Once && outcome == FetchOutcome::Frames ==> step == Step::RenderThenStop,
{
    match (mode, outcome) {
        (Mode::Follow, FetchOutcome::Empty) => Step::SkipThenRetry,
        (Mode::Follow, FetchOutcome::Frames) => Step::RenderThenContinue,
        (Mode::Once, FetchOutcome::Empty) => Step::NoDataThenStop,
        (Mode::Once, FetchOutcome::Frames) => Step::RenderThenStop,
    }
}

/// End of the next fetch window. Starting from `old_to + interval`, skips
/// forward in whole intervals until wall-clock time is at most one
/// interval ahead, so a lagging session catches up in coarse jumps
/// instead of replaying every missed frame.
pub fn next_window_end(old_to: i64, interval: i64, real_now: i64) -> (new_to: i64)
    requires
        interval >= 1,
        old_to + interval <= i64::MAX,
        real_now + interval <= i64::MAX,
        real_now - interval >= i64::MIN,
    ensures
        new_to >= old_to + interval,
        (new_to - old_to) % (interval as int) == 0,
        real_now <= new_to + interval,
        new_to == old_to + interval || real_now > new_to,
{
    let mut to: i64 = old_to + interval;
    let ghost mut k: int = 1;
    // `real_now > to + interval` is tested as `real_now - interval > to`,
    // which cannot overflow while `to` itself may sit near the bounds.
    let threshold: i64 = real_now - interval;
    while threshold > to
        invariant
            interval >= 1,
            threshold == real_now - interval,
            real_now + interval <= i64::MAX,
            to == old_to + k * interval,
            1 <= k,
            to == old_to + interval || real_now > to,
        decreases vstd::math::max(threshold - to, 0),
    {
        proof {
            let k0 = k;
            k = k + 1;
            assert(old_to + k * interval == old_to + k0 * interval + interval)
                by (nonlinear_arith)
                requires
                    k == k0 + 1,
            ;
        }
        to = to + interval;
    }
    proof {
        vstd::arithmetic::div_mod::lemma_mod_multiples_basic(k, interval as int);
        vstd::arithmetic::mul::lemma_mul_inequality(1, k, interval as int);
    }
    to
}

/// Both ends of the next window: it starts where the previous one ended
/// and reaches the caught-up end, so no time range is dropped while a
/// lagging frame may cover more than one interval.
pub fn next_window(old_to: i64, interval: i64, real_now: i64) -> (w: (i64, i64))
    requires
        interval >= 1,
        old_to + interval <= i64::MAX,
        real_now + interval <= i64::MAX,
        real_now - interval >= i64::MIN,
    ensures
        w.0 == old_to,
        w.1 >= old_to + interval,
        (w.1 - old_to) % (interval as int) == 0,
        real_now <= w.1 + interval,
        w.1 == old_to + interval || real_now > w.1,
{
    let to = next_window_end(old_to, interval, real_now);
    (old_to, to)
}

/// How long to block before fetching: until wall-clock time reaches the
/// window end, and not at all if that moment has already passed.
pub fn sleep_secs(new_to: i64, real_now: i64) -> (d: u64)
    ensures
        real_now < new_to ==> d == new_to - real_now,
        real_now >= new_to ==> d == 0,
{
    if real_now < new_to {
        let wide: i128 = (new_to as i128) - (real_now as i128);
        wide as u64
    } else {
        0
    }
}

/// Advances the row-offset cursor past a rendered batch: one output row
/// is drawn per consecutive timeline pair, so a batch of `nrows` timeline
/// entries adds `nrows - 1` to the offset that keeps the label cadence
/// continuous across fetches.
pub fn advance_cursor(row_offset: usize, nrows: usize) -> (r: usize)
    requires
        nrows >= 1,
        row_offset + nrows - 1 <= usize::MAX,
    ensures
        r == row_offset + nrows - 1,
{
    row_offset + (nrows - 1)
}

} // verus!
