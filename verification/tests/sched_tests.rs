use graf::sched::advance_cursor;
use graf::sched::next_window;
use graf::sched::next_window_end;
use graf::sched::react;
use graf::sched::sleep_secs;
use graf::sched::FetchOutcome;
use graf::sched::Mode;
use graf::sched::Step;

#[test]
fn catch_up_skips_whole_intervals() {
    // lagging by three and a half intervals: the window end jumps to 130,
    // within one interval of real time and a whole number of intervals
    // past the old end
    let new_to = next_window_end(100, 10, 135);
    assert_eq!(new_to, 130);
    assert!(new_to + 10 >= 135);
    assert_eq!((new_to - 100) % 10, 0);
}

#[test]
fn on_time_window_advances_one_interval() {
    assert_eq!(next_window_end(100, 10, 100), 110);
    assert_eq!(next_window_end(100, 10, 110), 110);
    assert_eq!(next_window_end(100, 10, 120), 110);
    // one past the grace interval forces the first skip
    assert_eq!(next_window_end(100, 10, 121), 120);
}

#[test]
fn next_window_starts_at_old_end() {
    assert_eq!(next_window(100, 10, 135), (100, 130));
    assert_eq!(next_window(100, 10, 100), (100, 110));
}

#[test]
fn sleep_covers_remaining_wait() {
    assert_eq!(sleep_secs(140, 135), 5);
    assert_eq!(sleep_secs(140, 140), 0);
    assert_eq!(sleep_secs(140, 150), 0);
}

#[test]
fn cursor_advances_one_row_per_pair() {
    assert_eq!(advance_cursor(0, 5), 4);
    assert_eq!(advance_cursor(4, 5), 8);
    assert_eq!(advance_cursor(7, 1), 7);
}

#[test]
fn empty_fetch_keeps_follow_alive() {
    assert_eq!(react(Mode::Follow, FetchOutcome::Empty), Step::SkipThenRetry);
    assert_ne!(react(Mode::Follow, FetchOutcome::Empty), Step::NoDataThenStop);
}

#[test]
fn once_mode_always_terminates() {
    assert_eq!(react(Mode::Once, FetchOutcome::Empty), Step::NoDataThenStop);
    assert_eq!(react(Mode::Once, FetchOutcome::Frames), Step::RenderThenStop);
}

#[test]
fn follow_mode_renders_and_continues() {
    assert_eq!(react(Mode::Follow, FetchOutcome::Frames), Step::RenderThenContinue);
}
