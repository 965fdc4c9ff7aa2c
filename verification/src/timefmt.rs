//! Formatting of a timeline entry as a fixed-width `HH:MM:SS` clock
//! reading, computed purely from UTC epoch milliseconds.

use vstd::prelude::*;

verus! {

/// The character for one decimal digit.
pub open spec fn digit_char(d: int) -> char {
    if d == 0 {
        '0'
    } else if d == 1 {
        '1'
    } else if d == 2 {
        '2'
    } else if d == 3 {
        '3'
    } else if d == 4 {
        '4'
    } else if d == 5 {
        '5'
    } else if d == 6 {
        '6'
    } else if d == 7 {
        '7'
    } else if d == 8 {
        '8'
    } else {
        '9'
    }
}

/// Two zero-padded decimal digits.
pub open spec fn two_digits(x: int) -> Seq<char> {
    seq![digit_char(x / 10), digit_char(x % 10)]
}

/// Epoch milliseconds truncated to whole seconds, rounding toward zero as
/// integer division of a signed count does.
pub open spec fn trunc_seconds(ms: int) -> int {
    if ms >= 0 {
        ms / 1000
    } else {
        -((-ms) / 1000)
    }
}

/// The second of the UTC day that an epoch-millisecond instant falls in,
/// always in `[0, 86400)`.
pub open spec fn second_of_day(ms: int) -> int {
    trunc_seconds(ms) % 86400
}

/// The eight characters `HH:MM:SS` of the UTC clock reading at an
/// epoch-millisecond instant.
pub open spec fn clock_chars(ms: int) -> Seq<char> {
    let sod = second_of_day(ms);
    two_digits(sod / 3600) + seq![':'] + two_digits((sod / 60) % 60) + seq![':'] + two_digits(
        sod % 60,
    )
}

/// A one-character string for a decimal digit.
fn digit_str(d: u64) -> (r: &'static str)
    requires
        d < 10,
    ensures
        r@ == seq![digit_char(d as int)],
{
    let r: &'static str = match d {
        0 => "0",
        1 => "1",
        2 => "2",
        3 => "3",
        4 => "4",
        5 => "5",
        6 => "6",
        7 => "7",
        8 => "8",
        _ => "9",
    };
    proof {
        reveal_strlit("0");
        reveal_strlit("1");
        reveal_strlit("2");
        reveal_strlit("3");
        reveal_strlit("4");
        reveal_strlit("5");
        reveal_strlit("6");
        reveal_strlit("7");
        reveal_strlit("8");
        reveal_strlit("9");
        assert(r@ =~= seq![digit_char(d as int)]);
    }
    r
}

/// Appends a value below one hundred as two zero-padded digits.
fn push_two_digits(out: &mut String, x: u64)
    requires
        x < 100,
    ensures
        final(out)@ == old(out)@ + two_digits(x as int),
{
    out.append(digit_str(x / 10));
    out.append(digit_str(x % 10));
    proof {
        assert(out@ =~= old(out)@ + two_digits(x as int));
    }
}

/// Renders an epoch-millisecond instant as the `HH:MM:SS` clock reading
/// of its UTC day, eight characters, zero padded.
pub fn timestamp(time_ms: i64) -> (r: String)
    ensures
        r@ == clock_chars(time_ms as int),
        r@.len() == 8,
{
    let sod: u64 = second_of_day_exec(time_ms);
    let h: u64 = sod / 3600;
    let m: u64 = (sod / 60) % 60;
    let s: u64 = sod % 60;
    let mut out = String::new();
    push_two_digits(&mut out, h);
    out.append(":");
    push_two_digits(&mut out, m);
    out.append(":");
    push_two_digits(&mut out, s);
    proof {
        reveal_strlit(":");
        assert(out@ =~= clock_chars(time_ms as int));
    }
    out
}

/// The second of the UTC day for an epoch-millisecond instant, with the
/// signed truncating division and Euclidean remainder carried out on
/// unsigned magnitudes.
fn second_of_day_exec(time_ms: i64) -> (sod: u64)
    ensures
        sod == second_of_day(time_ms as int),
        sod < 86400,
{
    if time_ms >= 0 {
        let q: u64 = (time_ms as u64) / 1000;
        q % 86400
    } else {
        let mag: u64 = (-(time_ms as i128)) as u64;
        let q: u64 = mag / 1000;
        let r: u64 = q % 86400;
        proof {
            lemma_neg_mod(q as int);
        }
        if r == 0 {
            0
        } else {
            86400 - r
        }
    }
}

/// The Euclidean remainder of a negated non-negative value: it is zero
/// where the value is a multiple of the day, and the complement of the
/// value's own remainder otherwise.
proof fn lemma_neg_mod(x: int)
    requires
        x >= 0,
    ensures
        x % 86400 == 0 ==> (-x) % 86400 == 0,
        x % 86400 != 0 ==> (-x) % 86400 == 86400 - (x % 86400),
{
    let n = 86400int;
    let d = x / n;
    let r = x % n;
    vstd::arithmetic::div_mod::lemma_fundamental_div_mod(x, n);
    if r == 0 {
        assert(-x == (-d) * n) by (nonlinear_arith)
            requires
                x == n * d + 0,
        ;
        vstd::arithmetic::div_mod::lemma_mod_multiples_basic(-d, n);
    } else {
        assert(-x == n * (-d - 1) + (n - r)) by (nonlinear_arith)
            requires
                x == n * d + r,
        ;
        vstd::arithmetic::div_mod::lemma_mod_multiples_vanish(-d - 1, n - r, n);
        vstd::arithmetic::div_mod::lemma_small_mod((n - r) as nat, n as nat);
    }
}

} // verus!
