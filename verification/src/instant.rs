//! The instant parser: turns a time-specifier string and a reference
//! "now" into an absolute UTC instant in seconds. Three forms are
//! recognized, tried in this order on the whitespace-trimmed input:
//! a run of decimal digits (epoch seconds), a compact `YYYYMMDD'T'HHMMSS`
//! UTC datetime, and `now` optionally followed by a signed offset with a
//! unit suffix. Anything else fails the parse.

use vstd::prelude::*;

verus! {

/// ASCII whitespace, the characters stripped from either end of a
/// specifier before it is interpreted.
pub open spec fn is_space(c: char) -> bool {
    c == ' ' || c == '\t' || c == '\n' || c == '\r' || c == '\u{b}' || c == '\u{c}'
}

/// A decimal digit.
pub open spec fn is_digit(c: char) -> bool {
    '0' <= c && c <= '9'
}

/// The numeric value of one decimal digit character.
pub open spec fn digit_val(c: char) -> int {
    c as int - 48
}

/// Every character of the sequence is a decimal digit.
pub open spec fn all_digits(s: Seq<char>) -> bool {
    forall|i: int| 0 <= i < s.len() ==> is_digit(#[trigger] s[i])
}

/// The value of a run of decimal digits, most significant first.
pub open spec fn digits_val(s: Seq<char>) -> int
    decreases s.len(),
{
    if s.len() == 0 {
        0
    } else {
        digits_val(s.drop_last()) * 10 + digit_val(s.last())
    }
}

/// The sequence with its leading whitespace removed.
pub open spec fn trim_front(s: Seq<char>) -> Seq<char>
    decreases s.len(),
{
    if s.len() > 0 && is_space(s.first()) {
        trim_front(s.drop_first())
    } else {
        s
    }
}

/// The sequence with its trailing whitespace removed.
pub open spec fn trim_back(s: Seq<char>) -> Seq<char>
    decreases s.len(),
{
    if s.len() > 0 && is_space(s.last()) {
        trim_back(s.drop_last())
    } else {
        s
    }
}

/// The sequence with whitespace removed from both ends.
pub open spec fn trim(s: Seq<char>) -> Seq<char> {
    trim_back(trim_front(s))
}

/// Seconds per unit suffix: `s`econds, `m`inutes, `h`ours, `d`ays, and a
/// fixed 365-day `y`ear. Any other character is not a unit.
pub open spec fn unit_secs(c: char) -> Option<int> {
    if c == 's' {
        Some(1)
    } else if c == 'm' {
        Some(60)
    } else if c == 'h' {
        Some(3600)
    } else if c == 'd' {
        Some(86400)
    } else if c == 'y' {
        Some(31536000)
    } else {
        None
    }
}

/// A signed decimal integer: an optional sign followed by at least one
/// digit.
pub open spec fn valid_int(s: Seq<char>) -> bool {
    if s.len() > 0 && (s.first() == '+' || s.first() == '-') {
        s.len() > 1 && all_digits(s.drop_first())
    } else {
        s.len() > 0 && all_digits(s)
    }
}

/// The value of a signed decimal integer.
pub open spec fn int_val(s: Seq<char>) -> int {
    if s.len() > 0 && s.first() == '-' {
        -digits_val(s.drop_first())
    } else if s.len() > 0 && s.first() == '+' {
        digits_val(s.drop_first())
    } else {
        digits_val(s)
    }
}

/// Carries whole dozens of months into the year, so that an
/// out-of-range month count normalizes the way a calendar does: month 0
/// is December of the previous year, month 13 is January of the next.
pub open spec fn normalize_month(y: int, mo: int) -> (int, int) {
    ((y + (mo - 1) / 12), ((mo - 1) % 12 + 1))
}

/// Days from the UTC epoch to a civil date, for a month already
/// normalized into `1..=12`; the day count itself may be any value and
/// contributes linearly. The year is shifted by 400 so that every
/// division acts on non-negative values.
pub open spec fn days_from_civil(y: int, mo: int, d: int) -> int
    recommends
        1 <= mo <= 12,
        y >= -1,
{
    let yy = if mo <= 2 {
        y + 399
    } else {
        y + 400
    };
    let era = yy / 400;
    let yoe = yy - era * 400;
    let mp = if mo > 2 {
        mo - 3
    } else {
        mo + 9
    };
    let doy = (153 * mp + 2) / 5 + d - 1;
    let doe = yoe * 365 + yoe / 4 - yoe / 100 + doy;
    era * 146097 + doe - 719468 - 146097
}

/// UTC epoch seconds of a civil datetime; fields beyond their calendar
/// range carry linearly, as a pure UTC calendar conversion does.
pub open spec fn civil_secs(y: int, mo: int, d: int, h: int, mi: int, s: int) -> int {
    let (yn, mn) = normalize_month(y, mo);
    days_from_civil(yn, mn, d) * 86400 + h * 3600 + mi * 60 + s
}

/// The six positional fields of the compact datetime form are all
/// digits; the literal `T` sits at position 8.
pub open spec fn datetime_fields_ok(t: Seq<char>) -> bool {
    all_digits(t.subrange(0, 4)) && all_digits(t.subrange(4, 6)) && all_digits(t.subrange(6, 8))
        && all_digits(t.subrange(9, 11)) && all_digits(t.subrange(11, 13)) && all_digits(
        t.subrange(13, 15),
    )
}

/// The instant denoted by a compact `YYYYMMDD'T'HHMMSS` datetime.
pub open spec fn datetime_secs(t: Seq<char>) -> int {
    civil_secs(
        digits_val(t.subrange(0, 4)),
        digits_val(t.subrange(4, 6)),
        digits_val(t.subrange(6, 8)),
        digits_val(t.subrange(9, 11)),
        digits_val(t.subrange(11, 13)),
        digits_val(t.subrange(13, 15)),
    )
}

/// The relative form, applied to a trimmed specifier that starts with
/// `now`: nothing further yields `now` itself; a sign, an integer and a
/// unit suffix yield the offset instant, with the integer required to
/// fit a 64-bit count and the result likewise.
pub open spec fn relative_secs(t: Seq<char>, now: int) -> Option<int> {
    let rest = trim_front(t.subrange(3, t.len() as int));
    if rest.len() == 0 {
        Some(now)
    } else if rest.first() == '+' || rest.first() == '-' {
        let sig: int = if rest.first() == '-' {
            -1
        } else {
            1
        };
        match unit_secs(rest.last()) {
            Some(u) => {
                let mid = trim(rest.subrange(1, rest.len() - 1));
                if valid_int(mid) && i64::MIN <= int_val(mid) <= i64::MAX {
                    let v = now + sig * int_val(mid) * u;
                    if i64::MIN <= v <= i64::MAX {
                        Some(v)
                    } else {
                        None
                    }
                } else {
                    None
                }
            },
            None => None,
        }
    } else {
        None
    }
}

/// What a specifier string denotes, given the reference instant `now`.
/// The forms are tried in order on the trimmed string; a form whose
/// shape matches but whose numbers cannot be read (or do not fit a
/// 64-bit second count) fails the parse rather than falling through.
pub open spec fn parse_spec(s: Seq<char>, now: int) -> Option<int> {
    let t = trim(s);
    if t.len() == 0 {
        None
    } else if all_digits(t) {
        if digits_val(t) <= i64::MAX {
            Some(digits_val(t))
        } else {
            None
        }
    } else if t.len() == 15 && t[8] == 'T' {
        if datetime_fields_ok(t) {
            Some(datetime_secs(t))
        } else {
            None
        }
    } else if t.len() >= 3 && t[0] == 'n' && t[1] == 'o' && t[2] == 'w' {
        relative_secs(t, now)
    } else {
        None
    }
}

/// Removing leading whitespace keeps exactly the suffix that starts at
/// the first non-space character.
proof fn lemma_trim_front_prefix(s: Seq<char>, lo: int)
    requires
        0 <= lo <= s.len(),
        forall|i: int| 0 <= i < lo ==> is_space(#[trigger] s[i]),
        lo == s.len() || !is_space(s[lo]),
    ensures
        trim_front(s) == s.subrange(lo, s.len() as int),
    decreases lo,
{
    if lo == 0 {
        assert(s.subrange(0, s.len() as int) =~= s);
    } else {
        let s1 = s.drop_first();
        assert(forall|i: int| 0 <= i < lo - 1 ==> is_space(#[trigger] s1[i]));
        lemma_trim_front_prefix(s1, lo - 1);
        assert(s1.subrange(lo - 1, s1.len() as int) =~= s.subrange(lo, s.len() as int));
    }
}

/// Removing trailing whitespace keeps exactly the prefix that ends at
/// the last non-space character.
proof fn lemma_trim_back_suffix(s: Seq<char>, hi: int)
    requires
        0 <= hi <= s.len(),
        forall|i: int| hi <= i < s.len() ==> is_space(#[trigger] s[i]),
        hi == 0 || !is_space(s[hi - 1]),
    ensures
        trim_back(s) == s.subrange(0, hi),
    decreases s.len() - hi,
{
    if hi == s.len() {
        assert(s.subrange(0, s.len() as int) =~= s);
    } else {
        let s1 = s.drop_last();
        lemma_trim_back_suffix(s1, hi);
        assert(s1.subrange(0, hi) =~= s.subrange(0, hi));
    }
}

/// A run of digits has a non-negative value.
proof fn lemma_digits_val_nonneg(s: Seq<char>)
    requires
        all_digits(s),
    ensures
        digits_val(s) >= 0,
    decreases s.len(),
{
    if s.len() > 0 {
        assert(all_digits(s.drop_last()));
        lemma_digits_val_nonneg(s.drop_last());
    }
}

/// Extending a digit prefix by one digit multiplies its value by ten
/// and adds that digit.
proof fn lemma_digits_val_step(s: Seq<char>, i: int)
    requires
        0 <= i < s.len(),
    ensures
        digits_val(s.subrange(0, i + 1)) == digits_val(s.subrange(0, i)) * 10 + digit_val(s[i]),
{
    let p = s.subrange(0, i + 1);
    assert(p.drop_last() =~= s.subrange(0, i));
    assert(p.last() == s[i]);
}

/// A longer digit prefix never has a smaller value.
proof fn lemma_digits_val_mono(s: Seq<char>, i: int, j: int)
    requires
        all_digits(s),
        0 <= i <= j <= s.len(),
    ensures
        digits_val(s.subrange(0, i)) <= digits_val(s.subrange(0, j)),
    decreases j - i,
{
    if i < j {
        lemma_digits_val_mono(s, i, j - 1);
        lemma_digits_val_step(s, j - 1);
        assert(all_digits(s.subrange(0, j - 1)));
        lemma_digits_val_nonneg(s.subrange(0, j - 1));
    }
}

/// Ten to a power.
pub open spec fn pow10(n: nat) -> int
    decreases n,
{
    if n == 0 {
        1
    } else {
        10 * pow10((n - 1) as nat)
    }
}

/// A run of `n` digits has a value below ten to the `n`.
proof fn lemma_digits_val_bound(s: Seq<char>)
    requires
        all_digits(s),
    ensures
        0 <= digits_val(s) < pow10(s.len()),
    decreases s.len(),
{
    if s.len() > 0 {
        assert(all_digits(s.drop_last()));
        lemma_digits_val_bound(s.drop_last());
    }
}

/// The characters of a string, with random access.
fn char_vec(s: &str) -> (v: Vec<char>)
    ensures
        v@ == s@,
{
    let n = s.unicode_len();
    let mut v: Vec<char> = Vec::new();
    let mut i: usize = 0;
    while i < n
        invariant
            i <= n,
            n == s@.len(),
            v@ == s@.subrange(0, i as int),
        decreases n - i,
    {
        v.push(s.get_char(i));
        proof {
            assert(v@ =~= s@.subrange(0, i + 1));
        }
        i = i + 1;
    }
    proof {
        assert(s@.subrange(0, n as int) =~= s@);
    }
    v
}

/// A copy of one contiguous range of a character vector.
fn subvec(v: &Vec<char>, from: usize, to: usize) -> (r: Vec<char>)
    requires
        from <= to <= v.len(),
    ensures
        r@ == v@.subrange(from as int, to as int),
{
    let mut r: Vec<char> = Vec::new();
    let mut i: usize = from;
    while i < to
        invariant
            from <= i <= to <= v.len(),
            r@ == v@.subrange(from as int, i as int),
        decreases to - i,
    {
        r.push(v[i]);
        proof {
            assert(r@ =~= v@.subrange(from as int, i + 1));
        }
        i = i + 1;
    }
    r
}

/// Whether a character is ASCII whitespace.
fn is_space_exec(c: char) -> (r: bool)
    ensures
        r == is_space(c),
{
    c == ' ' || c == '\t' || c == '\n' || c == '\r' || c == '\u{b}' || c == '\u{c}'
}

/// The numeric value of one decimal digit character.
fn digit_of(c: char) -> (d: u64)
    requires
        is_digit(c),
    ensures
        d as int == digit_val(c),
        d <= 9,
{
    match c {
        '0' => 0,
        '1' => 1,
        '2' => 2,
        '3' => 3,
        '4' => 4,
        '5' => 5,
        '6' => 6,
        '7' => 7,
        '8' => 8,
        _ => {
            proof {
                assert(c == '9');
            }
            9
        },
    }
}

/// Whether every character in the range is a decimal digit.
fn check_digits(t: &Vec<char>, from: usize, to: usize) -> (ok: bool)
    requires
        from <= to <= t.len(),
    ensures
        ok == all_digits(t@.subrange(from as int, to as int)),
{
    let ghost g = t@.subrange(from as int, to as int);
    let mut i: usize = from;
    while i < to
        invariant
            from <= i <= to <= t.len(),
            g == t@.subrange(from as int, to as int),
            forall|j: int| 0 <= j < i - from ==> is_digit(#[trigger] g[j]),
        decreases to - i,
    {
        let c = t[i];
        if c < '0' || c > '9' {
            proof {
                assert(g[i - from] == t@[i as int]);
                assert(!is_digit(g[i - from]));
            }
            return false;
        }
        proof {
            assert(g[i - from] == t@[i as int]);
            assert(is_digit(c));
        }
        i = i + 1;
    }
    proof {
        assert(all_digits(g));
    }
    true
}

/// The value of a digit range, or nothing where it exceeds a 64-bit
/// unsigned count.
fn digits_to_u64(t: &Vec<char>, from: usize, to: usize) -> (r: Option<u64>)
    requires
        from <= to <= t.len(),
        all_digits(t@.subrange(from as int, to as int)),
    ensures
        ({
            let g = t@.subrange(from as int, to as int);
            match r {
                Some(v) => v == digits_val(g),
                None => digits_val(g) > u64::MAX,
            }
        }),
{
    let ghost g = t@.subrange(from as int, to as int);
    let mut acc: u64 = 0;
    let mut i: usize = from;
    while i < to
        invariant
            from <= i <= to <= t.len(),
            g == t@.subrange(from as int, to as int),
            all_digits(g),
            acc == digits_val(g.subrange(0, i - from)),
        decreases to - i,
    {
        let c = t[i];
        proof {
            assert(g[i - from] == t@[i as int]);
            assert(is_digit(g[i - from]));
            lemma_digits_val_step(g, i - from);
        }
        let d = digit_of(c);
        let shifted = match acc.checked_mul(10) {
            Some(x) => x,
            None => {
                proof {
                    lemma_digits_val_mono(g, i - from + 1, g.len() as int);
                    assert(g.subrange(0, g.len() as int) =~= g);
                }
                return None;
            },
        };
        let next = match shifted.checked_add(d) {
            Some(x) => x,
            None => {
                proof {
                    lemma_digits_val_mono(g, i - from + 1, g.len() as int);
                    assert(g.subrange(0, g.len() as int) =~= g);
                }
                return None;
            },
        };
        acc = next;
        i = i + 1;
    }
    proof {
        assert(g.subrange(0, g.len() as int) =~= g);
    }
    Some(acc)
}

/// The value of a short digit field, at most four digits.
fn field_val(t: &Vec<char>, from: usize, to: usize) -> (r: u64)
    requires
        from <= to <= t.len(),
        to - from <= 4,
        all_digits(t@.subrange(from as int, to as int)),
    ensures
        r == digits_val(t@.subrange(from as int, to as int)),
        r <= 9999,
        to - from <= 2 ==> r <= 99,
{
    proof {
        lemma_digits_small(t@.subrange(from as int, to as int));
    }
    match digits_to_u64(t, from, to) {
        Some(v) => v,
        None => {
            proof {
                assert(false);
            }
            0
        },
    }
}

/// A run of at most four digits stays below ten thousand.
proof fn lemma_digits_small(s: Seq<char>)
    requires
        all_digits(s),
        s.len() <= 4,
    ensures
        0 <= digits_val(s) <= 9999,
        s.len() <= 2 ==> digits_val(s) <= 99,
{
    lemma_digits_val_bound(s);
    reveal_with_fuel(pow10, 5);
    if s.len() == 0 {
    } else if s.len() == 1 {
    } else if s.len() == 2 {
    } else if s.len() == 3 {
    } else {
        assert(s.len() == 4);
    }
}

/// Seconds per unit suffix, or nothing for a character that is no unit.
fn unit_secs_exec(c: char) -> (r: Option<u64>)
    ensures
        ({
            match r {
                Some(u) => unit_secs(c) == Some(u as int) && 1 <= u <= 31536000,
                None => unit_secs(c) is None,
            }
        }),
{
    if c == 's' {
        Some(1)
    } else if c == 'm' {
        Some(60)
    } else if c == 'h' {
        Some(3600)
    } else if c == 'd' {
        Some(86400)
    } else if c == 'y' {
        Some(31536000)
    } else {
        None
    }
}

/// UTC epoch seconds of a civil datetime read from two-digit fields and
/// a four-digit year, computed with divisions on non-negative values
/// only.
fn civil_secs_exec(y: u64, mo: u64, d: u64, h: u64, mi: u64, s: u64) -> (r: i64)
    requires
        y <= 9999,
        mo <= 99,
        d <= 99,
        h <= 99,
        mi <= 99,
        s <= 99,
    ensures
        r as int == civil_secs(y as int, mo as int, d as int, h as int, mi as int, s as int),
{
    let yn: i64;
    let mn: u64;
    if mo == 0 {
        yn = (y as i64) - 1;
        mn = 12;
    } else {
        yn = (y as i64) + (((mo - 1) / 12) as i64);
        mn = (mo - 1) % 12 + 1;
    }
    proof {
        assert((yn as int, mn as int) == normalize_month(y as int, mo as int));
    }
    let yy: u64 = if mn <= 2 {
        (yn + 399) as u64
    } else {
        (yn + 400) as u64
    };
    let era: u64 = yy / 400;
    proof {
        vstd::arithmetic::div_mod::lemma_fundamental_div_mod(yy as int, 400);
    }
    let yoe: u64 = yy - era * 400;
    let mp: u64 = if mn > 2 {
        mn - 3
    } else {
        mn + 9
    };
    let doy5: u64 = (153 * mp + 2) / 5;
    proof {
        vstd::arithmetic::div_mod::lemma_fundamental_div_mod((153 * mp + 2) as int, 5);
        vstd::arithmetic::div_mod::lemma_fundamental_div_mod(yoe as int, 4);
        vstd::arithmetic::div_mod::lemma_fundamental_div_mod(yoe as int, 100);
    }
    let daysum: u64 = era * 146097 + yoe * 365 + yoe / 4 + doy5;
    let days: i64 = (daysum - yoe / 100) as i64 + (d as i64) - 1 - 719468 - 146097;
    let secs: i64 = days * 86400 + (h as i64) * 3600 + (mi as i64) * 60 + (s as i64);
    secs
}

/// The relative form on a trimmed specifier that starts with `now`.
fn parse_relative(t: &Vec<char>, now: i64) -> (r: Option<i64>)
    requires
        t.len() >= 3,
    ensures
        ({
            let p = relative_secs(t@, now as int);
            match p {
                Some(v) => i64::MIN <= v <= i64::MAX && r == Some(v as i64),
                None => r is None,
            }
        }),
{
    let n = t.len();
    let mut p: usize = 3;
    while p < n && is_space_exec(t[p])
        invariant
            3 <= p <= n,
            n == t.len(),
            forall|j: int| 3 <= j < p ==> is_space(#[trigger] t@[j]),
        decreases n - p,
    {
        p = p + 1;
    }
    let ghost rest0 = t@.subrange(3, t@.len() as int);
    proof {
        assert(forall|i: int| 0 <= i < p - 3 ==> is_space(#[trigger] rest0[i]));
        lemma_trim_front_prefix(rest0, p - 3);
        assert(rest0.subrange(p - 3, rest0.len() as int) =~= t@.subrange(p as int, n as int));
    }
    let ghost rest = trim_front(rest0);
    if p == n {
        return Some(now);
    }
    let c0 = t[p];
    proof {
        assert(rest.first() == c0);
    }
    if !(c0 == '+' || c0 == '-') {
        return None;
    }
    let cu = t[n - 1];
    proof {
        assert(rest.last() == cu);
    }
    let u: u64 = match unit_secs_exec(cu) {
        Some(u) => u,
        None => {
            return None;
        },
    };
    proof {
        if p == n - 1 {
            assert(cu == c0);
            assert(unit_secs(c0) is None);
        }
    }
    let mut a: usize = p + 1;
    while a < n - 1 && is_space_exec(t[a])
        invariant
            p + 1 <= a <= n - 1,
            n == t.len(),
            forall|j: int| p + 1 <= j < a ==> is_space(#[trigger] t@[j]),
        decreases n - a,
    {
        a = a + 1;
    }
    let mut b: usize = n - 1;
    while b > a && is_space_exec(t[b - 1])
        invariant
            a <= b <= n - 1,
            n == t.len(),
            forall|j: int| b <= j < n - 1 ==> is_space(#[trigger] t@[j]),
        decreases b,
    {
        b = b - 1;
    }
    let ghost mid0 = rest.subrange(1, rest.len() - 1);
    proof {
        assert(mid0 =~= t@.subrange(p + 1, n - 1));
        assert(forall|i: int| 0 <= i < a - p - 1 ==> is_space(#[trigger] mid0[i]));
        lemma_trim_front_prefix(mid0, a - p - 1);
        let mf = mid0.subrange(a - p - 1, mid0.len() as int);
        assert(mf =~= t@.subrange(a as int, n - 1));
        assert(forall|i: int| b - a <= i < mf.len() ==> is_space(#[trigger] mf[i]));
        lemma_trim_back_suffix(mf, b - a);
        assert(mf.subrange(0, b - a) =~= t@.subrange(a as int, b as int));
    }
    let ghost mid = trim(mid0);
    // mid == t@.subrange(a, b)
    let neg2: bool;
    let ds: usize;
    if a < b && t[a] == '-' {
        neg2 = true;
        ds = a + 1;
    } else if a < b && t[a] == '+' {
        neg2 = false;
        ds = a + 1;
    } else {
        neg2 = false;
        ds = a;
    }
    if ds == b {
        proof {
            assert(!valid_int(mid));
        }
        return None;
    }
    if !check_digits(t, ds, b) {
        proof {
            if ds > a {
                assert(mid.drop_first() =~= t@.subrange(ds as int, b as int));
            }
            assert(!valid_int(mid));
        }
        return None;
    }
    proof {
        if ds > a {
            assert(mid.drop_first() =~= t@.subrange(ds as int, b as int));
        }
        assert(valid_int(mid));
    }
    let ghost digits = t@.subrange(ds as int, b as int);
    proof {
        if neg2 {
            assert(int_val(mid) == -digits_val(digits));
        } else {
            assert(int_val(mid) == digits_val(digits));
        }
        lemma_digits_val_nonneg(digits);
    }
    let mag: u64 = match digits_to_u64(t, ds, b) {
        Some(m) => m,
        None => {
            // the magnitude exceeds any 64-bit count, so the signed value
            // cannot fit either way
            return None;
        },
    };
    if neg2 {
        if mag > 9223372036854775808u64 {
            return None;
        }
    } else {
        if mag > i64::MAX as u64 {
            return None;
        }
    }
    let n_i: i128 = if neg2 {
        -(mag as i128)
    } else {
        mag as i128
    };
    proof {
        assert(n_i as int == int_val(mid));
        assert(-9223372036854775808 <= n_i as int <= 9223372036854775807);
        assert(-300000000000000000000000000 <= (n_i as int) * (u as int)
            <= 300000000000000000000000000) by (nonlinear_arith)
            requires
                -9223372036854775808 <= n_i as int <= 9223372036854775807,
                0 <= u as int <= 31536000,
        ;
    }
    let prod: i128 = n_i * (u as i128);
    let val: i128 = if c0 == '-' {
        (now as i128) - prod
    } else {
        (now as i128) + prod
    };
    proof {
        let sig: int = if c0 == '-' {
            -1int
        } else {
            1int
        };
        assert(sig * int_val(mid) * (u as int) == sig * ((n_i as int) * (u as int)))
            by (nonlinear_arith)
            requires
                int_val(mid) == n_i as int,
                sig == -1 || sig == 1,
        ;
        assert(val as int == now as int + sig * int_val(mid) * (u as int));
    }
    if i64::MIN as i128 <= val && val <= i64::MAX as i128 {
        Some(val as i64)
    } else {
        None
    }
}

/// Parses a time specifier against the reference instant `now`,
/// returning the absolute UTC instant in epoch seconds, or nothing for a
/// specifier no recognized form matches (or whose numbers do not fit a
/// 64-bit second count).
pub fn parse_instant(time_s: &str, now: i64) -> (r: Option<i64>)
    ensures
        ({
            let p = parse_spec(time_s@, now as int);
            match p {
                Some(v) => i64::MIN <= v <= i64::MAX && r == Some(v as i64),
                None => r is None,
            }
        }),
{
    let v = char_vec(time_s);
    let n0 = v.len();
    let mut lo: usize = 0;
    while lo < n0 && is_space_exec(v[lo])
        invariant
            lo <= n0,
            n0 == v.len(),
            forall|j: int| 0 <= j < lo ==> is_space(#[trigger] v@[j]),
        decreases n0 - lo,
    {
        lo = lo + 1;
    }
    let mut hi: usize = n0;
    while hi > lo && is_space_exec(v[hi - 1])
        invariant
            lo <= hi <= n0,
            n0 == v.len(),
            forall|j: int| hi <= j < n0 ==> is_space(#[trigger] v@[j]),
        decreases hi,
    {
        hi = hi - 1;
    }
    proof {
        lemma_trim_front_prefix(v@, lo as int);
        let tf = v@.subrange(lo as int, n0 as int);
        lemma_trim_back_suffix(tf, hi - lo);
        assert(tf.subrange(0, hi - lo) =~= v@.subrange(lo as int, hi as int));
        assert(trim(time_s@) == v@.subrange(lo as int, hi as int));
    }
    let t = subvec(&v, lo, hi);
    let n = t.len();
    if n == 0 {
        return None;
    }
    if check_digits(&t, 0, n) {
        proof {
            assert(t@.subrange(0, n as int) =~= t@);
        }
        match digits_to_u64(&t, 0, n) {
            Some(val) => {
                if val <= i64::MAX as u64 {
                    return Some(val as i64);
                } else {
                    return None;
                }
            },
            None => {
                return None;
            },
        }
    }
    proof {
        assert(t@.subrange(0, n as int) =~= t@);
        assert(!all_digits(t@));
    }
    if n == 15 {
        let c8 = t[8];
        if c8 == 'T' {
            let ok = check_digits(&t, 0, 4) && check_digits(&t, 4, 6) && check_digits(&t, 6, 8)
                && check_digits(&t, 9, 11) && check_digits(&t, 11, 13) && check_digits(
                &t,
                13,
                15,
            );
            if !ok {
                return None;
            }
            let fy = field_val(&t, 0, 4);
            let fmo = field_val(&t, 4, 6);
            let fd = field_val(&t, 6, 8);
            let fh = field_val(&t, 9, 11);
            let fmi = field_val(&t, 11, 13);
            let fs = field_val(&t, 13, 15);
            let secs = civil_secs_exec(fy, fmo, fd, fh, fmi, fs);
            proof {
                assert(secs as int == datetime_secs(t@));
            }
            return Some(secs);
        }
    }
    if n >= 3 {
        let cn = t[0];
        let co = t[1];
        let cw = t[2];
        if cn == 'n' && co == 'o' && cw == 'w' {
            return parse_relative(&t, now);
        }
    }
    None
}

/// Law: a specifier that trims to a run of decimal digits parses to
/// that run's value — the reference instant plays no part, as the
/// right-hand side of the conclusion mentions no `now`.
pub proof fn lemma_epoch_form_ignores_now(s: Seq<char>, now: int)
    requires
        trim(s).len() > 0,
        all_digits(trim(s)),
        digits_val(trim(s)) <= i64::MAX,
    ensures
        parse_spec(s, now) == Some(digits_val(trim(s))),
{
}

/// Law: a specifier that trims to exactly `now` parses to the reference
/// instant itself.
pub proof fn lemma_now_form_returns_now(s: Seq<char>, now: int)
    requires
        trim(s) == seq!['n', 'o', 'w'],
    ensures
        parse_spec(s, now) == Some(now),
{
    let t = trim(s);
    assert(!is_digit(t[0]));
    assert(!all_digits(t));
    let rest0 = t.subrange(3, t.len() as int);
    assert(rest0.len() == 0);
    assert(trim_front(rest0).len() == 0);
}

/// Law: a specifier that trims to the compact datetime shape — fifteen
/// characters, digits around a `T` at position eight — parses to the
/// UTC instant of that calendar datetime, with no part played by the
/// reference instant or by any host timezone.
pub proof fn lemma_datetime_form_ignores_now(s: Seq<char>, now: int)
    requires
        trim(s).len() == 15,
        trim(s)[8] == 'T',
        datetime_fields_ok(trim(s)),
    ensures
        parse_spec(s, now) == Some(datetime_secs(trim(s))),
{
    let t = trim(s);
    assert(!is_digit(t[8]));
    assert(!all_digits(t));
}

/// Law: `now` followed by a sign, a digit run and a unit suffix parses
/// to the reference instant offset by that many of the unit's seconds —
/// added for `+`, subtracted for `-` — whenever the digit run and the
/// result fit a 64-bit second count.
pub proof fn lemma_relative_form_offsets_now(
    ds: Seq<char>,
    sign: char,
    u: char,
    usecs: int,
    now: int,
)
    requires
        sign == '+' || sign == '-',
        ds.len() > 0,
        all_digits(ds),
        unit_secs(u) == Some(usecs),
        digits_val(ds) <= i64::MAX,
        i64::MIN <= now + (if sign == '-' {
            -1int
        } else {
            1int
        }) * digits_val(ds) * usecs <= i64::MAX,
    ensures
        parse_spec(seq!['n', 'o', 'w', sign] + ds + seq![u], now) == Some(
            now + (if sign == '-' {
                -1int
            } else {
                1int
            }) * digits_val(ds) * usecs,
        ),
{
    let s = seq!['n', 'o', 'w', sign] + ds + seq![u];
    let m = ds.len() as int;
    assert(s.len() == m + 5);
    assert(s[0] == 'n' && s[1] == 'o' && s[2] == 'w' && s[3] == sign);
    assert(forall|i: int| 0 <= i < m ==> s[4 + i] == #[trigger] ds[i]);
    assert(s[s.len() - 1] == u);
    assert(u == 's' || u == 'm' || u == 'h' || u == 'd' || u == 'y');
    // no character of the specifier is whitespace, so trimming is the
    // identity
    assert(!is_space(s[0]));
    assert(!is_space(s[s.len() - 1]));
    assert(trim_front(s) == s);
    assert(trim_back(s) == s);
    assert(trim(s) == s);
    // the digit branch does not fire: the first character is no digit
    assert(!is_digit(s[0]));
    assert(!all_digits(s));
    // the datetime branch does not fire: were the length fifteen, the
    // character at position eight would be a digit, never the literal T
    if s.len() == 15 {
        assert(s[8] == ds[4]);
        assert(is_digit(s[8]));
        assert(s[8] != 'T');
    }
    // the relative branch fires
    let rest0 = s.subrange(3, s.len() as int);
    assert(rest0[0] == sign);
    assert(!is_space(rest0[0]));
    assert(trim_front(rest0) == rest0);
    let rest = trim_front(rest0);
    assert(rest.len() == m + 2);
    assert(rest.first() == sign);
    assert(rest.last() == u);
    let mid0 = rest.subrange(1, rest.len() - 1);
    assert(mid0 =~= ds);
    assert(!is_space(ds[0]));
    assert(!is_space(ds[m - 1]));
    assert(trim_front(ds) == ds);
    assert(trim_back(ds) == ds);
    assert(trim(mid0) == ds);
    // the trimmed middle is an unsigned digit run
    assert(is_digit(ds[0]));
    assert(ds.first() != '+' && ds.first() != '-');
    assert(valid_int(ds));
    assert(int_val(ds) == digits_val(ds));
    lemma_digits_val_nonneg(ds);
    let sig: int = if sign == '-' {
        -1int
    } else {
        1int
    };
    assert(relative_secs(s, now) == Some(now + sig * digits_val(ds) * usecs));
}

} // verus!
