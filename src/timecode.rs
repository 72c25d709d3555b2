//! Clock times of the form `H:MM:SS.cc`, held as centiseconds.
//!
//! The grammar is `digits ':' digits ':' digits '.' digits`; the fraction
//! counts its first two digits as hundredths. A time whose value does not fit
//! in a `u64` is not a time.
use vstd::prelude::*;

verus! {

pub open spec fn is_digit(b: u8) -> bool {
    48 <= b <= 57
}

/// The number of digits in `s` from position `i` on.
pub open spec fn digit_run(s: Seq<u8>, i: int) -> nat
    decreases s.len() - i,
{
    if 0 <= i < s.len() && is_digit(s[i]) {
        1 + digit_run(s, i + 1)
    } else {
        0
    }
}

/// The value of the decimal digits `s[i..j]`.
pub open spec fn digits_value(s: Seq<u8>, i: int, j: int) -> nat
    decreases j - i,
{
    if j <= i {
        0
    } else {
        digits_value(s, i, j - 1) * 10 + (s[j - 1] - 48) as nat
    }
}

/// Hundredths from the fraction digits `s[i..j]` (one digit or more).
pub open spec fn fraction_cs(s: Seq<u8>, i: int, j: int) -> nat {
    if j - i >= 2 {
        ((s[i] - 48) * 10 + (s[i + 1] - 48)) as nat
    } else {
        ((s[i] - 48) * 10) as nat
    }
}

pub open spec fn clock_value(h: nat, m: nat, sec: nat, cs: nat) -> nat {
    h * 360000 + m * 6000 + sec * 100 + cs
}

/// The clock time that starts at `i`: its value in centiseconds and the
/// position just after it.
pub open spec fn clock_at(s: Seq<u8>, i: int) -> Option<(u64, int)> {
    let a = digit_run(s, i) as int;
    let hour_end = i + a;
    let b = digit_run(s, hour_end + 1) as int;
    let minute_end = hour_end + 1 + b;
    let c = digit_run(s, minute_end + 1) as int;
    let second_end = minute_end + 1 + c;
    let d = digit_run(s, second_end + 1) as int;
    let fraction_end = second_end + 1 + d;
    if 0 <= i && a > 0 && hour_end < s.len() && s[hour_end] == 58 && b > 0 && minute_end < s.len() && s[minute_end] == 58 && c
        > 0 && second_end < s.len() && s[second_end] == 46 && d > 0 {
        let v = clock_value(
            digits_value(s, i, hour_end),
            digits_value(s, hour_end + 1, minute_end),
            digits_value(s, minute_end + 1, second_end),
            fraction_cs(s, second_end + 1, fraction_end),
        );
        if v <= u64::MAX {
            Some((v as u64, fraction_end))
        } else {
            None
        }
    } else {
        None
    }
}

pub proof fn lemma_digit_run_bound(s: Seq<u8>, i: int)
    requires
        0 <= i,
    ensures
        i + digit_run(s, i) <= s.len() || digit_run(s, i) == 0,
        forall|k: int| i <= k < i + digit_run(s, i) ==> is_digit(s[k]),
        i + digit_run(s, i) < s.len() ==> !is_digit(s[i + digit_run(s, i)]),
    decreases s.len() - i,
{
    if 0 <= i < s.len() && is_digit(s[i]) {
        lemma_digit_run_bound(s, i + 1);
    }
}

/// A clock time ends after its start and within the text.
pub proof fn lemma_clock_at_bound(s: Seq<u8>, i: int)
    requires
        clock_at(s, i) is Some,
    ensures
        i < (clock_at(s, i)->0).1 <= s.len(),
{
    let hour_end = i + digit_run(s, i);
    let minute_end = hour_end + 1 + digit_run(s, hour_end + 1);
    let second_end = minute_end + 1 + digit_run(s, minute_end + 1);
    lemma_digit_run_bound(s, second_end + 1);
}

/// Scans the digits from `i`: the position after them, and their value when
/// it fits in a `u64`.
fn scan_digits(s: &[u8], i: usize) -> (r: (usize, Option<u64>))
    requires
        i <= s@.len(),
    ensures
        r.0 == i + digit_run(s@, i as int),
        r.0 <= s@.len(),
        match r.1 {
            Some(v) => v == digits_value(s@, i as int, r.0 as int),
            None => digits_value(s@, i as int, r.0 as int) > u64::MAX,
        },
{
    proof {
        lemma_digit_run_bound(s@, i as int);
    }
    let mut j = i;
    let mut v: Option<u64> = Some(0);
    while j < s.len() && 48 <= s[j] && s[j] <= 57
        invariant
            i <= j <= s@.len(),
            j <= i + digit_run(s@, i as int),
            digit_run(s@, i as int) == (j - i) + digit_run(s@, j as int),
            match v {
                Some(x) => x == digits_value(s@, i as int, j as int),
                None => digits_value(s@, i as int, j as int) > u64::MAX,
            },
        decreases s@.len() - j,
    {
        let d = (s[j] - 48) as u64;
        v = match v {
            Some(x) => {
                if x > (u64::MAX - d) / 10 {
                    None
                } else {
                    Some(x * 10 + d)
                }
            },
            None => None,
        };
        proof {
            let dv = digits_value(s@, i as int, j as int);
            assert(digits_value(s@, i as int, j + 1) == dv * 10 + d);
            if v is None {
                assert(dv * 10 + d > u64::MAX) by (nonlinear_arith)
                    requires dv > u64::MAX || dv > (u64::MAX - d) / 10, d <= 9;
            }
        }
        j = j + 1;
    }
    (j, v)
}

/// Reads the clock time that starts at `i`.
pub fn parse_clock(s: &[u8], i: usize) -> (r: Option<(u64, usize)>)
    requires
        i <= s@.len(),
    ensures
        match r {
            Some((v, e)) => clock_at(s@, i as int) == Some((v, e as int)),
            None => clock_at(s@, i as int) is None,
        },
{
    let n = s.len();
    let (hour_end, h) = scan_digits(s, i);
    if hour_end == i || hour_end >= n || s[hour_end] != 58 {
        return None;
    }
    let (minute_end, m) = scan_digits(s, hour_end + 1);
    if minute_end == hour_end + 1 || minute_end >= n || s[minute_end] != 58 {
        return None;
    }
    let (second_end, sec) = scan_digits(s, minute_end + 1);
    if second_end == minute_end + 1 || second_end >= n || s[second_end] != 46 {
        return None;
    }
    let (fraction_end, _) = scan_digits(s, second_end + 1);
    if fraction_end == second_end + 1 {
        return None;
    }
    proof {
        lemma_digit_run_bound(s@, second_end + 1);
    }
    let cs: u64 = if fraction_end - (second_end + 1) >= 2 {
        ((s[second_end + 1] - 48) * 10 + (s[second_end + 2] - 48)) as u64
    } else {
        ((s[second_end + 1] - 48) * 10) as u64
    };
    let ghost hv = digits_value(s@, i as int, hour_end as int);
    let ghost mv = digits_value(s@, hour_end + 1, minute_end as int);
    let ghost sv = digits_value(s@, minute_end + 1, second_end as int);
    match (h, m, sec) {
        (Some(h), Some(m), Some(sec)) => {
            if h > (u64::MAX - cs) / 360000 {
                assert(clock_value(hv, mv, sv, cs as nat) > u64::MAX) by (nonlinear_arith)
                    requires h > (u64::MAX - cs) / 360000, hv == h, cs < 100;
                return None;
            }
            let a = h * 360000 + cs;
            if m > (u64::MAX - a) / 6000 {
                assert(clock_value(hv, mv, sv, cs as nat) > u64::MAX) by (nonlinear_arith)
                    requires m > (u64::MAX - a) / 6000, mv == m, a == hv * 360000 + cs;
                return None;
            }
            let b = a + m * 6000;
            if sec > (u64::MAX - b) / 100 {
                assert(clock_value(hv, mv, sv, cs as nat) > u64::MAX) by (nonlinear_arith)
                    requires sec > (u64::MAX - b) / 100, sv == sec, b == hv * 360000 + cs + mv * 6000;
                return None;
            }
            Some((b + sec * 100, fraction_end))
        },
        _ => {
            assert(clock_value(hv, mv, sv, cs as nat) > u64::MAX) by (nonlinear_arith)
                requires hv > u64::MAX || mv > u64::MAX || sv > u64::MAX;
            None
        },
    }
}

/// The decimal digits of `n` as ASCII bytes.
pub open spec fn dec_bytes(n: nat) -> Seq<u8>
    decreases n,
{
    if n < 10 {
        seq![(n + 48) as u8]
    } else {
        dec_bytes(n / 10).push(((n % 10) + 48) as u8)
    }
}

pub open spec fn two_digit_bytes(n: nat) -> Seq<u8> {
    seq![((n / 10) + 48) as u8, ((n % 10) + 48) as u8]
}

/// The text of a clock time: hours without padding, then two-digit
/// minutes, seconds and hundredths.
pub open spec fn clock_bytes(v: nat) -> Seq<u8> {
    dec_bytes(v / 360000) + seq![58u8] + two_digit_bytes((v / 6000) % 60) + seq![58u8]
        + two_digit_bytes((v / 100) % 60) + seq![46u8] + two_digit_bytes(v % 100)
}

/// Appends the decimal digits of `n`.
pub fn push_decimal_bytes(out: &mut Vec<u8>, n: u64)
    ensures
        final(out)@ == old(out)@ + dec_bytes(n as nat),
    decreases n,
{
    if n >= 10 {
        push_decimal_bytes(out, n / 10);
    }
    out.push(((n % 10) as u8) + 48);
    assert(out@ =~= old(out)@ + dec_bytes(n as nat));
}

fn push_two_digit_bytes(out: &mut Vec<u8>, n: u64)
    requires
        n < 100,
    ensures
        final(out)@ == old(out)@ + two_digit_bytes(n as nat),
{
    out.push(((n / 10) as u8) + 48);
    out.push(((n % 10) as u8) + 48);
    assert(out@ =~= old(out)@ + two_digit_bytes(n as nat));
}

/// Appends the text of a clock time.
pub fn push_clock(out: &mut Vec<u8>, v: u64)
    ensures
        final(out)@ == old(out)@ + clock_bytes(v as nat),
{
    let ghost s0 = out@;
    push_decimal_bytes(out, v / 360000);
    out.push(58);
    push_two_digit_bytes(out, (v / 6000) % 60);
    out.push(58);
    push_two_digit_bytes(out, (v / 100) % 60);
    out.push(46);
    push_two_digit_bytes(out, v % 100);
    assert(out@ =~= s0 + clock_bytes(v as nat));
}

/// A run of digits that stops at a non-digit (or the end) has its length.
pub proof fn lemma_digit_run_exact(s: Seq<u8>, i: int, j: int)
    requires
        0 <= i <= j <= s.len(),
        forall|k: int| i <= k < j ==> is_digit(#[trigger] s[k]),
        j == s.len() || !is_digit(s[j]),
    ensures
        digit_run(s, i) == j - i,
    decreases j - i,
{
    if i < j {
        lemma_digit_run_exact(s, i + 1, j);
    }
}

/// Digit values depend only on the digits.
pub proof fn lemma_digits_value_agree(s1: Seq<u8>, i1: int, s2: Seq<u8>, i2: int, k: int)
    requires
        0 <= k,
        0 <= i1,
        i1 + k <= s1.len(),
        0 <= i2,
        i2 + k <= s2.len(),
        forall|q: int| 0 <= q < k ==> #[trigger] s1[i1 + q] == s2[i2 + q],
    ensures
        digits_value(s1, i1, i1 + k) == digits_value(s2, i2, i2 + k),
    decreases k,
{
    if k > 0 {
        lemma_digits_value_agree(s1, i1, s2, i2, k - 1);
        assert(s1[i1 + k - 1] == s2[i2 + k - 1]);
    }
}

/// The decimal digits of `n` are digits, at least one, and read back as `n`.
pub proof fn lemma_dec_bytes(n: nat)
    ensures
        dec_bytes(n).len() >= 1,
        forall|k: int| 0 <= k < dec_bytes(n).len() ==> is_digit(#[trigger] dec_bytes(n)[k]),
        digits_value(dec_bytes(n), 0, dec_bytes(n).len() as int) == n,
    decreases n,
{
    if n >= 10 {
        lemma_dec_bytes(n / 10);
        let x = dec_bytes(n / 10);
        let y = dec_bytes(n);
        let c = ((n % 10) + 48) as u8;
        assert(y == x.push(c));
        assert forall|q: int| 0 <= q < x.len() implies #[trigger] y[0 + q] == x[0 + q] by {}
        lemma_digits_value_agree(y, 0, x, 0, x.len() as int);
        assert(digits_value(y, 0, y.len() as int) == digits_value(y, 0, x.len() as int) * 10 + (c
            - 48));
        vstd::arithmetic::div_mod::lemma_fundamental_div_mod(n as int, 10);
        assert forall|k: int| 0 <= k < y.len() implies is_digit(#[trigger] y[k]) by {
            if k < x.len() {
                assert(y[k] == x[k]);
            }
        }
    } else {
        assert(digits_value(dec_bytes(n), 0, 1) == digits_value(dec_bytes(n), 0, 0) * 10 + (
        dec_bytes(n)[0] - 48));
    }
}

proof fn lemma_clock_parts(v: nat)
    ensures
        v == (v / 360000) * 360000 + ((v / 6000) % 60) * 6000 + ((v / 100) % 60) * 100 + v % 100,
{
    let a = v / 100;
    let b = a / 60;
    vstd::arithmetic::div_mod::lemma_fundamental_div_mod(v as int, 100);
    vstd::arithmetic::div_mod::lemma_fundamental_div_mod(a as int, 60);
    vstd::arithmetic::div_mod::lemma_div_denominator(v as int, 100, 60);
    vstd::arithmetic::div_mod::lemma_fundamental_div_mod(b as int, 60);
    vstd::arithmetic::div_mod::lemma_div_denominator(v as int, 6000, 60);
    assert(b == v / 6000);
    assert(b / 60 == v / 360000);
    assert(v == (v / 360000) * 360000 + ((v / 6000) % 60) * 6000 + ((v / 100) % 60) * 100 + v
        % 100) by (nonlinear_arith)
        requires
            v == 100 * a + v % 100,
            a == 60 * b + a % 60,
            b == v / 6000,
            b == 60 * (b / 60) + b % 60,
            b / 60 == v / 360000,
            a == v / 100,
    ;
}

proof fn lemma_two_digits(s: Seq<u8>, j: int, n: nat)
    requires
        n < 100,
        0 <= j,
        j + 2 <= s.len(),
        s[j] == two_digit_bytes(n)[0],
        s[j + 1] == two_digit_bytes(n)[1],
    ensures
        is_digit(s[j]),
        is_digit(s[j + 1]),
        digits_value(s, j, j + 2) == n,
        fraction_cs(s, j, j + 2) == n,
{
    assert(n / 10 < 10);
    assert(s[j] == (n / 10) + 48);
    assert(s[j + 1] == (n % 10) + 48);
    assert(digits_value(s, j, j + 1) == digits_value(s, j, j) * 10 + (s[j] - 48));
    assert(digits_value(s, j, j + 2) == digits_value(s, j, j + 1) * 10 + (s[j + 1] - 48));
    vstd::arithmetic::div_mod::lemma_fundamental_div_mod(n as int, 10);
}

/// A formatted clock time followed by a non-digit reads back as itself.
pub proof fn lemma_clock_round_trip(s: Seq<u8>, i: int, v: u64)
    requires
        0 <= i,
        i + clock_bytes(v as nat).len() < s.len(),
        s.subrange(i, i + clock_bytes(v as nat).len()) == clock_bytes(v as nat),
        !is_digit(s[i + clock_bytes(v as nat).len()]),
    ensures
        clock_at(s, i) == Some((v, i + clock_bytes(v as nat).len())),
{
    let vn = v as nat;
    let d = dec_bytes(vn / 360000);
    let t1 = two_digit_bytes((vn / 6000) % 60);
    let t2 = two_digit_bytes((vn / 100) % 60);
    let t3 = two_digit_bytes(vn % 100);
    let cb = clock_bytes(vn);
    let n = cb.len() as int;
    lemma_dec_bytes(vn / 360000);
    let dl = d.len() as int;
    assert(cb =~= d + seq![58u8] + t1 + seq![58u8] + t2 + seq![46u8] + t3);
    assert(n == dl + 9);
    assert forall|q: int| 0 <= q < n implies s[i + q] == #[trigger] cb[q] by {
        assert(s.subrange(i, i + n)[q] == cb[q]);
    }
    // hours
    assert forall|k: int| i <= k < i + dl implies is_digit(#[trigger] s[k]) by {
        assert(s[k] == cb[k - i]);
        assert(cb[k - i] == d[k - i]);
    }
    assert(s[i + dl] == cb[dl]);
    lemma_digit_run_exact(s, i, i + dl);
    assert forall|q: int| 0 <= q < dl implies #[trigger] s[i + q] == d[0 + q] by {
        assert(s[i + q] == cb[q]);
    }
    lemma_digits_value_agree(s, i, d, 0, dl);
    let hour_end = i + dl;
    let minute_end = hour_end + 3;
    let second_end = minute_end + 3;
    assert(s[hour_end + 1] == cb[dl + 1] && s[hour_end + 2] == cb[dl + 2] && s[minute_end] == cb[dl + 3]);
    lemma_two_digits(s, hour_end + 1, (vn / 6000) % 60);
    lemma_digit_run_exact(s, hour_end + 1, hour_end + 3);
    assert(s[minute_end + 1] == cb[dl + 4] && s[minute_end + 2] == cb[dl + 5] && s[second_end] == cb[dl + 6]);
    lemma_two_digits(s, minute_end + 1, (vn / 100) % 60);
    lemma_digit_run_exact(s, minute_end + 1, minute_end + 3);
    assert(s[second_end + 1] == cb[dl + 7] && s[second_end + 2] == cb[dl + 8]);
    lemma_two_digits(s, second_end + 1, vn % 100);
    assert(s[second_end + 3] == s[i + n]);
    lemma_digit_run_exact(s, second_end + 1, second_end + 3);
    lemma_clock_parts(vn);
}

} // verus!
