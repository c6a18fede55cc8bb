//! Decimal numerals of the grid text and the sample each token yields.
use vstd::prelude::*;

use crate::decimal::{lemma_pow10_bound, lemma_pow10_limits, pow10, Decimal, MAX_DIGITS};

verus! {

/// The decimal point.
pub const POINT: u8 = 46;

/// The minus sign.
pub const MINUS: u8 = 45;

/// The plus sign.
pub const PLUS: u8 = 43;

/// The exponent mark, lower case.
pub const EXP_LOWER: u8 = 101;

/// The exponent mark, upper case.
pub const EXP_UPPER: u8 = 69;

/// The nodata marker of the raster format.
pub const NODATA: i64 = -9999;

/// An exponent at least this large is held as this bound: it leaves no
/// digit of a sample, or makes any nonzero sample out of range.
pub const EXPONENT_CAP: u128 = 100000000000000000000;

/// The magnitude from which a value is out of range.
pub const MAGNITUDE_CAP: u128 = 1000000000000000000;

/// An ASCII decimal digit.
pub open spec fn is_digit(b: u8) -> bool {
    48 <= b <= 57
}

/// The number that the decimal digits `s` spell.
pub open spec fn digits_value(s: Seq<u8>) -> int
    decreases s.len(),
{
    if s.len() == 0 {
        0
    } else {
        digits_value(s.drop_last()) * 10 + (s.last() - 48)
    }
}

/// The length of the run of digits that `s` starts with.
pub open spec fn digit_run(s: Seq<u8>) -> nat
    decreases s.len(),
{
    if s.len() > 0 && is_digit(s[0]) {
        1 + digit_run(s.drop_first())
    } else {
        0
    }
}

/// `s` without its leading sign, if it has one.
pub open spec fn unsigned_part(s: Seq<u8>) -> Seq<u8> {
    if s.len() > 0 && (s[0] == MINUS || s[0] == PLUS) {
        s.drop_first()
    } else {
        s
    }
}

/// `s` starts with a minus sign.
pub open spec fn is_negative(s: Seq<u8>) -> bool {
    s.len() > 0 && s[0] == MINUS
}

/// The digits before the decimal point.
pub open spec fn int_digits(t: Seq<u8>) -> Seq<u8> {
    unsigned_part(t).take(digit_run(unsigned_part(t)) as int)
}

/// What follows the digits before the point.
pub open spec fn after_int(t: Seq<u8>) -> Seq<u8> {
    unsigned_part(t).skip(digit_run(unsigned_part(t)) as int)
}

/// What follows the decimal point, or the digits before it where there is
/// no point.
pub open spec fn after_point(t: Seq<u8>) -> Seq<u8> {
    if after_int(t).len() > 0 && after_int(t)[0] == POINT {
        after_int(t).drop_first()
    } else {
        after_int(t)
    }
}

/// The digits after the decimal point.
pub open spec fn fraction_digits(t: Seq<u8>) -> Seq<u8> {
    after_point(t).take(digit_run(after_point(t)) as int)
}

/// What follows the digits after the point: empty, or the exponent.
pub open spec fn after_fraction(t: Seq<u8>) -> Seq<u8> {
    after_point(t).skip(digit_run(after_point(t)) as int)
}

/// The token has an exponent mark after its digits.
pub open spec fn has_exponent(t: Seq<u8>) -> bool {
    after_fraction(t).len() > 0 && (after_fraction(t)[0] == EXP_LOWER || after_fraction(t)[0]
        == EXP_UPPER)
}

/// The digits of the exponent.
pub open spec fn exponent_digits(t: Seq<u8>) -> Seq<u8> {
    unsigned_part(after_fraction(t).drop_first())
}

/// The exponent (zero where there is none).
pub open spec fn exponent(t: Seq<u8>) -> int {
    if !has_exponent(t) {
        0
    } else if is_negative(after_fraction(t).drop_first()) {
        -digits_value(exponent_digits(t))
    } else {
        digits_value(exponent_digits(t))
    }
}

/// The token is a decimal numeral: an optional sign, digits, optionally a
/// point and more digits, with at least one digit in all, and optionally an
/// exponent mark (`e` or `E`) with an optional sign and at least one digit.
pub open spec fn is_numeral(t: Seq<u8>) -> bool {
    &&& int_digits(t).len() + fraction_digits(t).len() >= 1
    &&& after_fraction(t).len() == 0 || (has_exponent(t) && exponent_digits(t).len() >= 1
        && digit_run(exponent_digits(t)) == exponent_digits(t).len())
}

/// All the digits of the numeral, the point left out.
pub open spec fn digit_string(t: Seq<u8>) -> Seq<u8> {
    int_digits(t) + fraction_digits(t)
}

/// The value of the numeral is `digits_value(digit_string(t)) * 10^scale(t)`.
pub open spec fn scale(t: Seq<u8>) -> int {
    exponent(t) - fraction_digits(t).len()
}

/// The fraction digits that the sample keeps: at most eighteen.
pub open spec fn kept_fraction(t: Seq<u8>) -> nat {
    if scale(t) >= 0 {
        0
    } else if -scale(t) <= MAX_DIGITS {
        (-scale(t)) as nat
    } else {
        MAX_DIGITS as nat
    }
}

/// How many trailing digits lie beyond the eighteenth fraction place and are
/// dropped.
pub open spec fn dropped_digits(t: Seq<u8>) -> int {
    if scale(t) >= 0 {
        0
    } else {
        -scale(t) - kept_fraction(t)
    }
}

/// The digits that the sample keeps.
pub open spec fn kept_digits(t: Seq<u8>) -> Seq<u8> {
    let n = digit_string(t).len() - dropped_digits(t);
    digit_string(t).take(
        if n > 0 {
            n
        } else {
            0
        },
    )
}

/// The magnitude of the sample's mantissa: the value, in units of the last
/// kept fraction place, with the digits beyond the eighteenth fraction place
/// dropped.
pub open spec fn magnitude(t: Seq<u8>) -> int {
    if scale(t) >= 0 {
        digits_value(digit_string(t)) * pow10(scale(t) as nat)
    } else {
        digits_value(kept_digits(t))
    }
}

/// The value fits a sample: its mantissa has at most eighteen digits.
pub open spec fn in_range(t: Seq<u8>) -> bool {
    magnitude(t) < pow10(MAX_DIGITS as nat)
}

/// The value of a numeral, exact up to the eighteenth fraction place.
pub open spec fn numeral_value(t: Seq<u8>) -> Decimal {
    Decimal {
        mantissa: (if is_negative(t) {
            -magnitude(t)
        } else {
            magnitude(t)
        }) as i64,
        frac_digits: kept_fraction(t) as u32,
    }
}

/// The elevation zero, as the loader produces it.
pub open spec fn zero_sample() -> Decimal {
    Decimal { mantissa: 0, frac_digits: 0 }
}

/// The sample that a token yields: its value, or zero where the token is no
/// numeral, its value lies outside the range of a sample (a magnitude of
/// `10^18` or more in units of its last kept fraction place), or it is the
/// nodata marker.
pub open spec fn sample_of(t: Seq<u8>) -> Decimal {
    if is_numeral(t) && in_range(t) && !numeral_value(t).equals(NODATA as int) {
        numeral_value(t)
    } else {
        zero_sample()
    }
}

/// `x`, but no more than `cap`.
pub open spec fn capped(x: int, cap: int) -> int {
    if x < cap {
        x
    } else {
        cap
    }
}

/// A token that is the nodata marker, in any spelling of its value (`-9999`,
/// `-9999.0`, `-9.999e3`, ...), yields the sample zero.
pub proof fn lemma_nodata_normalized(t: Seq<u8>)
    requires
        is_numeral(t),
        numeral_value(t).equals(NODATA as int),
    ensures
        sample_of(t) == zero_sample(),
{
}

/// A token that is no numeral (a text label, an empty sign, a second point)
/// yields the sample zero, the same sample as the token `0`.
pub proof fn lemma_malformed_token(t: Seq<u8>)
    requires
        !is_numeral(t),
    ensures
        sample_of(t) == zero_sample(),
        sample_of(seq![48u8]) == zero_sample(),
{
    let z: Seq<u8> = seq![48u8];
    assert(unsigned_part(z) =~= z);
    assert(z.drop_first() =~= Seq::<u8>::empty());
    assert(digit_run(z) == 1) by {
        reveal_with_fuel(digit_run, 2);
    }
    assert(after_int(z) =~= Seq::<u8>::empty());
    assert(digit_run(Seq::<u8>::empty()) == 0);
    assert(fraction_digits(z) =~= Seq::<u8>::empty());
    assert(digit_string(z) =~= z);
    assert(digits_value(z) == 0) by {
        assert(z.drop_last() =~= Seq::<u8>::empty());
        assert(z.last() == 48u8);
        reveal_with_fuel(digits_value, 2);
    }
    lemma_pow10_limits();
}

/// `digit_run` counts the leading digits.
proof fn lemma_digit_run(t: Seq<u8>, k: int)
    requires
        0 <= k <= t.len(),
        forall|i: int| 0 <= i < k ==> is_digit(#[trigger] t[i]),
        k == t.len() || !is_digit(t[k]),
    ensures
        digit_run(t) == k,
    decreases k,
{
    if k > 0 {
        let u = t.drop_first();
        assert forall|i: int| 0 <= i < k - 1 implies is_digit(#[trigger] u[i]) by {
            assert(u[i] == t[i + 1]);
        }
        lemma_digit_run(u, k - 1);
    }
}

/// The end of the run of digits that starts at `from`.
fn skip_digits(s: &[u8], from: usize, end: usize) -> (r: usize)
    requires
        from <= end <= s.len(),
    ensures
        from <= r <= end,
        r - from == digit_run(s@.subrange(from as int, end as int)),
        forall|i: int| from <= i < r ==> is_digit(#[trigger] s[i]),
{
    let mut j: usize = from;
    while j < end && 48 <= s[j] && s[j] <= 57
        invariant
            from <= j <= end <= s.len(),
            forall|i: int| from <= i < j ==> is_digit(#[trigger] s[i]),
        decreases end - j,
    {
        j = j + 1;
    }
    proof {
        let t = s@.subrange(from as int, end as int);
        assert forall|i: int| 0 <= i < j - from implies is_digit(#[trigger] t[i]) by {
            assert(t[i] == s[from + i]);
        }
        if j < end {
            assert(t[j - from] == s[j as int]);
        }
        lemma_digit_run(t, j - from);
    }
    j
}

/// Continues the value `start` of the digits `prefix` with the digits
/// `s[from..to]`, holding any value from `cap` up as `cap`.
fn digits_capped(
    s: &[u8],
    from: usize,
    to: usize,
    start: u128,
    Ghost(prefix): Ghost<Seq<u8>>,
    cap: u128,
) -> (r: u128)
    requires
        from <= to <= s.len(),
        forall|i: int| from <= i < to ==> is_digit(#[trigger] s[i]),
        0 < cap <= EXPONENT_CAP,
        digits_value(prefix) >= 0,
        start == capped(digits_value(prefix), cap as int),
    ensures
        r == capped(digits_value(prefix + s@.subrange(from as int, to as int)), cap as int),
        digits_value(prefix + s@.subrange(from as int, to as int)) >= 0,
{
    let mut v = start;
    let mut j: usize = from;
    assert(prefix + s@.subrange(from as int, from as int) =~= prefix);
    while j < to
        invariant
            from <= j <= to <= s.len(),
            forall|i: int| from <= i < to ==> is_digit(#[trigger] s[i]),
            0 < cap <= EXPONENT_CAP,
            digits_value(prefix + s@.subrange(from as int, j as int)) >= 0,
            v == capped(digits_value(prefix + s@.subrange(from as int, j as int)), cap as int),
        decreases to - j,
    {
        let ghost before = prefix + s@.subrange(from as int, j as int);
        let ghost after = prefix + s@.subrange(from as int, j + 1);
        assert(after.drop_last() =~= before);
        assert(is_digit(s[j as int]));
        let d = (s[j] - 48) as u128;
        let w = v * 10 + d;
        v = if w < cap {
            w
        } else {
            cap
        };
        j = j + 1;
    }
    v
}

/// `d * 10^sc`, or `None` where that reaches `MAGNITUDE_CAP`; `sc` is the
/// exact scale `true_scale`, or stands for a larger one from `MAX_DIGITS` up.
fn raise(d: u128, sc: i128, Ghost(true_scale): Ghost<int>) -> (r: Option<u128>)
    requires
        1 <= d < MAGNITUDE_CAP,
        0 <= sc <= true_scale,
        sc < true_scale ==> sc >= MAX_DIGITS,
    ensures
        match r {
            Some(w) => w == d * pow10(true_scale as nat) && w < MAGNITUDE_CAP,
            None => d * pow10(true_scale as nat) >= MAGNITUDE_CAP,
        },
{
    proof {
        lemma_pow10_limits();
    }
    let mut w: u128 = d;
    let mut i: i128 = 0;
    while i < sc && w < MAGNITUDE_CAP
        invariant
            0 <= i <= sc,
            1 <= d < MAGNITUDE_CAP,
            w == d * pow10(i as nat),
            pow10(MAX_DIGITS as nat) == MAGNITUDE_CAP,
        decreases sc - i,
    {
        proof {
            let p = pow10(i as nat);
            assert(pow10((i + 1) as nat) == 10 * p);
            assert(d * (10 * p) == (d * p) * 10) by (nonlinear_arith);
        }
        w = w * 10;
        i = i + 1;
    }
    proof {
        lemma_pow10_bound(i as nat, true_scale as nat);
        let pi = pow10(i as nat);
        let ps = pow10(true_scale as nat);
        assert(d * ps >= d * pi) by (nonlinear_arith)
            requires
                d >= 1,
                ps >= pi,
        ;
        if w < MAGNITUDE_CAP && sc < true_scale {
            lemma_pow10_bound(MAX_DIGITS as nat, i as nat);
            assert(d * pi >= pi) by (nonlinear_arith)
                requires
                    d >= 1,
                    pi >= 1,
            ;
        }
    }
    if w >= MAGNITUDE_CAP {
        None
    } else {
        Some(w)
    }
}

/// Where the parts of a numeral stand in the text.
struct Parts {
    /// The start of the digits before the point.
    q: usize,
    /// The end of the digits before the point.
    i_end: usize,
    /// The start of the digits after the point.
    f_start: usize,
    /// The end of the digits after the point.
    f_end: usize,
    /// The magnitude of the exponent, held as at most `EXPONENT_CAP`.
    exp: u128,
    /// The exponent is negative.
    exp_negative: bool,
}

/// `p` tells where the parts of the numeral `s[start..end]` stand.
spec fn parts_of(s: Seq<u8>, start: int, end: int, p: Parts) -> bool {
    let t = s.subrange(start, end);
    &&& start <= p.q <= p.i_end <= p.f_start <= p.f_end <= end
    &&& int_digits(t) == s.subrange(p.q as int, p.i_end as int)
    &&& fraction_digits(t) == s.subrange(p.f_start as int, p.f_end as int)
    &&& forall|i: int| p.q <= i < p.i_end ==> is_digit(#[trigger] s[i])
    &&& forall|i: int| p.f_start <= i < p.f_end ==> is_digit(#[trigger] s[i])
    &&& p.exp <= EXPONENT_CAP
    &&& p.exp < EXPONENT_CAP ==> exponent(t) == (if p.exp_negative {
        -p.exp
    } else {
        p.exp as int
    })
    &&& p.exp == EXPONENT_CAP ==> (if p.exp_negative {
        exponent(t) <= -EXPONENT_CAP
    } else {
        exponent(t) >= EXPONENT_CAP
    })
}

/// The parts of the token `s[start..end]`, or `None` where it is no numeral.
#[verifier::rlimit(100)]
fn scan_numeral(s: &[u8], start: usize, end: usize) -> (r: Option<Parts>)
    requires
        start <= end <= s.len(),
    ensures
        match r {
            Some(p) => is_numeral(s@.subrange(start as int, end as int)) && parts_of(
                s@,
                start as int,
                end as int,
                p,
            ),
            None => !is_numeral(s@.subrange(start as int, end as int)),
        },
{
    let ghost t = s@.subrange(start as int, end as int);
    let ghost empty = Seq::<u8>::empty();
    let q: usize = if start < end && (s[start] == MINUS || s[start] == PLUS) {
        start + 1
    } else {
        start
    };
    assert(s@.subrange(q as int, end as int) =~= unsigned_part(t));
    // The digits before the point.
    let i_end = skip_digits(s, q, end);
    assert(int_digits(t) =~= s@.subrange(q as int, i_end as int));
    assert(after_int(t) =~= s@.subrange(i_end as int, end as int));
    // The point, if any, and the digits after it.
    let f_start: usize = if i_end < end && s[i_end] == POINT {
        i_end + 1
    } else {
        i_end
    };
    assert(after_point(t) =~= s@.subrange(f_start as int, end as int));
    let f_end = skip_digits(s, f_start, end);
    assert(fraction_digits(t) =~= s@.subrange(f_start as int, f_end as int));
    assert(after_fraction(t) =~= s@.subrange(f_end as int, end as int));
    if i_end - q + (f_end - f_start) == 0 {
        return None;
    }
    // The exponent, if any, held as at most `EXPONENT_CAP`.

    let mut exp: u128 = 0;
    let mut exp_negative = false;
    if f_end < end {
        if !(s[f_end] == EXP_LOWER || s[f_end] == EXP_UPPER) {
            return None;
        }
        let mut e_start = f_end + 1;
        assert(after_fraction(t).drop_first() =~= s@.subrange(e_start as int, end as int));
        if e_start < end && (s[e_start] == MINUS || s[e_start] == PLUS) {
            exp_negative = s[e_start] == MINUS;
            e_start = e_start + 1;
        }
        assert(exponent_digits(t) =~= s@.subrange(e_start as int, end as int));
        let e_end = skip_digits(s, e_start, end);
        if e_end == e_start || e_end < end {
            return None;
        }
        assert(empty + s@.subrange(e_start as int, e_end as int) =~= exponent_digits(t));
        exp = digits_capped(s, e_start, e_end, 0, Ghost(empty), EXPONENT_CAP);
    }
    proof {
        if exp == EXPONENT_CAP && !exp_negative {
            assert(exponent(t) >= EXPONENT_CAP);
        }
    }
    Some(Parts { q, i_end, f_start, f_end, exp, exp_negative })
}

/// The sample of the token `s[start..end]`.
pub fn parse_token(s: &[u8], start: usize, end: usize) -> (r: Decimal)
    requires
        start <= end <= s.len(),
    ensures
        r == sample_of(s@.subrange(start as int, end as int)),
        r.is_sample(),
        !r.equals(NODATA as int),
{
    let ghost t = s@.subrange(start as int, end as int);
    let ghost empty = Seq::<u8>::empty();
    let zero = Decimal { mantissa: 0, frac_digits: 0 };
    proof {
        lemma_pow10_limits();
    }
    let negative = start < end && s[start] == MINUS;
    let parts = match scan_numeral(s, start, end) {
        Some(p) => p,
        None => {
            return zero;
        },
    };
    let Parts { q, i_end, f_start, f_end, exp, exp_negative } = parts;
    let ilen = i_end - q;
    let flen = f_end - f_start;
    let signed_exp: i128 = if exp_negative {
        -(exp as i128)
    } else {
        exp as i128
    };
    let sc: i128 = signed_exp - flen as i128;
    assert(exp < EXPONENT_CAP ==> sc == scale(t));
    assert(exp == EXPONENT_CAP && !exp_negative ==> scale(t) >= sc);
    assert(exp == EXPONENT_CAP && exp_negative ==> scale(t) <= sc);
    assert(digit_string(t) =~= s@.subrange(q as int, i_end as int) + s@.subrange(
        f_start as int,
        f_end as int,
    ));
    assert(empty + s@.subrange(q as int, i_end as int) =~= s@.subrange(q as int, i_end as int));
    let magnitude: u128;
    let frac: u32;
    if sc >= 0 {
        let d1 = digits_capped(s, q, i_end, 0, Ghost(empty), MAGNITUDE_CAP);
        let d = digits_capped(
            s,
            f_start,
            f_end,
            d1,
            Ghost(s@.subrange(q as int, i_end as int)),
            MAGNITUDE_CAP,
        );
        if d >= MAGNITUDE_CAP {
            proof {
                let dv = digits_value(digit_string(t));
                lemma_pow10_bound(0, scale(t) as nat);
                assert(dv * pow10(scale(t) as nat) >= dv) by (nonlinear_arith)
                    requires
                        dv >= 0,
                        pow10(scale(t) as nat) >= 1,
                ;
            }
            return zero;
        }
        if d == 0 {
            magnitude = 0;
        } else {
            proof {
                assert(digits_value(digit_string(t)) == d);
                if exp == EXPONENT_CAP {
                    assert(sc >= MAX_DIGITS);
                }
            }
            match raise(d, sc, Ghost(scale(t))) {
                Some(w) => {
                    magnitude = w;
                },
                None => {
                    return zero;
                },
            }
        }
        frac = 0;
    } else {
        let neg_scale = (-sc) as u128;
        let f: u128 = if neg_scale <= 18 {
            neg_scale
        } else {
            18
        };
        let dropped = neg_scale - f;
        let dlen = (ilen + flen) as u128;
        let keep_wide: u128 = if dlen > dropped {
            dlen - dropped
        } else {
            0
        };
        let keep = keep_wide as usize;
        assert(kept_digits(t) =~= digit_string(t).take(keep as int));
        let d = if keep <= ilen {
            assert(empty + s@.subrange(q as int, (q + keep) as int) =~= kept_digits(t));
            digits_capped(s, q, q + keep, 0, Ghost(empty), MAGNITUDE_CAP)
        } else {
            let d1 = digits_capped(s, q, i_end, 0, Ghost(empty), MAGNITUDE_CAP);
            assert(s@.subrange(q as int, i_end as int) + s@.subrange(
                f_start as int,
                (f_start + (keep - ilen)) as int,
            ) =~= kept_digits(t));
            digits_capped(
                s,
                f_start,
                f_start + (keep - ilen),
                d1,
                Ghost(s@.subrange(q as int, i_end as int)),
                MAGNITUDE_CAP,
            )
        };
        if d >= MAGNITUDE_CAP {
            return zero;
        }
        magnitude = d;
        frac = f as u32;
    }
    let m = magnitude as i64;
    let r = Decimal {
        mantissa: if negative {
            -m
        } else {
            m
        },
        frac_digits: frac,
    };
    assert(in_range(t));
    assert(r == numeral_value(t));
    if r.is_equal_to(NODATA) {
        zero
    } else {
        r
    }
}

} // verus!
