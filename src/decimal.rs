//! Exact decimal numbers: elevations in meters and vertex displacements.
use vstd::prelude::*;

verus! {

/// Ten raised to the power `n`.
pub open spec fn pow10(n: nat) -> int
    decreases n,
{
    if n == 0 {
        1
    } else {
        10 * pow10((n - 1) as nat)
    }
}

/// The most decimal digits a mantissa may hold.
pub const MAX_DIGITS: u32 = 18;

/// The most fraction digits a decimal value may carry.
pub const MAX_FRACTION_DIGITS: u32 = 20;

/// A decimal number, held exactly as `mantissa / 10^frac_digits`.
#[derive(Clone, Copy, Debug, PartialEq, Eq, Structural)]
pub struct Decimal {
    pub mantissa: i64,
    pub frac_digits: u32,
}

impl Decimal {
    /// The mantissa has at most eighteen digits and the fraction at most
    /// twenty.
    pub open spec fn wf(self) -> bool {
        -pow10(MAX_DIGITS as nat) < self.mantissa < pow10(MAX_DIGITS as nat)
            && self.frac_digits <= MAX_FRACTION_DIGITS
    }

    /// A value that a grid token can spell: well formed, with at most
    /// eighteen fraction digits.
    pub open spec fn is_sample(self) -> bool {
        self.wf() && self.frac_digits <= MAX_DIGITS
    }

    /// The denominator of the value.
    pub open spec fn den(self) -> int {
        pow10(self.frac_digits as nat)
    }

    /// The value is below the whole number `t`.
    pub open spec fn below(self, t: int) -> bool {
        self.mantissa < t * self.den()
    }

    /// The value equals the whole number `t`.
    pub open spec fn equals(self, t: int) -> bool {
        self.mantissa == t * self.den()
    }

    /// The value of `self` is at most the value of `o`.
    pub open spec fn at_most(self, o: Decimal) -> bool {
        self.mantissa * o.den() <= o.mantissa * self.den()
    }

    /// The value of `self` is below the value of `o`.
    pub open spec fn less(self, o: Decimal) -> bool {
        !o.at_most(self)
    }

    /// The number zero.
    pub fn zero() -> (r: Decimal)
        ensures
            r.wf(),
            r.mantissa == 0,
            r.frac_digits == 0,
    {
        proof {
            lemma_pow10_limits();
        }
        Decimal { mantissa: 0, frac_digits: 0 }
    }

    /// Whether the value is below the whole number `t`.
    pub fn is_below(&self, t: i64) -> (r: bool)
        requires
            self.wf(),
            -1000000000000000000 <= t <= 1000000000000000000,
        ensures
            r == self.below(t as int),
    {
        proof {
            lemma_pow10_bound(self.frac_digits as nat, MAX_FRACTION_DIGITS as nat);
            lemma_pow10_limits();
        }
        let d = pow10_exec(self.frac_digits);
        proof {
            lemma_bounded_product(
                t as int,
                d as int,
                pow10(MAX_DIGITS as nat),
                pow10(MAX_FRACTION_DIGITS as nat),
            );
        }
        (self.mantissa as i128) < (t as i128) * d
    }

    /// Whether the value equals the whole number `t`.
    pub fn is_equal_to(&self, t: i64) -> (r: bool)
        requires
            self.wf(),
            -1000000000000000000 <= t <= 1000000000000000000,
        ensures
            r == self.equals(t as int),
    {
        proof {
            lemma_pow10_bound(self.frac_digits as nat, MAX_FRACTION_DIGITS as nat);
            lemma_pow10_limits();
        }
        let d = pow10_exec(self.frac_digits);
        proof {
            lemma_bounded_product(
                t as int,
                d as int,
                pow10(MAX_DIGITS as nat),
                pow10(MAX_FRACTION_DIGITS as nat),
            );
        }
        (self.mantissa as i128) == (t as i128) * d
    }

    /// Whether the value of `self` is at most the value of `o`.
    pub fn is_at_most(&self, o: &Decimal) -> (r: bool)
        requires
            self.wf(),
            o.wf(),
        ensures
            r == self.at_most(*o),
    {
        proof {
            lemma_pow10_bound(self.frac_digits as nat, MAX_FRACTION_DIGITS as nat);
            lemma_pow10_bound(o.frac_digits as nat, MAX_FRACTION_DIGITS as nat);
        }
        let ds = pow10_exec(self.frac_digits);
        let dn = pow10_exec(o.frac_digits);
        proof {
            let m = pow10(MAX_DIGITS as nat);
            let f = pow10(MAX_FRACTION_DIGITS as nat);
            lemma_bounded_product(self.mantissa as int, dn as int, m, f);
            lemma_bounded_product(o.mantissa as int, ds as int, m, f);
        }
        (self.mantissa as i128) * dn <= (o.mantissa as i128) * ds
    }
}

/// Comparison of values: a value at most a second one that is below a third
/// is below the third; being below implies being at most.
pub proof fn lemma_order(a: Decimal, b: Decimal, c: Decimal)
    ensures
        a.at_most(b) && b.less(c) ==> a.less(c),
        a.less(b) ==> a.at_most(b),
        a.at_most(a),
{
    lemma_pow10_bound(a.frac_digits as nat, a.frac_digits as nat);
    lemma_pow10_bound(b.frac_digits as nat, b.frac_digits as nat);
    lemma_pow10_bound(c.frac_digits as nat, c.frac_digits as nat);
    let (am, bm, cm, ad, bd, cd) = (a.mantissa as int, b.mantissa as int, c.mantissa as int, a.den(), b.den(), c.den());
    if a.at_most(b) && b.less(c) {
        assert(am * cd < cm * ad) by (nonlinear_arith)
            requires
                am * bd <= bm * ad,
                bm * cd < cm * bd,
                ad > 0,
                bd > 0,
                cd > 0,
        ;
    }
}

/// Powers of ten grow with the exponent and are positive.
pub proof fn lemma_pow10_bound(a: nat, b: nat)
    requires
        a <= b,
    ensures
        0 < pow10(a) <= pow10(b),
    decreases b,
{
    if a < b {
        lemma_pow10_bound(a, (b - 1) as nat);
    } else if a > 0 {
        lemma_pow10_bound((a - 1) as nat, (a - 1) as nat);
    }
}

/// The values of the two largest powers of ten in use.
pub proof fn lemma_pow10_limits()
    ensures
        pow10(MAX_DIGITS as nat) == 1000000000000000000,
        pow10(MAX_FRACTION_DIGITS as nat) == 100000000000000000000,
{
    reveal_with_fuel(pow10, 21);
}

/// A product of two bounded factors stays well inside `i128`.
proof fn lemma_bounded_product(x: int, d: int, xb: int, db: int)
    requires
        -xb <= x <= xb,
        0 < d <= db,
        xb <= pow10(MAX_DIGITS as nat),
        db == pow10(MAX_FRACTION_DIGITS as nat),
    ensures
        -100000000000000000000000000000000000000 <= x * d <= 100000000000000000000000000000000000000,
{
    lemma_pow10_limits();
    assert(-xb * db <= x * d <= xb * db) by (nonlinear_arith)
        requires
            -xb <= x <= xb,
            0 < d <= db,
    ;
    assert(xb * db <= 1000000000000000000 * 100000000000000000000) by (nonlinear_arith)
        requires
            xb <= 1000000000000000000,
            db == 100000000000000000000,
            0 < db,
    ;
}

/// `10^n` as an `i128`.
pub fn pow10_exec(n: u32) -> (r: i128)
    requires
        n <= MAX_FRACTION_DIGITS,
    ensures
        r == pow10(n as nat),
{
    let mut r: i128 = 1;
    let mut i: u32 = 0;
    while i < n
        invariant
            i <= n <= MAX_FRACTION_DIGITS,
            r == pow10(i as nat),
        decreases n - i,
    {
        proof {
            lemma_pow10_bound((i + 1) as nat, MAX_FRACTION_DIGITS as nat);
            lemma_pow10_limits();
        }
        r = r * 10;
        i = i + 1;
    }
    r
}

} // verus!
