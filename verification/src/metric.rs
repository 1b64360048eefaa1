//! Real-valued readings: rates, watts, scores.
//!
//! A reading is an IEEE 754 double, held by its bit pattern. The library
//! orders readings and compares them with fixed levels; it does no arithmetic
//! on them. Where a result needs arithmetic, the caller hands the operation in
//! as a function.
use vstd::prelude::*;

verus! {

/// A reading, as the bit pattern of a double.
#[derive(Clone, Copy, PartialEq, Eq, Structural, Debug)]
pub struct Metric {
    /// Sign, exponent and fraction, as `to_bits` gives them.
    pub bits: u64,
}

/// The sign bit.
pub const SIGN: u64 = 0x8000_0000_0000_0000;

/// One in the place of the exponent: 2 to the power of 52.
pub const EXPONENT_ONE: u64 = 0x10_0000_0000_0000;

/// Exponent and fraction of infinity. Any magnitude above it is not a number.
pub const INFINITE: u64 = 0x7FF0_0000_0000_0000;

/// The double nearest to one tenth.
pub const TENTH: u64 = 0x3FB9_9999_9999_999A;

/// The number 1, counted in units of 2 to the power of -1074 (the smallest
/// positive double).
pub open spec fn one() -> int {
    vstd::arithmetic::power2::pow2(1074) as int
}

/// The number that a magnitude (exponent and fraction) stands for, counted in
/// units of 2 to the power of -1074. Infinity comes out as the number next
/// above the largest finite double.
#[verifier::opaque]
pub open spec fn units(magnitude: int) -> int {
    let exponent = magnitude / (EXPONENT_ONE as int);
    let fraction = magnitude % (EXPONENT_ONE as int);
    if exponent <= 0 {
        fraction
    } else {
        (EXPONENT_ONE + fraction) * vstd::arithmetic::power2::pow2((exponent - 1) as nat)
    }
}

impl Metric {
    /// Exponent and fraction.
    pub open spec fn magnitude(self) -> int {
        if self.bits >= SIGN {
            self.bits - SIGN
        } else {
            self.bits as int
        }
    }

    /// Whether this is a number at all.
    pub open spec fn is_number(self) -> bool {
        self.magnitude() <= INFINITE
    }

    /// Whether this is a finite number.
    pub open spec fn is_finite(self) -> bool {
        self.magnitude() < INFINITE
    }

    /// The number, counted in units of 2 to the power of -1074.
    pub open spec fn value(self) -> int {
        if self.bits >= SIGN {
            -units(self.magnitude())
        } else {
            units(self.magnitude())
        }
    }

    /// `self < other`. What is not a number is below nothing.
    pub open spec fn below(self, other: Metric) -> bool {
        self.is_number() && other.is_number() && self.value() < other.value()
    }

    /// `self >= other`. What is not a number is at least nothing.
    pub open spec fn at_least(self, other: Metric) -> bool {
        self.is_number() && other.is_number() && self.value() >= other.value()
    }

    /// `self >= n`.
    pub open spec fn at_least_whole(self, n: int) -> bool {
        self.is_number() && self.value() >= n * one()
    }

    /// Whether this is a zero, positive or negative.
    pub open spec fn is_zero(self) -> bool {
        self.is_number() && self.value() == 0
    }

    /// The number without its fraction, cut off at 0 and at the largest `u64`;
    /// 0 for what is not a number.
    pub open spec fn truncated(self) -> int {
        if !self.is_number() || self.value() <= 0 {
            0
        } else if self.value() / one() > u64::MAX {
            u64::MAX as int
        } else {
            self.value() / one()
        }
    }
}

/// A positive number in front of the units: how `units` reads.
proof fn lemma_pow2_step(e: nat)
    ensures
        vstd::arithmetic::power2::pow2(e) > 0,
        vstd::arithmetic::power2::pow2(e + 1) == 2 * vstd::arithmetic::power2::pow2(e),
{
    vstd::arithmetic::power2::lemma_pow2_pos(e);
    vstd::arithmetic::power2::lemma_pow2_unfold(e + 1);
}

/// Powers of two grow.
proof fn lemma_pow2_grows(a: nat, b: nat)
    requires
        a <= b,
    ensures
        vstd::arithmetic::power2::pow2(a) <= vstd::arithmetic::power2::pow2(b),
{
    if a < b {
        vstd::arithmetic::power2::lemma_pow2_strictly_increases(a, b);
    }
}

/// Bounds on the units of a magnitude, by its exponent.
proof fn lemma_units_bounds(m: int)
    requires
        0 <= m,
    ensures
        ({
            let e = m / (EXPONENT_ONE as int);
            &&& 0 <= units(m) < EXPONENT_ONE * vstd::arithmetic::power2::pow2(e as nat)
            &&& e > 0 ==> units(m) >= EXPONENT_ONE * vstd::arithmetic::power2::pow2((e - 1) as nat)
        }),
{
    reveal(units);
    let e = m / (EXPONENT_ONE as int);
    let f = m % (EXPONENT_ONE as int);
    if e == 0 {
        vstd::arithmetic::power2::lemma2_to64();
    } else {
        let p = vstd::arithmetic::power2::pow2((e - 1) as nat) as int;
        lemma_pow2_step((e - 1) as nat);
        let h = EXPONENT_ONE as int;
        assert(h * p <= (h + f) * p < h * (2 * p)) by (nonlinear_arith)
            requires
                0 <= f < h,
                p > 0,
        ;
    }
}

/// A larger magnitude stands for a larger number.
pub proof fn lemma_units_grow(a: int, b: int)
    requires
        0 <= a < b,
    ensures
        units(a) < units(b),
{
    let h = EXPONENT_ONE as int;
    let ea = a / h;
    let eb = b / h;
    lemma_units_bounds(a);
    lemma_units_bounds(b);
    if ea == eb {
        reveal(units);
        if ea > 0 {
            let p = vstd::arithmetic::power2::pow2((ea - 1) as nat) as int;
            lemma_pow2_step((ea - 1) as nat);
            let fa = a % h;
            let fb = b % h;
            assert((h + fa) * p < (h + fb) * p) by (nonlinear_arith)
                requires
                    fa < fb,
                    p > 0,
            ;
        }
    } else {
        assert(ea < eb);
        lemma_pow2_grows(ea as nat, (eb - 1) as nat);
        let pa = vstd::arithmetic::power2::pow2(ea as nat) as int;
        let pb = vstd::arithmetic::power2::pow2((eb - 1) as nat) as int;
        assert(h * pa <= h * pb) by (nonlinear_arith)
            requires
                pa <= pb,
                h > 0,
        ;
    }
}

/// The number 0.
proof fn lemma_units_zero()
    ensures
        units(0) == 0,
{
    reveal(units);
}

/// The reading 0 has the value 0.
pub proof fn lemma_zero_value()
    ensures
        (Metric { bits: 0 }).is_number(),
        (Metric { bits: 0 }).value() == 0,
{
    lemma_units_zero();
}

impl Metric {
    /// The signed magnitude: an integer that orders numbers as their values do.
    pub open spec fn key(self) -> int {
        if self.bits >= SIGN {
            -self.magnitude()
        } else {
            self.magnitude()
        }
    }

    /// Numbers are ordered as their signed magnitudes are.
    pub proof fn law_key_orders(self, other: Metric)
        ensures
            self.key() < other.key() <==> self.value() < other.value(),
            self.key() == other.key() <==> self.value() == other.value(),
    {
        lemma_units_zero();
        let a = self.magnitude();
        let b = other.magnitude();
        if a < b {
            lemma_units_grow(a, b);
        }
        if b < a {
            lemma_units_grow(b, a);
        }
        if 0 < a {
            lemma_units_grow(0, a);
        }
        if 0 < b {
            lemma_units_grow(0, b);
        }
    }

    /// The reading 0.
    pub fn zero() -> (r: Metric)
        ensures
            r == (Metric { bits: 0 }),
            r.is_zero(),
    {
        proof {
            lemma_units_zero();
        }
        Metric { bits: 0 }
    }

    /// Exponent and fraction.
    fn get_magnitude(self) -> (r: u64)
        ensures
            r == self.magnitude(),
    {
        if self.bits >= SIGN {
            self.bits - SIGN
        } else {
            self.bits
        }
    }

    /// Whether this is a number at all.
    pub fn number(self) -> (r: bool)
        ensures
            r == self.is_number(),
    {
        self.get_magnitude() <= INFINITE
    }

    /// Whether `self < other`.
    pub fn less(self, other: Metric) -> (r: bool)
        ensures
            r == self.below(other),
    {
        proof {
            self.law_key_orders(other);
        }
        if !self.number() || !other.number() {
            return false;
        }
        let a = self.get_magnitude();
        let b = other.get_magnitude();
        if self.bits >= SIGN {
            if other.bits >= SIGN {
                a > b
            } else {
                a > 0 || b > 0
            }
        } else {
            other.bits < SIGN && a < b
        }
    }

    /// Whether `self >= other`.
    pub fn reaches(self, other: Metric) -> (r: bool)
        ensures
            r == self.at_least(other),
    {
        self.number() && other.number() && !self.less(other)
    }

    /// Whether this is a zero, positive or negative.
    pub fn zeroed(self) -> (r: bool)
        ensures
            r == self.is_zero(),
    {
        proof {
            lemma_units_zero();
            if self.magnitude() > 0 {
                lemma_units_grow(0, self.magnitude());
            }
        }
        self.get_magnitude() == 0
    }
}

/// The double for a small whole number: its leading bit `top` in front, the
/// rest as the fraction.
proof fn lemma_whole(n: int, e: int, top: int, unit: int, bits: u64)
    requires
        0 <= e <= 7,
        0 < top <= n < 2 * top,
        top * unit == EXPONENT_ONE,
        unit == vstd::arithmetic::power2::pow2((52 - e) as nat),
        bits == (1023 + e) * EXPONENT_ONE + (n - top) * unit,
    ensures
        (Metric { bits }).is_number(),
        (Metric { bits }).value() == n * one(),
{
    let h = EXPONENT_ONE as int;
    let f = (n - top) * unit;
    vstd::arithmetic::power2::lemma_pow2_pos((52 - e) as nat);
    assert(0 <= f < h) by (nonlinear_arith)
        requires
            0 < top <= n < 2 * top,
            top * unit == h,
            unit > 0,
            f == (n - top) * unit,
            h > 0,
    ;
    vstd::arithmetic::div_mod::lemma_fundamental_div_mod_converse(bits as int, h, 1023 + e, f);
    reveal(units);
    let p = vstd::arithmetic::power2::pow2((1022 + e) as nat) as int;
    vstd::arithmetic::power2::lemma_pow2_adds((52 - e) as nat, (1022 + e) as nat);
    assert((h + f) * p == n * (unit * p)) by (nonlinear_arith)
        requires
            f == (n - top) * unit,
            top * unit == h,
    ;
}

impl Metric {
    /// The reading `n`.
    pub fn whole(n: u8) -> (r: Metric)
        ensures
            r.is_number(),
            r.value() == n * one(),
    {
        if n == 0 {
            proof {
                assert(0 * one() == 0);
            }
            return Metric::zero();
        }
        let (e, top, unit): (u64, u64, u64) = if n < 2 {
            (0, 1, 0x10_0000_0000_0000)
        } else if n < 4 {
            (1, 2, 0x8_0000_0000_0000)
        } else if n < 8 {
            (2, 4, 0x4_0000_0000_0000)
        } else if n < 16 {
            (3, 8, 0x2_0000_0000_0000)
        } else if n < 32 {
            (4, 16, 0x1_0000_0000_0000)
        } else if n < 64 {
            (5, 32, 0x8000_0000_0000)
        } else if n < 128 {
            (6, 64, 0x4000_0000_0000)
        } else {
            (7, 128, 0x2000_0000_0000)
        };
        assert(top * unit == EXPONENT_ONE);
        assert((n - top) * unit < EXPONENT_ONE) by (nonlinear_arith)
            requires
                0 < top <= n < 2 * top,
                top * unit == EXPONENT_ONE,
                unit > 0,
        ;
        let bits: u64 = (1023 + e) * EXPONENT_ONE + (n as u64 - top) * unit;
        proof {
            vstd::arithmetic::power2::lemma2_to64_rest();
            lemma_whole(n as int, e as int, top as int, unit as int, bits);
        }
        Metric { bits }
    }

    /// Whether `self >= n`.
    pub fn reaches_whole(self, n: u8) -> (r: bool)
        ensures
            r == self.at_least_whole(n as int),
    {
        self.reaches(Metric::whole(n))
    }

    /// The number without its fraction, cut off at 0 and at the largest `u64`;
    /// 0 for what is not a number.
    pub fn count(self) -> (r: u64)
        ensures
            r == self.truncated(),
    {
        let m = self.get_magnitude();
        proof {
            lemma_units_zero();
            lemma_units_bounds(m as int);
            if m > 0 {
                lemma_units_grow(0, m as int);
            }
            lemma_pow2_step(1074);
        }
        if !self.number() || self.bits >= SIGN || m == 0 {
            return 0;
        }
        let exponent: u64 = m / EXPONENT_ONE;
        let fraction: u64 = m % EXPONENT_ONE;
        let ghost h = EXPONENT_ONE as int;
        proof {
            vstd::arithmetic::power2::lemma2_to64();
            vstd::arithmetic::power2::lemma2_to64_rest();
        }
        if exponent < 1023 {
            proof {
                lemma_pow2_grows(exponent as nat, 1022);
                vstd::arithmetic::power2::lemma_pow2_adds(52, 1022);
                let p = vstd::arithmetic::power2::pow2(exponent as nat) as int;
                let q = vstd::arithmetic::power2::pow2(1022) as int;
                assert(h * p <= h * q) by (nonlinear_arith)
                    requires
                        p <= q,
                        h > 0,
                ;
                vstd::arithmetic::div_mod::lemma_basic_div(self.value(), one());
            }
            return 0;
        }
        if exponent >= 1087 {
            proof {
                lemma_pow2_grows(1086, (exponent - 1) as nat);
                vstd::arithmetic::power2::lemma_pow2_adds(52, 1086);
                vstd::arithmetic::power2::lemma_pow2_adds(64, 1074);
                let p = vstd::arithmetic::power2::pow2(1086) as int;
                let q = vstd::arithmetic::power2::pow2((exponent - 1) as nat) as int;
                assert(h * p <= h * q) by (nonlinear_arith)
                    requires
                        p <= q,
                        h > 0,
                ;
                let w = vstd::arithmetic::power2::pow2(64) as int;
                assert(self.value() >= w * one());
                vstd::arithmetic::div_mod::lemma_div_is_ordered(
                    w * one(),
                    self.value(),
                    one(),
                );
                vstd::arithmetic::div_mod::lemma_div_by_multiple(w, one());
            }
            return u64::MAX;
        }
        let mantissa: u64 = EXPONENT_ONE + fraction;
        let e: u64 = exponent - 1023;
        proof {
            reveal(units);
            assert(self.value() == mantissa * vstd::arithmetic::power2::pow2((e + 1022) as nat));
        }
        if e <= 52 {
            let shift: u64 = 52 - e;
            proof {
                let x = mantissa as int;
                let d = vstd::arithmetic::power2::pow2(shift as nat) as int;
                let q = vstd::arithmetic::power2::pow2((e + 1022) as nat) as int;
                lemma_pow2_step(shift as nat);
                lemma_pow2_step((e + 1022) as nat);
                vstd::arithmetic::power2::lemma_pow2_adds((e + 1022) as nat, shift as nat);
                assert(one() == q * d);
                assert(x * q >= 0) by (nonlinear_arith)
                    requires
                        x >= 0,
                        q > 0,
                ;
                vstd::arithmetic::div_mod::lemma_div_denominator(x * q, q, d);
                vstd::arithmetic::div_mod::lemma_div_by_multiple(x, q);
                vstd::bits::lemma_u64_shr_is_div(mantissa, shift);
                assert(self.value() / one() == x / d);
                vstd::arithmetic::div_mod::lemma_div_pos_is_pos(x, d);
                vstd::arithmetic::div_mod::lemma_div_nonincreasing(x, d);
            }
            mantissa >> shift
        } else {
            let shift: u64 = e - 52;
            proof {
                let x = mantissa as int;
                let d = vstd::arithmetic::power2::pow2(shift as nat) as int;
                lemma_pow2_grows(shift as nat, 11);
                vstd::arithmetic::power2::lemma_pow2_adds(shift as nat, 1074);
                assert(x * d <= u64::MAX) by (nonlinear_arith)
                    requires
                        0 <= x < 0x20_0000_0000_0000,
                        0 <= d <= 2048,
                ;
                assert(x * (d * one()) == (x * d) * one()) by (nonlinear_arith);
                assert(x * d >= 0) by (nonlinear_arith)
                    requires
                        x >= 0,
                        d >= 0,
                ;
                vstd::arithmetic::div_mod::lemma_div_by_multiple(x * d, one());
                vstd::bits::lemma_u64_shl_is_mul(mantissa, shift);
            }
            mantissa << shift
        }
    }
}

// ---------------------------------------------------------------------------
// Operations that callers hand in
// ---------------------------------------------------------------------------

/// Whether `f` reads texts as the function `g` does.
pub open spec fn reads<F: Fn(&str) -> Option<Metric>>(
    f: F,
    g: spec_fn(Seq<char>) -> Option<Metric>,
) -> bool {
    forall|t: &str, r: Option<Metric>| #[trigger] call_ensures(f, (t,), r) ==> r == g(t@)
}

/// Whether `f` writes readings as the function `g` does.
pub open spec fn shows<F: Fn(Metric) -> String>(f: F, g: spec_fn(Metric) -> Seq<char>) -> bool {
    forall|m: Metric, r: String| #[trigger] call_ensures(f, (m,), r) ==> r@ == g(m)
}

/// Whether `f` combines two readings as the function `g` does.
pub open spec fn combines<F: Fn(Metric, Metric) -> Metric>(
    f: F,
    g: spec_fn(Metric, Metric) -> Metric,
) -> bool {
    forall|a: Metric, b: Metric, r: Metric| #[trigger]
        call_ensures(f, (a, b), r) ==> r == g(a, b)
}

/// Whether `f` combines three readings as the function `g` does.
pub open spec fn combines_three<F: Fn(Metric, Metric, Metric) -> Metric>(
    f: F,
    g: spec_fn(Metric, Metric, Metric) -> Metric,
) -> bool {
    forall|a: Metric, b: Metric, c: Metric, r: Metric| #[trigger]
        call_ensures(f, (a, b, c), r) ==> r == g(a, b, c)
}

impl Metric {
    /// Two numbers compare as their values do. What is not a number compares
    /// with nothing.
    pub proof fn law_numbers_compare_by_value(self, other: Metric)
        ensures
            self.is_number() && other.is_number() ==> {
                &&& self.below(other) <==> self.value() < other.value()
                &&& self.at_least(other) <==> self.value() >= other.value()
            },
            !self.is_number() || !other.is_number() ==> !self.below(other) && !self.at_least(other),
    {
    }

    /// A reading stands at least at a whole number where its value is as large.
    pub proof fn law_whole_numbers_compare_by_value(self, n: int)
        ensures
            self.is_number() ==> (self.at_least_whole(n) <==> self.value() >= n * one()),
            !self.is_number() ==> !self.at_least_whole(n),
            self.is_zero() <==> self.is_number() && self.value() == 0,
    {
    }

    /// The sign changes the value alone, and only what is past infinity is not
    /// a number.
    pub proof fn law_sign_turns_the_value(self, other: Metric)
        requires
            self.bits < 0x8000_0000_0000_0000,
            other.bits == self.bits + 0x8000_0000_0000_0000,
        ensures
            self.value() >= 0,
            other.value() == -self.value(),
            self.is_number() <==> other.is_number(),
            self.is_finite() <==> other.is_finite(),
            self.is_number() <==> self.bits <= 0x7FF0_0000_0000_0000,
            self.is_finite() <==> self.bits < 0x7FF0_0000_0000_0000,
    {
        lemma_units_zero();
        if self.magnitude() > 0 {
            lemma_units_grow(0, self.magnitude());
        }
    }

    /// Cutting the fraction off leaves the largest whole number that is not
    /// above the reading; nothing is below 0 or above the largest `u64`.
    pub proof fn law_truncation_rounds_down(self)
        ensures
            0 <= self.truncated() <= u64::MAX,
            !self.is_number() || self.value() <= 0 ==> self.truncated() == 0,
            self.is_number() && 0 <= self.value() < (u64::MAX + 1) * one() ==> self.truncated()
                * one() <= self.value() < (self.truncated() + 1) * one(),
            self.is_number() && self.value() >= (u64::MAX + 1) * one() ==> self.truncated()
                == u64::MAX,
    {
        vstd::arithmetic::power2::lemma_pow2_pos(1074);
        let v = self.value();
        let o = one();
        let q = v / o;
        assert(q * o <= v < (q + 1) * o) by (nonlinear_arith)
            requires
                q == v / o,
                o > 0,
        ;
        let m = u64::MAX as int;
        if 0 <= v < (m + 1) * o {
            assert(q <= m) by (nonlinear_arith)
                requires
                    q * o <= v,
                    v < (m + 1) * o,
                    o > 0,
            ;
        }
        if v >= (m + 1) * o {
            assert(q >= m + 1) by (nonlinear_arith)
                requires
                    v >= (m + 1) * o,
                    v < (q + 1) * o,
                    o > 0,
            ;
        }
        if v == 0 {
            assert(0 * o == 0) by (nonlinear_arith);
        }
        if v > 0 {
            assert(q >= 0) by (nonlinear_arith)
                requires
                    v > 0,
                    v < (q + 1) * o,
                    o > 0,
            ;
        }
    }
}

} // verus!
