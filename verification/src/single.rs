//! Single-precision floating-point numbers, held by their bit patterns.

use crate::rounding::{
    distance, exponent_of, law_magnitude_is_not_rounded, law_only_the_too_large_overflows,
    law_rounding_is_closest, law_rounding_is_monotone, law_rounding_ties_to_even,
    law_worth_increases,
    lemma_absorbed, lemma_nearest_exact, lemma_nearest_scale, lemma_nearest_zero, lemma_parts,
    lemma_product_scaled, nearest, round_scaled, significand_of, worth, BINADE, INFINITE,
};
use vstd::arithmetic::div_mod::*;
use vstd::arithmetic::power2::*;
use vstd::prelude::*;

verus! {

/// The weight of the sign bit.
pub const SIGN_BIT: u32 = 0x8000_0000;

/// A single-precision number in the IEEE 754 binary32 interchange format.
///
/// `==` compares bit patterns, so it tells the two zeros apart and finds a NaN
/// equal to itself. The numeric comparisons are the methods below.
#[derive(Clone, Copy, Debug, Default, PartialEq, Eq, Structural)]
pub struct Single {
    pub bits: u32,
}

impl Single {
    /// Whether the sign bit is set.
    pub open spec fn negative(self) -> bool {
        self.bits >= SIGN_BIT
    }

    /// The bit pattern without its sign.
    pub open spec fn magnitude(self) -> nat {
        if self.negative() {
            (self.bits - SIGN_BIT) as nat
        } else {
            self.bits as nat
        }
    }

    /// Whether this is not a number.
    pub open spec fn nan(self) -> bool {
        self.magnitude() > INFINITE
    }

    /// Whether this is one of the two infinities.
    pub open spec fn infinite(self) -> bool {
        self.magnitude() == INFINITE
    }

    /// Whether this is a number and not infinite.
    pub open spec fn finite(self) -> bool {
        self.magnitude() < INFINITE
    }

    /// The place of a number in the numeric order; the two zeros share one.
    pub open spec fn rank(self) -> int {
        if self.negative() {
            -(self.magnitude() as int)
        } else {
            self.magnitude() as int
        }
    }

    /// What a finite number is worth, in multiples of the least positive number.
    pub open spec fn value(self) -> int {
        if self.negative() {
            -(worth(self.magnitude()) as int)
        } else {
            worth(self.magnitude()) as int
        }
    }

    /// The number with the given sign and magnitude.
    pub open spec fn signed(negative: bool, magnitude: nat) -> Single {
        Single {
            bits: if negative {
                (SIGN_BIT + magnitude) as u32
            } else {
                magnitude as u32
            },
        }
    }

    /// The quiet NaN that stands for every undefined result.
    pub open spec fn undefined() -> Single {
        Single { bits: 0x7fc0_0000 }
    }

    /// The number `n`.
    pub open spec fn whole(n: int) -> Single {
        if n < 0 {
            Single::signed(true, nearest((-n) as nat * pow2(149), 1))
        } else {
            Single::signed(false, nearest(n as nat * pow2(149), 1))
        }
    }

    /// The number with the opposite sign.
    pub open spec fn negation(self) -> Single {
        Single::signed(!self.negative(), self.magnitude())
    }

    /// `a <= b`; false where either is not a number.
    pub open spec fn at_most(a: Single, b: Single) -> bool {
        !a.nan() && !b.nan() && a.rank() <= b.rank()
    }

    /// `a < b`; false where either is not a number.
    pub open spec fn below(a: Single, b: Single) -> bool {
        !a.nan() && !b.nan() && a.rank() < b.rank()
    }

    /// The smaller of two numbers; the other one where one is not a number.
    pub open spec fn least(a: Single, b: Single) -> Single {
        if a.nan() || Single::below(b, a) {
            b
        } else {
            a
        }
    }

    /// The larger of two numbers; the other one where one is not a number.
    pub open spec fn greatest(a: Single, b: Single) -> Single {
        if a.nan() || Single::below(a, b) {
            b
        } else {
            a
        }
    }

    /// `a + b`, correctly rounded.
    pub open spec fn sum(a: Single, b: Single) -> Single {
        if a.nan() || b.nan() {
            Single::undefined()
        } else if a.infinite() {
            if b.infinite() && a.negative() != b.negative() {
                Single::undefined()
            } else {
                a
            }
        } else if b.infinite() {
            b
        } else {
            let v: int = a.value() + b.value();
            if v == 0 {
                Single::signed(a.negative() && b.negative(), 0)
            } else if v < 0 {
                Single::signed(true, nearest((-v) as nat, 1))
            } else {
                Single::signed(false, nearest(v as nat, 1))
            }
        }
    }

    /// `a - b`, correctly rounded.
    pub open spec fn difference(a: Single, b: Single) -> Single {
        Single::sum(a, b.negation())
    }

    /// `a * b`, correctly rounded.
    pub open spec fn product(a: Single, b: Single) -> Single {
        let negative = a.negative() != b.negative();
        if a.nan() || b.nan() {
            Single::undefined()
        } else if a.infinite() || b.infinite() {
            if a.magnitude() == 0 || b.magnitude() == 0 {
                Single::undefined()
            } else {
                Single::signed(negative, INFINITE as nat)
            }
        } else {
            Single::signed(
                negative,
                nearest(worth(a.magnitude()) * worth(b.magnitude()), pow2(149)),
            )
        }
    }
}

impl Single {
    /// The exponent and the significand.
    fn parts(self) -> (parts: (u32, u32))
        requires
            self.finite(),
        ensures
            parts.0 == exponent_of(self.magnitude()),
            parts.1 == significand_of(self.magnitude()),
            parts.0 <= 253,
            parts.1 < 2 * BINADE,
            parts.0 > 0 ==> parts.1 >= BINADE,
    {
        let magnitude: u32 = self.abs();
        proof {
            lemma_parts(magnitude as nat);
        }
        if magnitude < BINADE {
            (0, magnitude)
        } else {
            let exponent: u32 = magnitude / BINADE - 1;
            (exponent, magnitude - exponent * BINADE)
        }
    }

    /// The bit pattern without its sign.
    fn abs(self) -> (magnitude: u32)
        ensures
            magnitude == self.magnitude(),
    {
        if self.bits >= SIGN_BIT {
            self.bits - SIGN_BIT
        } else {
            self.bits
        }
    }

    /// The number with the given sign and magnitude.
    fn with_sign(negative: bool, magnitude: u32) -> (number: Single)
        requires
            magnitude < SIGN_BIT,
        ensures
            number == Single::signed(negative, magnitude as nat),
    {
        if negative {
            Single { bits: SIGN_BIT + magnitude }
        } else {
            Single { bits: magnitude }
        }
    }

    /// Whether the number is negative or a negative zero.
    pub fn is_negative(self) -> (negative: bool)
        ensures
            negative == self.negative(),
    {
        self.bits >= SIGN_BIT
    }

    /// Whether this is not a number.
    pub fn is_nan(self) -> (nan: bool)
        ensures
            nan == self.nan(),
    {
        self.abs() > INFINITE
    }

    /// `-self`.
    pub fn negate(self) -> (number: Single)
        ensures
            number == self.negation(),
    {
        Single::with_sign(!self.is_negative(), self.abs())
    }

    /// `self <= other`.
    pub fn le(self, other: Single) -> (holds: bool)
        ensures
            holds == Single::at_most(self, other),
    {
        if self.is_nan() || other.is_nan() {
            return false;
        }
        let a: u32 = self.abs();
        let b: u32 = other.abs();
        if self.is_negative() {
            if other.is_negative() {
                b <= a
            } else {
                true
            }
        } else if other.is_negative() {
            a == 0 && b == 0
        } else {
            a <= b
        }
    }

    /// `self < other`.
    pub fn lt(self, other: Single) -> (holds: bool)
        ensures
            holds == Single::below(self, other),
    {
        !self.is_nan() && !other.is_nan() && !other.le(self)
    }

    /// `self == other` as numbers: the two zeros are equal, and a NaN equals nothing.
    pub fn equals(self, other: Single) -> (holds: bool)
        ensures
            holds == (Single::at_most(self, other) && Single::at_most(other, self)),
    {
        self.le(other) && other.le(self)
    }

    /// The smaller of the two; the other one where one is not a number.
    pub fn min(self, other: Single) -> (number: Single)
        ensures
            number == Single::least(self, other),
    {
        if self.is_nan() || other.lt(self) {
            other
        } else {
            self
        }
    }

    /// The larger of the two; the other one where one is not a number.
    pub fn max(self, other: Single) -> (number: Single)
        ensures
            number == Single::greatest(self, other),
    {
        if self.is_nan() || self.lt(other) {
            other
        } else {
            self
        }
    }

    /// `self + other`.
    pub fn plus(self, other: Single) -> (number: Single)
        ensures
            number == Single::sum(self, other),
    {
        let a: u32 = self.abs();
        let b: u32 = other.abs();
        if a > INFINITE || b > INFINITE {
            return Single { bits: 0x7fc0_0000 };
        }
        if a == INFINITE {
            if b == INFINITE && self.is_negative() != other.is_negative() {
                return Single { bits: 0x7fc0_0000 };
            }
            return self;
        }
        if b == INFINITE {
            return other;
        }
        let (ea, _) = self.parts();
        let (eb, _) = other.parts();
        if ea >= eb {
            self.plus_smaller(other)
        } else {
            other.plus_smaller(self)
        }
    }

    /// `self + other`, where `other` does not have the larger exponent.
    fn plus_smaller(self, other: Single) -> (number: Single)
        requires
            self.finite(),
            other.finite(),
            exponent_of(self.magnitude()) >= exponent_of(other.magnitude()),
        ensures
            number == Single::sum(self, other),
    {
        let (ea, ma) = self.parts();
        let (eb, mb) = other.parts();
        let gap: u32 = ea - eb;
        proof {
            lemma_parts(self.magnitude());
            lemma_parts(other.magnitude());
        }
        if gap >= 26 {
            proof {
                lemma_absorbed_sum(self, other);
            }
            return self;
        }
        proof {
            lemma2_to64();
            lemma_pow2_pos(gap as nat);
            if gap < 25 {
                lemma_pow2_strictly_increases(gap as nat, 25);
            }
            assert(ma * pow2(gap as nat) <= 0x1000000 * 0x2000000) by (nonlinear_arith)
                requires
                    ma <= 0x1000000,
                    0 < pow2(gap as nat) <= 0x2000000,
            ;
            vstd::bits::lemma_u64_shl_is_mul(ma as u64, gap as u64);
        }
        let wide: u64 = (ma as u64) << gap;
        let x: i64 = if self.is_negative() {
            -(wide as i64)
        } else {
            wide as i64
        };
        let y: i64 = if other.is_negative() {
            -(mb as i64)
        } else {
            mb as i64
        };
        let total: i64 = x + y;
        proof {
            let p: int = pow2(eb as nat) as int;
            lemma_pow2_pos(eb as nat);
            lemma_pow2_adds(gap as nat, eb as nat);
            assert(ma * pow2(ea as nat) == wide * p) by (nonlinear_arith)
                requires
                    pow2(ea as nat) == pow2(gap as nat) * p,
                    wide == ma * pow2(gap as nat),
            ;
            assert(self.value() == x * p) by (nonlinear_arith)
                requires
                    self.value() == wide * p && x == wide || self.value() == -(wide * p) && x == -wide,
            ;
            assert(other.value() == y * p) by (nonlinear_arith)
                requires
                    other.value() == mb * p && y == mb || other.value() == -(mb * p) && y == -mb,
            ;
            assert(self.value() + other.value() == total * p) by (nonlinear_arith)
                requires
                    self.value() == x * p,
                    other.value() == y * p,
                    total == x + y,
            ;
            assert(total * p == 0 <==> total == 0) by (nonlinear_arith)
                requires
                    p > 0,
            ;
            assert(total * p < 0 <==> total < 0) by (nonlinear_arith)
                requires
                    p > 0,
            ;
            assert(-(total * p) == (-total) * p) by (nonlinear_arith);
        }
        if total == 0 {
            Single::with_sign(self.is_negative() && other.is_negative(), 0)
        } else if total < 0 {
            let magnitude: u32 = round_scaled((-total) as u64, eb as i32);
            Single::with_sign(true, magnitude)
        } else {
            let magnitude: u32 = round_scaled(total as u64, eb as i32);
            Single::with_sign(false, magnitude)
        }
    }

    /// `self - other`.
    pub fn minus(self, other: Single) -> (number: Single)
        ensures
            number == Single::difference(self, other),
    {
        self.plus(other.negate())
    }

    /// `self * other`.
    pub fn times(self, other: Single) -> (number: Single)
        ensures
            number == Single::product(self, other),
    {
        let negative: bool = self.is_negative() != other.is_negative();
        let a: u32 = self.abs();
        let b: u32 = other.abs();
        if a > INFINITE || b > INFINITE {
            return Single { bits: 0x7fc0_0000 };
        }
        if a == INFINITE || b == INFINITE {
            if a == 0 || b == 0 {
                return Single { bits: 0x7fc0_0000 };
            }
            return Single::with_sign(negative, INFINITE);
        }
        let (ea, ma) = self.parts();
        let (eb, mb) = other.parts();
        proof {
            assert(ma * mb <= 0x1000000 * 0x1000000) by (nonlinear_arith)
                requires
                    0 <= ma <= 0x1000000,
                    0 <= mb <= 0x1000000,
            ;
            assert(ma * mb >= 0) by (nonlinear_arith);
        }
        let n: u64 = ma as u64 * mb as u64;
        let x: i32 = ea as i32 + eb as i32 - 149;
        proof {
            lemma_product_scaled(ma as nat, ea as nat, mb as nat, eb as nat);
        }
        Single::with_sign(negative, round_scaled(n, x))
    }
}

proof fn lemma_absorbed_sum(a: Single, b: Single)
    requires
        a.finite(),
        b.finite(),
        exponent_of(a.magnitude()) >= exponent_of(b.magnitude()) + 26,
    ensures
        Single::sum(a, b) == a,
{
    let e: nat = exponent_of(a.magnitude());
    let m: nat = significand_of(a.magnitude());
    let f: nat = exponent_of(b.magnitude());
    let w: nat = worth(b.magnitude());
    lemma_parts(a.magnitude());
    lemma_parts(b.magnitude());
    lemma2_to64();
    lemma_pow2_pos(f);
    lemma_pow2_pos(e);
    lemma_pow2_adds(24, f);
    if 24 + f < e - 2 {
        lemma_pow2_strictly_increases(24 + f, (e - 2) as nat);
    }
    assert(w < pow2(24) * pow2(f)) by (nonlinear_arith)
        requires
            w == significand_of(b.magnitude()) * pow2(f),
            significand_of(b.magnitude()) < 2 * BINADE,
            pow2(24) == 2 * BINADE,
            pow2(f) > 0,
    ;
    lemma_absorbed(m, e, w);
    assert(m * pow2(e) > w) by {
        lemma_pow2_strictly_increases((e - 2) as nat, e);
        assert(m * pow2(e) >= pow2(e)) by (nonlinear_arith)
            requires
                m >= BINADE,
        ;
    }
}

/// Finite numbers are ordered as what they are worth.
pub proof fn law_order_is_numeric(a: Single, b: Single)
    requires
        a.finite(),
        b.finite(),
    ensures
        Single::at_most(a, b) <==> a.value() <= b.value(),
        Single::below(a, b) <==> a.value() < b.value(),
{
    lemma_parts(0);
    if a.magnitude() < b.magnitude() {
        law_worth_increases(a.magnitude(), b.magnitude());
    }
    if b.magnitude() < a.magnitude() {
        law_worth_increases(b.magnitude(), a.magnitude());
    }
    if a.magnitude() > 0 {
        law_worth_increases(0, a.magnitude());
    }
    if b.magnitude() > 0 {
        law_worth_increases(0, b.magnitude());
    }
}

/// A sum is exact where it lies on a grid that is no finer than its last place:
/// numbers that are multiples of `2^k`, and whose sum is at most `2^24` of them.
pub proof fn law_sum_on_grid_is_exact(a: Single, b: Single, k: nat)
    requires
        a.finite(),
        b.finite(),
        k <= 252,
        a.value() % (pow2(k) as int) == 0,
        b.value() % (pow2(k) as int) == 0,
        -(2 * BINADE * pow2(k)) <= a.value() + b.value() <= 2 * BINADE * pow2(k),
    ensures
        Single::sum(a, b).finite(),
        Single::sum(a, b).value() == a.value() + b.value(),
{
    let v: int = a.value() + b.value();
    let p: int = pow2(k) as int;
    lemma_pow2_pos(k);
    lemma_parts(0);
    lemma_mod_adds(a.value(), b.value(), p);
    lemma_small_mod(0, p as nat);
    lemma_fundamental_div_mod(0, p);
    if v == 0 {
        assert(worth(0) == 0) by (nonlinear_arith)
            requires
                worth(0) == significand_of(0) * pow2(exponent_of(0)),
                significand_of(0) == 0,
        ;
    } else {
        let n: nat = if v < 0 {
            (-v) as nat
        } else {
            v as nat
        };
        let c: nat = n / (p as nat);
        lemma_fundamental_div_mod(v, p);
        lemma_fundamental_div_mod(n as int, p);
        assert(n % (p as nat) == 0) by {
            if v < 0 {
                let t: int = v / p;
                assert(n as int == p * (-t)) by (nonlinear_arith)
                    requires
                        v == p * t,
                        n as int == -v,
                ;
                lemma_mod_multiples_basic(-t, p);
                assert(p * (-t) == (-t) * p) by (nonlinear_arith);
            }
        }
        lemma_nearest_exact(c, k, n);
    }
}

/// A finite number other than zero is known by what it is worth.
pub proof fn law_value_identifies(a: Single, b: Single)
    requires
        a.finite(),
        b.finite(),
        a.value() == b.value(),
        a.value() != 0,
    ensures
        a == b,
{
    law_order_is_numeric(a, b);
    law_order_is_numeric(b, a);
    if a.magnitude() == 0 {
        lemma_zero_worth();
    }
    if b.magnitude() == 0 {
        lemma_zero_worth();
    }
}

proof fn lemma_zero_worth()
    ensures
        worth(0) == 0,
{
    lemma_parts(0);
    assert(worth(0) == 0) by (nonlinear_arith)
        requires
            worth(0) == significand_of(0) * pow2(exponent_of(0)),
            significand_of(0) == 0,
    ;
}

/// Whole numbers up to `2^24` are held exactly.
pub proof fn law_whole_is_exact(n: int)
    requires
        -(2 * BINADE) <= n <= 2 * BINADE,
    ensures
        Single::whole(n).finite(),
        Single::whole(n).value() == n * pow2(149),
        Single::whole(n).negative() <==> n < 0,
{
    let c: nat = if n < 0 {
        (-n) as nat
    } else {
        n as nat
    };
    lemma_pow2_pos(149);
    assert(c * pow2(149) <= 2 * BINADE * pow2(149)) by (nonlinear_arith)
        requires
            c <= 2 * BINADE,
    ;
    lemma_nearest_exact(c, 149, c * pow2(149));
    assert(-((-n) * pow2(149)) == n * pow2(149)) by (nonlinear_arith);
}

/// Whole numbers are added and subtracted exactly, up to `2^24`.
pub proof fn law_whole_sums(a: int, b: int)
    requires
        -(2 * BINADE) <= a <= 2 * BINADE,
        -(2 * BINADE) <= b <= 2 * BINADE,
    ensures
        -(2 * BINADE) <= a + b <= 2 * BINADE ==> Single::sum(Single::whole(a), Single::whole(b))
            == Single::whole(a + b),
        -(2 * BINADE) <= a - b <= 2 * BINADE ==> Single::difference(
            Single::whole(a),
            Single::whole(b),
        ) == Single::whole(a - b),
{
    law_whole_is_exact(a);
    law_whole_is_exact(b);
    law_whole_is_exact(0);
    let x = Single::whole(a);
    let y = Single::whole(b);
    let step: int = pow2(149) as int;
    lemma_pow2_pos(149);
    if -(2 * BINADE) <= a + b <= 2 * BINADE {
        lemma_whole_sum(x, a, y, b);
    }
    if -(2 * BINADE) <= a - b <= 2 * BINADE {
        let z = y.negation();
        assert(-(b * step) == (-b) * step) by (nonlinear_arith);
        assert(z.finite() && z.value() == (-b) * step);
        lemma_whole_sum(x, a, z, -b);
    }
}

proof fn lemma_whole_sum(x: Single, a: int, y: Single, b: int)
    requires
        x.finite(),
        y.finite(),
        x.value() == a * pow2(149),
        y.value() == b * pow2(149),
        x.negative() ==> y.negative() ==> a + b != 0,
        -(2 * BINADE) <= a + b <= 2 * BINADE,
    ensures
        Single::sum(x, y) == Single::whole(a + b),
{
    let step: int = pow2(149) as int;
    lemma_pow2_pos(149);
    lemma_mod_multiples_basic(a, step);
    lemma_mod_multiples_basic(b, step);
    assert(a * step + b * step == (a + b) * step) by (nonlinear_arith);
    assert(-(2 * BINADE * step) <= (a + b) * step <= 2 * BINADE * step) by (nonlinear_arith)
        requires
            -(2 * BINADE) <= a + b <= 2 * BINADE,
            step > 0,
    ;
    law_sum_on_grid_is_exact(x, y, 149);
    law_whole_is_exact(a + b);
    if a + b == 0 {
        lemma_whole_zero();
    } else {
        assert((a + b) * step != 0) by (nonlinear_arith)
            requires
                a + b != 0,
                step > 0,
        ;
        law_value_identifies(Single::sum(x, y), Single::whole(a + b));
    }
}

pub(crate) proof fn lemma_whole_zero()
    ensures
        Single::whole(0) == (Single { bits: 0 }),
{
    law_whole_is_exact(0);
    let zero = Single { bits: 0 };
    lemma_zero_worth();
    law_order_is_numeric(zero, Single::whole(0));
    law_order_is_numeric(Single::whole(0), zero);
}

pub(crate) proof fn lemma_whole_16384()
    ensures
        Single::whole(16384) == (Single { bits: 0x4680_0000 }),
{
    let area = Single { bits: 0x4680_0000 };
    law_whole_is_exact(16384);
    lemma_pow2_pos(149);
    lemma_pow2_adds(23, 140);
    lemma_pow2_adds(14, 149);
    lemma2_to64();
    lemma_fundamental_div_mod_converse(0x4680_0000, BINADE as int, 141, 0);
    assert(worth(0x4680_0000) == 16384 * pow2(149));
    law_value_identifies(Single::whole(16384), area);
}

pub(crate) proof fn lemma_whole_three()
    ensures
        Single::whole(3) == (Single { bits: 0x4040_0000 }),
{
    let three = Single { bits: 0x4040_0000 };
    law_whole_is_exact(3);
    lemma_pow2_pos(149);
    lemma_pow2_pos(127);
    lemma_pow2_adds(22, 127);
    lemma2_to64();
    lemma_fundamental_div_mod_converse(0x4040_0000, BINADE as int, 128, 0x40_0000);
    assert(significand_of(0x4040_0000) == 3 * pow2(22));
    assert(worth(0x4040_0000) == 3 * pow2(149)) by (nonlinear_arith)
        requires
            worth(0x4040_0000) == (3 * pow2(22)) * pow2(127),
            pow2(149) == pow2(22) * pow2(127),
    ;
    law_value_identifies(Single::whole(3), three);
}

pub(crate) proof fn lemma_whole_one()
    ensures
        Single::whole(1) == (Single { bits: 0x3f80_0000 }),
{
    let one = Single { bits: 0x3f80_0000 };
    law_whole_is_exact(1);
    lemma_pow2_pos(149);
    lemma_pow2_adds(23, 126);
    lemma2_to64();
    lemma_fundamental_div_mod_converse(0x3f80_0000, BINADE as int, 127, 0);
    assert(worth(0x3f80_0000) == pow2(149));
    law_value_identifies(Single::whole(1), one);
}

/// Whole numbers are ordered as they are.
pub proof fn law_whole_order(a: int, b: int)
    requires
        -(2 * BINADE) <= a <= 2 * BINADE,
        -(2 * BINADE) <= b <= 2 * BINADE,
    ensures
        Single::at_most(Single::whole(a), Single::whole(b)) <==> a <= b,
        Single::below(Single::whole(a), Single::whole(b)) <==> a < b,
{
    let step: int = pow2(149) as int;
    lemma_pow2_pos(149);
    law_whole_is_exact(a);
    law_whole_is_exact(b);
    law_order_is_numeric(Single::whole(a), Single::whole(b));
    assert(a * step <= b * step <==> a <= b) by (nonlinear_arith)
        requires
            step > 0,
    ;
    assert(a * step < b * step <==> a < b) by (nonlinear_arith)
        requires
            step > 0,
    ;
}

/// Whole numbers are multiplied exactly, up to `2^24`.
pub proof fn law_whole_product(a: int, b: int)
    requires
        0 <= a <= 2 * BINADE,
        0 <= b <= 2 * BINADE,
        a * b <= 2 * BINADE,
    ensures
        Single::product(Single::whole(a), Single::whole(b)) == Single::whole(a * b),
{
    let step: nat = pow2(149);
    lemma_pow2_pos(149);
    law_whole_is_exact(a);
    law_whole_is_exact(b);
    assert(a * b >= 0) by (nonlinear_arith)
        requires
            a >= 0,
            b >= 0,
    ;
    let n: nat = (a * b) as nat;
    assert((a as nat * step) * (b as nat * step) == (n * step) * step) by (nonlinear_arith)
        requires
            n == a * b,
            a >= 0,
            b >= 0,
    ;
    lemma_nearest_scale(n * step, 1, step);
}

/// A sum or difference that a finite number can hold is that number.
pub proof fn law_held_sum_is_exact(a: Single, b: Single, c: Single)
    requires
        a.finite(),
        b.finite(),
        c.finite(),
        c.value() == a.value() + b.value(),
    ensures
        Single::sum(a, b).finite(),
        Single::sum(a, b).value() == c.value(),
        c.value() != 0 ==> Single::sum(a, b) == c,
{
    law_magnitude_is_not_rounded(c.magnitude());
    lemma_zero_worth();
}

/// How far apart two whole numbers are.
pub open spec fn gap(a: int, b: int) -> int {
    if a <= b {
        b - a
    } else {
        a - b
    }
}

/// Whether a number is what an exact value rounds to, both counted in multiples of the
/// least positive number over `scale`: no finite number is closer, of two that are equally
/// close the even one is taken, and what is half a last place or more above the largest
/// finite number is infinite.
pub open spec fn rounds_to(exact: int, scale: nat, number: Single) -> bool {
    let size: int = gap(exact, 0);
    &&& !number.nan()
    &&& number.infinite() <==> 2 * size >= (4 * BINADE - 1) * pow2(253) * scale
    &&& exact != 0 && number.magnitude() != 0 ==> number.negative() == (exact < 0)
    &&& number.finite() ==> forall|other: Single|
        #![trigger other.value()]
        other.finite() ==> {
            &&& gap(number.value() * scale, exact) <= gap(other.value() * scale, exact)
            &&& other.value() != number.value() && gap(number.value() * scale, exact) == gap(
                other.value() * scale,
                exact,
            ) ==> number.bits % 2 == 0
        }
}

/// Sums and differences are correctly rounded.
pub proof fn law_sum_is_correctly_rounded(a: Single, b: Single)
    requires
        a.finite(),
        b.finite(),
    ensures
        rounds_to(a.value() + b.value(), 1, Single::sum(a, b)),
        rounds_to(a.value() - b.value(), 1, Single::difference(a, b)),
{
    assert(b.negation().finite() && b.negation().value() == -b.value());
    lemma_sum_rounds(a, b);
    lemma_sum_rounds(a, b.negation());
}

proof fn lemma_sum_rounds(a: Single, b: Single)
    requires
        a.finite(),
        b.finite(),
    ensures
        rounds_to(a.value() + b.value(), 1, Single::sum(a, b)),
{
    let v: int = a.value() + b.value();
    let n: nat = gap(v, 0) as nat;
    lemma_nearest_zero(1);
    law_only_the_too_large_overflows(n, 1);
    if v == 0 {
        lemma_zero_worth();
    } else {
        assert(Single::sum(a, b) == Single::signed(v < 0, nearest(n, 1)));
    }
    lemma_signed_rounds(v, 1, Single::sum(a, b));
}

/// Products are correctly rounded.
pub proof fn law_product_is_correctly_rounded(a: Single, b: Single)
    requires
        a.finite(),
        b.finite(),
    ensures
        rounds_to(a.value() * b.value(), pow2(149), Single::product(a, b)),
{
    let step: nat = pow2(149);
    let (x, y): (nat, nat) = (worth(a.magnitude()), worth(b.magnitude()));
    let v: int = a.value() * b.value();
    let negative = a.negative() != b.negative();
    lemma_pow2_pos(149);
    assert(gap(v, 0) == x * y && (v != 0 ==> negative == (v < 0))) by (nonlinear_arith)
        requires
            v == a.value() * b.value(),
            a.value() == if a.negative() { -x } else { x as int },
            b.value() == if b.negative() { -y } else { y as int },
            negative == (a.negative() != b.negative()),
    ;
    law_only_the_too_large_overflows(x * y, step);
    assert(Single::product(a, b) == Single::signed(negative, nearest(x * y, step)));
    if v == 0 {
        lemma_nearest_zero(step);
    }
    lemma_signed_rounds(v, step, Single::product(a, b));
}

/// A number with the sign of a value and the magnitude nearest to it is what the value
/// rounds to.
proof fn lemma_signed_rounds(v: int, scale: nat, number: Single)
    requires
        scale > 0,
        number.magnitude() == nearest(gap(v, 0) as nat, scale),
        number.magnitude() <= INFINITE,
        v != 0 ==> number.negative() == (v < 0),
        number.infinite() <==> 2 * gap(v, 0) >= (4 * BINADE - 1) * pow2(253) * scale,
    ensures
        rounds_to(v, scale, number),
{
    if number.finite() {
        let n: nat = gap(v, 0) as nat;
        assert forall|other: Single|
            #![trigger other.value()]
            other.finite() implies {
            &&& gap(number.value() * scale, v) <= gap(other.value() * scale, v)
            &&& other.value() != number.value() && gap(number.value() * scale, v) == gap(
                other.value() * scale,
                v,
            ) ==> number.bits % 2 == 0
        } by {
            lemma_no_closer(v, scale, number, other);
        }
    }
}

proof fn lemma_no_closer(v: int, scale: nat, number: Single, other: Single)
    requires
        scale > 0,
        number.finite(),
        other.finite(),
        number.magnitude() == nearest(gap(v, 0) as nat, scale),
        v != 0 ==> number.negative() == (v < 0),
    ensures
        gap(number.value() * scale, v) <= gap(other.value() * scale, v),
        other.value() != number.value() && gap(number.value() * scale, v) == gap(
            other.value() * scale,
            v,
        ) ==> number.bits % 2 == 0,
{
    let n: nat = gap(v, 0) as nat;
    let (x, y): (nat, nat) = (worth(number.magnitude()), worth(other.magnitude()));
    lemma_zero_worth();
    law_rounding_is_closest(n, scale, other.magnitude());
    law_rounding_is_closest(n, scale, 0);
    if other.magnitude() != number.magnitude() && distance(x * scale, n) == distance(
        y * scale,
        n,
    ) {
        law_rounding_ties_to_even(n, scale, other.magnitude());
    }
    if number.magnitude() != 0 && distance(x * scale, n) == distance(0 * scale, n) {
        law_rounding_ties_to_even(n, scale, 0);
    }
    if v == 0 {
        lemma_nearest_zero(scale);
    }
    assert((-x) * scale == -(x * scale) && (-y) * scale == -(y * scale)) by (nonlinear_arith);
    assert(x * scale >= 0 && y * scale >= 0 && 0 * scale == 0) by (nonlinear_arith);
    assert(y > 0 ==> y * scale > 0) by (nonlinear_arith)
        requires
            scale > 0,
    ;
    if other.magnitude() == number.magnitude() {
        assert(x == y);
    }
    assert(number.bits % 2 == number.magnitude() % 2);
}

/// What is not a number, or infinite, goes through sums and products as it should: nothing
/// undefined is told as a number, and an infinity outweighs what is finite.
pub proof fn law_infinities_and_undefined(a: Single, b: Single)
    ensures
        a.nan() || b.nan() ==> Single::sum(a, b).nan() && Single::difference(a, b).nan()
            && Single::product(a, b).nan(),
        a.infinite() && b.finite() ==> Single::sum(a, b) == a && Single::sum(b, a) == a
            && Single::difference(a, b) == a && Single::difference(b, a) == a.negation(),
        a.infinite() && b.infinite() ==> (Single::sum(a, b).nan() <==> a.negative()
            != b.negative()) && (Single::difference(a, b).nan() <==> a.negative()
            == b.negative()),
        a.infinite() && b.infinite() && a.negative() == b.negative() ==> Single::sum(a, b) == a,
        a.infinite() && !b.nan() ==> {
            &&& Single::product(a, b).nan() <==> b.magnitude() == 0
            &&& b.magnitude() != 0 ==> Single::product(a, b).infinite() && Single::product(
                a,
                b,
            ).negative() == (a.negative() != b.negative())
            &&& Single::product(b, a) == Single::product(a, b)
        },
{
}

/// Numbers are ordered with the infinities at the ends; what is not a number is not ordered.
pub proof fn law_order_is_total_on_numbers(a: Single, b: Single, c: Single)
    ensures
        a.nan() || b.nan() ==> !Single::at_most(a, b) && !Single::below(a, b),
        !a.nan() && !b.nan() ==> Single::at_most(a, b) || Single::at_most(b, a),
        Single::below(a, b) <==> Single::at_most(a, b) && !Single::at_most(b, a),
        Single::at_most(a, b) && Single::at_most(b, c) ==> Single::at_most(a, c),
        a.infinite() && !b.nan() ==> (if a.negative() {
            Single::at_most(a, b)
        } else {
            Single::at_most(b, a)
        }),
        a.infinite() && b.finite() ==> !same_number(a, b),
{
}

/// The smaller and the larger of two numbers are among them and in order; what is not a
/// number is passed over.
pub proof fn law_least_and_greatest(a: Single, b: Single)
    ensures
        Single::least(a, b) == a || Single::least(a, b) == b,
        Single::greatest(a, b) == a || Single::greatest(a, b) == b,
        !a.nan() ==> Single::at_most(Single::least(a, b), a) && Single::at_most(
            a,
            Single::greatest(a, b),
        ),
        !b.nan() ==> Single::at_most(Single::least(a, b), b) && Single::at_most(
            b,
            Single::greatest(a, b),
        ),
{
}

/// A product that a finite number can hold is that number.
pub proof fn law_held_product_is_exact(a: Single, b: Single, c: Single)
    requires
        a.finite(),
        b.finite(),
        c.finite(),
        c.value() * pow2(149) == a.value() * b.value(),
    ensures
        Single::product(a, b).finite(),
        Single::product(a, b).value() == c.value(),
        c.value() != 0 ==> Single::product(a, b) == c,
{
    let step: nat = pow2(149);
    let (x, y, z): (nat, nat, nat) = (
        worth(a.magnitude()),
        worth(b.magnitude()),
        worth(c.magnitude()),
    );
    lemma_pow2_pos(149);
    assert(z * step == x * y) by (nonlinear_arith)
        requires
            c.value() * step == a.value() * b.value(),
            c.value() == z || c.value() == -z,
            a.value() == x || a.value() == -x,
            b.value() == y || b.value() == -y,
            step > 0,
    ;
    lemma_nearest_scale(z, 1, step);
    law_magnitude_is_not_rounded(c.magnitude());
    lemma_zero_worth();
    if c.value() != 0 {
        assert(c.negative() == (a.negative() != b.negative())) by (nonlinear_arith)
            requires
                c.value() * step == a.value() * b.value(),
                c.value() == if c.negative() { -z } else { z as int },
                a.value() == if a.negative() { -x } else { x as int },
                b.value() == if b.negative() { -y } else { y as int },
                c.value() != 0,
                step > 0,
        ;
    }
}

/// Whether two numbers are equal as numbers: the two zeros are.
pub open spec fn same_number(a: Single, b: Single) -> bool {
    Single::at_most(a, b) && Single::at_most(b, a)
}

/// Equal numbers have equal sums and differences.
pub proof fn law_sum_respects_numbers(a: Single, b: Single, c: Single, d: Single)
    requires
        same_number(a, b),
        same_number(c, d),
    ensures
        Single::sum(a, c).nan() == Single::sum(b, d).nan(),
        !Single::sum(a, c).nan() ==> same_number(Single::sum(a, c), Single::sum(b, d)),
        Single::difference(a, c).nan() == Single::difference(b, d).nan(),
        !Single::difference(a, c).nan() ==> same_number(
            Single::difference(a, c),
            Single::difference(b, d),
        ),
{
    lemma_same_sums(a, b, c, d);
    lemma_same_sums(a, b, c.negation(), d.negation());
}

proof fn lemma_same_sums(a: Single, b: Single, c: Single, d: Single)
    requires
        same_number(a, b),
        same_number(c, d),
    ensures
        Single::sum(a, c).nan() == Single::sum(b, d).nan(),
        !Single::sum(a, c).nan() ==> same_number(Single::sum(a, c), Single::sum(b, d)),
{
    if a.finite() && c.finite() {
        law_order_is_numeric(a, b);
        law_order_is_numeric(b, a);
        law_order_is_numeric(c, d);
        law_order_is_numeric(d, c);
    }
}

/// Addition keeps the order, rounding and infinities included.
pub proof fn law_sum_is_monotone(a: Single, b: Single, c: Single, d: Single)
    requires
        Single::at_most(a, b),
        Single::at_most(c, d),
        !Single::sum(a, c).nan(),
        !Single::sum(b, d).nan(),
    ensures
        Single::at_most(Single::sum(a, c), Single::sum(b, d)),
{
    if a.finite() && b.finite() && c.finite() && d.finite() {
        law_order_is_numeric(a, b);
        law_order_is_numeric(c, d);
        let v: int = a.value() + c.value();
        let w: int = b.value() + d.value();
        if v < 0 && w < 0 {
            law_rounding_is_monotone((-w) as nat, (-v) as nat, 1);
        }
        if v > 0 && w > 0 {
            law_rounding_is_monotone(v as nat, w as nat, 1);
        }
    }
}

/// Multiplication by what is not negative keeps the order, rounding and infinities
/// included; multiplication by what is not positive turns it round.
pub proof fn law_product_is_monotone(m: Single, a: Single, b: Single)
    requires
        Single::at_most(a, b),
        !Single::product(m, a).nan(),
        !Single::product(m, b).nan(),
    ensures
        m.rank() >= 0 ==> Single::at_most(Single::product(m, a), Single::product(m, b)),
        m.rank() <= 0 ==> Single::at_most(Single::product(m, b), Single::product(m, a)),
{
    lemma_product_grows(m, a, b);
    lemma_product_grows(m, b, a);
    lemma_product_zero(m, a);
    lemma_product_zero(m, b);
}

/// A product with a zero is a zero.
pub(crate) proof fn lemma_product_zero(m: Single, a: Single)
    requires
        !Single::product(m, a).nan(),
    ensures
        m.magnitude() == 0 || a.magnitude() == 0 ==> Single::product(m, a).magnitude() == 0,
{
    lemma_zero_worth();
    lemma_pow2_pos(149);
    lemma_nearest_zero(pow2(149));
    if m.magnitude() == 0 || a.magnitude() == 0 {
        assert(worth(m.magnitude()) * worth(a.magnitude()) == 0) by (nonlinear_arith)
            requires
                worth(m.magnitude()) == 0 || worth(a.magnitude()) == 0,
        ;
    }
}

/// A factor of larger magnitude does not make a product of smaller magnitude.
proof fn lemma_product_grows(m: Single, a: Single, b: Single)
    requires
        !m.nan(),
        !a.nan(),
        !b.nan(),
        !Single::product(m, a).nan(),
        !Single::product(m, b).nan(),
    ensures
        a.magnitude() <= b.magnitude() ==> Single::product(m, a).magnitude() <= Single::product(
            m,
            b,
        ).magnitude(),
        Single::product(m, a).negative() == (m.negative() != a.negative()),
{
    lemma_pow2_pos(149);
    if m.finite() && a.finite() && b.finite() && a.magnitude() < b.magnitude() {
        law_worth_increases(a.magnitude(), b.magnitude());
        assert(worth(m.magnitude()) * worth(a.magnitude()) <= worth(m.magnitude()) * worth(
            b.magnitude(),
        )) by (nonlinear_arith)
            requires
                worth(a.magnitude()) <= worth(b.magnitude()),
        ;
        law_rounding_is_monotone(
            worth(m.magnitude()) * worth(a.magnitude()),
            worth(m.magnitude()) * worth(b.magnitude()),
            pow2(149),
        );
    }
}

} // verus!
