//! Rounding to the magnitudes that single precision can hold.
//!
//! A magnitude is a bit pattern without its sign. What it is worth is counted in multiples
//! of the least positive number, so that every finite number is worth a whole number.

use vstd::arithmetic::div_mod::*;
use vstd::arithmetic::power2::*;
use vstd::prelude::*;

verus! {

/// The weight of the lowest exponent bit: the number of significands per binade.
pub const BINADE: u32 = 0x0080_0000;

/// The magnitude of an infinity; larger magnitudes are not numbers.
pub const INFINITE: u32 = 0x7f80_0000;

/// The exponent of a magnitude, counted from that of the subnormal numbers.
pub open spec fn exponent_of(magnitude: nat) -> nat {
    if magnitude < BINADE {
        0
    } else {
        (magnitude / BINADE as nat - 1) as nat
    }
}

/// The significand of a magnitude, its leading bit included.
pub open spec fn significand_of(magnitude: nat) -> nat {
    (magnitude - exponent_of(magnitude) * BINADE) as nat
}

/// What a finite magnitude is worth, in multiples of the least positive number.
pub open spec fn worth(magnitude: nat) -> nat {
    significand_of(magnitude) * pow2(exponent_of(magnitude))
}

/// `n / d` rounded to a whole number, ties to even.
pub open spec fn round_half_even(n: nat, d: nat) -> nat {
    let q: nat = n / d;
    let r: nat = n % d;
    if 2 * r < d || (2 * r == d && q % 2 == 0) {
        q
    } else {
        q + 1
    }
}

/// The least `e` for which `n / d` is below `2^(24 + e)`.
pub open spec fn excess(n: nat, d: nat) -> nat
    decreases n - d,
{
    if d == 0 || n < 2 * BINADE * d {
        0
    } else {
        proof {
            assert(2 * BINADE * d >= 2 * d) by (nonlinear_arith);
        }
        1 + excess(n, 2 * d)
    }
}

/// The magnitude that `n / d` (in multiples of the least positive number) rounds to:
/// 24 significant bits are kept, ties go to the even significand, and what is too
/// large becomes infinite.
pub open spec fn nearest(n: nat, d: nat) -> nat {
    let e: nat = excess(n, d);
    let magnitude: nat = e * (BINADE as nat) + round_half_even(n, d * pow2(e));
    if magnitude < INFINITE {
        magnitude
    } else {
        INFINITE as nat
    }
}

/// The magnitude nearest to `n * 2^x`.
pub open spec fn nearest_scaled(n: nat, x: int) -> nat {
    if x >= 0 {
        nearest(n * pow2(x as nat), 1)
    } else {
        nearest(n, pow2((-x) as nat))
    }
}

/// How far apart two natural numbers are.
pub open spec fn distance(a: nat, b: nat) -> nat {
    if a <= b {
        (b - a) as nat
    } else {
        (a - b) as nat
    }
}

/// The number of binary digits of `n`.
fn digits(n: u64) -> (length: u32)
    requires
        n < 0x1000_0000_0000_0000,
    ensures
        length <= 60,
        n < pow2(length as nat),
        length > 0 ==> n >= pow2((length - 1) as nat),
        length == 0 <==> n == 0,
{
    let mut length: u32 = 0;
    let mut power: u64 = 1;
    proof {
        lemma2_to64();
    }
    while power <= n
        invariant
            n < 0x1000_0000_0000_0000,
            power == pow2(length as nat),
            length > 0 ==> n >= pow2((length - 1) as nat),
            length > 0 ==> n > 0,
            length == 0 ==> power == 1,
            power >= 1,
            length <= 60,
        decreases 2 * n - power,
    {
        proof {
            lemma2_to64_rest();
            if length >= 60 {
                lemma_pow2_strictly_increases(59, length as nat);
            }
            lemma_pow2_unfold((length + 1) as nat);
        }
        power = power * 2;
        length = length + 1;
    }
    length
}

/// `n / 2^shift` rounded to a whole number, ties to even.
fn shift_rounding(n: u64, shift: u32) -> (q: u64)
    requires
        n < 0x1000_0000_0000_0000,
        shift > 0,
    ensures
        q == round_half_even(n as nat, pow2(shift as nat)),
        q <= n,
{
    proof {
        lemma2_to64_rest();
        lemma_pow2_unfold(shift as nat);
        lemma_pow2_pos((shift - 1) as nat);
    }
    if shift > 61 {
        proof {
            lemma_pow2_strictly_increases(61, shift as nat);
            lemma_round_unique(n as nat, pow2(shift as nat), 0, n as nat);
        }
        return 0;
    }
    proof {
        lemma_pow2_strictly_increases(shift as nat, 62);
        vstd::bits::lemma_u64_shl_is_mul(1, shift as u64);
    }
    let divisor: u64 = 1u64 << shift;
    let q: u64 = n / divisor;
    let r: u64 = n % divisor;
    proof {
        lemma_fundamental_div_mod(n as int, divisor as int);
        if q == n && n > 0 {
            assert(divisor * q >= 2 * q) by (nonlinear_arith)
                requires
                    divisor >= 2,
                    q >= 0,
            ;
        }
        lemma_div_is_ordered_by_denominator(n as int, 1, divisor as int);
        assert(n as int / 1 == n);
    }
    if 2 * r < divisor || (2 * r == divisor && q % 2 == 0) {
        q
    } else {
        q + 1
    }
}

/// The magnitude nearest to `n * 2^x`.
pub(crate) fn round_scaled(n: u64, x: i32) -> (magnitude: u32)
    requires
        n < 0x1000_0000_0000_0000,
        -1000 <= x <= 1000,
    ensures
        magnitude == nearest_scaled(n as nat, x as int),
        magnitude <= INFINITE,
{
    if n == 0 {
        proof {
            lemma_nearest_zero(pow2((-x) as nat));
            lemma_nearest_zero(1);
            if x < 0 {
                lemma_pow2_pos((-x) as nat);
            }
        }
        return 0;
    }
    let length: u32 = digits(n);
    let top: i32 = length as i32 + x - 24;
    let e: i32 = if top > 0 {
        top
    } else {
        0
    };
    let ghost numerator: nat = if x >= 0 {
        n as nat * pow2(x as nat)
    } else {
        n as nat
    };
    let ghost denominator: nat = if x >= 0 {
        1
    } else {
        pow2((-x) as nat)
    };
    proof {
        lemma_scaled_excess(n as nat, x as int, length as nat, e as nat);
    }
    let shift: i32 = e - x;
    let q: u64 = if shift <= 0 {
        let left: u32 = (-shift) as u32;
        proof {
            lemma2_to64();
            lemma_pow2_pos(length as nat);
            lemma_pow2_pos(left as nat);
            // The digits fit in the significand.
            assert(length + left <= 24);
            lemma_pow2_adds(length as nat, left as nat);
            assert(n * pow2(left as nat) < pow2(length as nat) * pow2(left as nat)) by (nonlinear_arith)
                requires
                    n < pow2(length as nat),
                    pow2(left as nat) > 0,
            ;
            if length + left < 24 {
                lemma_pow2_strictly_increases((length + left) as nat, 24);
            }
            vstd::bits::lemma_u64_shl_is_mul(n, left as u64);
            lemma_pow2_adds(left as nat, e as nat);
            lemma_pow2_pos(e as nat);
            assert(n as nat * pow2(x as nat) == (n as nat * pow2(left as nat)) * pow2(e as nat))
                by (nonlinear_arith)
                requires
                    pow2(x as nat) == pow2(left as nat) * pow2(e as nat),
            ;
            lemma_round_whole(n as nat * pow2(left as nat), pow2(e as nat));
        }
        n << left
    } else {
        proof {
            if x >= 0 {
                lemma_pow2_adds(shift as nat, x as nat);
                lemma_pow2_pos(shift as nat);
                lemma_pow2_pos(x as nat);
                lemma_round_scale(n as nat, pow2(shift as nat), pow2(x as nat));
            } else {
                lemma_pow2_adds((-x) as nat, e as nat);
            }
        }
        shift_rounding(n, shift as u32)
    };
    assert(q == round_half_even(numerator, denominator * pow2(e as nat)));
    let magnitude: u64 = e as u64 * BINADE as u64 + q;
    if magnitude < INFINITE as u64 {
        magnitude as u32
    } else {
        INFINITE
    }
}

/// Rounding is correct: no finite number is closer to `n / d` than the one it rounds to.
pub proof fn law_rounding_is_closest(n: nat, d: nat, other: nat)
    requires
        d > 0,
        nearest(n, d) < INFINITE,
        other < INFINITE,
    ensures
        distance(worth(nearest(n, d)) * d, n) <= distance(worth(other) * d, n),
{
    let e: nat = excess(n, d);
    let p: nat = pow2(e);
    let w: nat = d * p;
    let q: nat = round_half_even(n, w);
    let f: nat = exponent_of(other);
    let s: nat = significand_of(other);
    lemma_rounded_significand(n, d);
    lemma_compose(e, q);
    lemma_parts(other);
    lemma_pow2_pos(e);
    lemma_pow2_pos(f);
    assert((q * p) * d == q * w) by (nonlinear_arith)
        requires
            w == d * p,
    ;
    if f >= e {
        let g: nat = pow2((f - e) as nat);
        lemma_pow2_adds((f - e) as nat, e);
        assert((s * pow2(f)) * d == (s * g) * w) by (nonlinear_arith)
            requires
                w == d * p,
                pow2(f) == g * p,
        ;
        lemma_round_closest(n, w, s * g);
    } else {
        lemma_excess_bounds(n, d);
        lemma_pow2_unfold(f + 1);
        if f + 1 < e {
            lemma_pow2_strictly_increases(f + 1, e);
        }
        assert((s * pow2(f)) * d <= BINADE * w) by (nonlinear_arith)
            requires
                s < 2 * BINADE,
                w == d * p,
                p >= 2 * pow2(f),
        ;
        assert(BINADE * d * p == BINADE * w) by (nonlinear_arith)
            requires
                w == d * p,
        ;
        lemma_round_closest(n, w, BINADE as nat);
    }
}

/// Of two finite numbers that are equally close the one with the even significand is taken.
pub proof fn law_rounding_ties_to_even(n: nat, d: nat, other: nat)
    requires
        d > 0,
        nearest(n, d) < INFINITE,
        other < INFINITE,
        other != nearest(n, d),
        distance(worth(nearest(n, d)) * d, n) == distance(worth(other) * d, n),
    ensures
        nearest(n, d) % 2 == 0,
{
    let e: nat = excess(n, d);
    let p: nat = pow2(e);
    let w: nat = d * p;
    let q: nat = round_half_even(n, w);
    let f: nat = exponent_of(other);
    let s: nat = significand_of(other);
    lemma_rounded_significand(n, d);
    lemma_compose(e, q);
    lemma_parts(other);
    lemma_pow2_pos(e);
    lemma_pow2_pos(f);
    assert((q * p) * d == q * w) by (nonlinear_arith)
        requires
            w == d * p,
    ;
    if other < nearest(n, d) {
        law_worth_increases(other, nearest(n, d));
    } else {
        law_worth_increases(nearest(n, d), other);
    }
    assert(worth(other) * d != worth(nearest(n, d)) * d) by (nonlinear_arith)
        requires
            d > 0,
            worth(other) != worth(nearest(n, d)),
    ;
    if f >= e {
        let g: nat = pow2((f - e) as nat);
        lemma_pow2_adds((f - e) as nat, e);
        assert((s * pow2(f)) * d == (s * g) * w) by (nonlinear_arith)
            requires
                w == d * p,
                pow2(f) == g * p,
        ;
        lemma_round_ties(n, w, s * g);
    } else {
        lemma_excess_bounds(n, d);
        lemma_pow2_unfold(f + 1);
        if f + 1 < e {
            lemma_pow2_strictly_increases(f + 1, e);
        }
        assert((s * pow2(f)) * d < BINADE * w) by (nonlinear_arith)
            requires
                s < 2 * BINADE,
                w == d * p,
                p >= 2 * pow2(f),
                pow2(f) > 0,
                d > 0,
        ;
        assert(BINADE * d * p == BINADE * w) by (nonlinear_arith)
            requires
                w == d * p,
        ;
        lemma_round_closest(n, w, BINADE as nat);
    }
    assert((e * (BINADE as nat) + q) % 2 == q % 2) by {
        assert(e * (BINADE as nat) == 2 * (e * 0x40_0000)) by (nonlinear_arith)
            requires
                BINADE == 0x80_0000,
        ;
    }
}

proof fn lemma_round_ties(n: nat, d: nat, k: nat)
    requires
        d > 0,
        k * d != round_half_even(n, d) * d,
        distance(round_half_even(n, d) * d, n) == distance(k * d, n),
    ensures
        round_half_even(n, d) % 2 == 0,
{
    let q: nat = n / d;
    let r: nat = n % d;
    lemma_fundamental_div_mod(n as int, d as int);
    assert(n == q * d + r) by (nonlinear_arith)
        requires
            n == d * q + r,
    ;
    assert((q + 1) * d == q * d + d) by (nonlinear_arith);
    if k <= q {
        assert(k * d <= q * d) by (nonlinear_arith)
            requires
                k <= q,
        ;
        if k < q {
            assert(k * d + d <= q * d) by (nonlinear_arith)
                requires
                    k + 1 <= q,
            ;
        }
    } else {
        assert(k * d >= (q + 1) * d) by (nonlinear_arith)
            requires
                k >= q + 1,
        ;
        if k > q + 1 {
            assert(k * d >= (q + 1) * d + d) by (nonlinear_arith)
                requires
                    k >= q + 2,
            ;
        }
    }
}

/// What is too large becomes infinite, and nothing else: what is half a last place or more
/// above the largest finite number.
pub proof fn law_only_the_too_large_overflows(n: nat, d: nat)
    requires
        d > 0,
    ensures
        nearest(n, d) <= INFINITE,
        nearest(n, d) == INFINITE <==> 2 * n >= (4 * BINADE - 1) * pow2(253) * d,
{
    let e: nat = excess(n, d);
    let p: nat = pow2(e);
    let top: nat = pow2(253);
    let w: nat = d * p;
    let q: nat = round_half_even(n, w);
    lemma_excess_bounds(n, d);
    lemma_rounded_significand(n, d);
    lemma_pow2_pos(253);
    lemma_pow2_pos(e);
    assert(BINADE * d * p == BINADE * w && 2 * BINADE * d * p == 2 * BINADE * w) by (nonlinear_arith)
        requires
            w == d * p,
    ;
    if e < 253 {
        lemma_pow2_strictly_increases(e, 253);
        lemma_pow2_unfold(e + 1);
        if e + 1 < 253 {
            lemma_pow2_strictly_increases(e + 1, 253);
        }
        assert(4 * BINADE * w <= (4 * BINADE - 1) * top * d) by (nonlinear_arith)
            requires
                w == d * p,
                top >= 2 * p,
                BINADE == 0x80_0000,
                d > 0,
                p > 0,
        ;
    } else if e > 253 {
        lemma_pow2_unfold(254);
        if e > 254 {
            lemma_pow2_strictly_increases(254, e);
        }
        assert(2 * (BINADE * w) >= (4 * BINADE - 1) * top * d) by (nonlinear_arith)
            requires
                w == d * p,
                p >= 2 * top,
                BINADE == 0x80_0000,
                d > 0,
        ;
        assert(e * (BINADE as nat) >= 254 * (BINADE as nat)) by (nonlinear_arith)
            requires
                e >= 254,
        ;
    } else {
        lemma_fundamental_div_mod(n as int, w as int);
        let k: nat = n / w;
        let r: nat = n % w;
        assert((4 * BINADE - 1) * top * d == 2 * ((2 * BINADE - 1) * w) + w) by (nonlinear_arith)
            requires
                w == d * top,
        ;
        assert(k < 2 * BINADE) by (nonlinear_arith)
            requires
                n < 2 * BINADE * w,
                n >= w * k,
                w > 0,
        ;
        if k < 2 * BINADE - 1 {
            assert(w * k + w <= (2 * BINADE - 1) * w) by (nonlinear_arith)
                requires
                    k + 1 <= 2 * BINADE - 1,
            ;
        } else {
            assert(w * k == (2 * BINADE - 1) * w) by (nonlinear_arith)
                requires
                    k == 2 * BINADE - 1,
            ;
        }
    }
}

/// Below two to the twenty-fourth a magnitude is worth itself; from there on it is worth
/// twice as much one binade further.
pub proof fn law_worth_doubles_by_the_binade(magnitude: nat)
    ensures
        magnitude <= 2 * BINADE ==> worth(magnitude) == magnitude,
        magnitude >= BINADE ==> worth(magnitude + BINADE as nat) == 2 * worth(magnitude),
{
    lemma2_to64();
    lemma_fundamental_div_mod(magnitude as int, BINADE as int);
    if magnitude >= BINADE {
        let e: nat = exponent_of(magnitude);
        let q: nat = magnitude / BINADE as nat;
        lemma_round_unique(magnitude + BINADE as nat, BINADE as nat, q + 1, magnitude % BINADE as nat);
        assert(exponent_of(magnitude + BINADE as nat) == e + 1);
        assert((e + 1) * BINADE == e * BINADE + BINADE) by (nonlinear_arith);
        lemma_pow2_unfold(e + 1);
        let s: nat = significand_of(magnitude);
        assert(s * pow2(e + 1) == 2 * (s * pow2(e))) by (nonlinear_arith)
            requires
                pow2(e + 1) == 2 * pow2(e),
        ;
        if magnitude < 2 * BINADE {
            lemma_round_unique(magnitude, BINADE as nat, 1, (magnitude - BINADE) as nat);
            assert(s * pow2(e) == s) by (nonlinear_arith)
                requires
                    pow2(e) == 1,
            ;
        }
        if magnitude == 2 * BINADE {
            lemma_round_unique(magnitude, BINADE as nat, 2, 0);
            assert(s * pow2(e) == 2 * s) by (nonlinear_arith)
                requires
                    pow2(e) == 2,
            ;
        }
    } else {
        assert(magnitude * pow2(0) == magnitude) by (nonlinear_arith)
            requires
                pow2(0) == 1,
        ;
    }
}

/// A larger finite magnitude is worth more.
pub proof fn law_worth_increases(a: nat, b: nat)
    requires
        a < b < INFINITE,
    ensures
        worth(a) < worth(b),
{
    let ea: nat = exponent_of(a);
    let eb: nat = exponent_of(b);
    let sa: nat = significand_of(a);
    let sb: nat = significand_of(b);
    lemma_parts(a);
    lemma_parts(b);
    lemma_div_is_ordered(a as int, b as int, BINADE as int);
    lemma_pow2_pos(ea);
    lemma_pow2_pos(eb);
    if ea == eb {
        assert(sa * pow2(ea) < sb * pow2(ea)) by (nonlinear_arith)
            requires
                sa < sb,
                pow2(ea) > 0,
        ;
    } else {
        lemma_pow2_unfold(ea + 1);
        if ea + 1 < eb {
            lemma_pow2_strictly_increases(ea + 1, eb);
        }
        assert(sa * pow2(ea) < sb * pow2(eb)) by (nonlinear_arith)
            requires
                sa < 2 * BINADE,
                sb >= BINADE,
                pow2(ea) > 0,
                pow2(eb) >= 2 * pow2(ea),
        ;
    }
}

proof fn lemma_excess(n: nat, d: nat, e: nat)
    requires
        d > 0,
        n < 2 * BINADE * d * pow2(e),
        e == 0 || n >= BINADE * d * pow2(e),
    ensures
        excess(n, d) == e,
    decreases e,
{
    lemma2_to64();
    if e > 0 {
        let f: nat = (e - 1) as nat;
        lemma_pow2_unfold(e);
        lemma_pow2_pos(f);
        assert(2 * BINADE * d * pow2(e) == 2 * BINADE * (2 * d) * pow2(f)) by (nonlinear_arith)
            requires
                pow2(e) == 2 * pow2(f),
        ;
        assert(BINADE * d * pow2(e) == BINADE * (2 * d) * pow2(f)) by (nonlinear_arith)
            requires
                pow2(e) == 2 * pow2(f),
        ;
        assert(BINADE * (2 * d) * pow2(f) >= 2 * BINADE * d) by (nonlinear_arith)
            requires
                pow2(f) >= 1,
                d > 0,
        ;
        lemma_excess(n, 2 * d, f);
    } else {
        assert(2 * BINADE * d * pow2(0) == 2 * BINADE * d) by (nonlinear_arith)
            requires
                pow2(0) == 1,
        ;
    }
}

proof fn lemma_round_unique(n: nat, d: nat, q: nat, r: nat)
    requires
        d > 0,
        n == q * d + r,
        r < d,
    ensures
        n / d == q,
        n % d == r,
{
    lemma_fundamental_div_mod_converse(n as int, d as int, q as int, r as int);
}

/// Rounding a quotient does not depend on how the fraction is written.
proof fn lemma_round_scale(n: nat, d: nat, c: nat)
    requires
        d > 0,
        c > 0,
    ensures
        d * c > 0,
        round_half_even(n * c, d * c) == round_half_even(n, d),
{
    let q: nat = n / d;
    let r: nat = n % d;
    lemma_fundamental_div_mod(n as int, d as int);
    assert(n == q * d + r) by (nonlinear_arith)
        requires
            n == d * q + r,
    ;
    assert(n * c == q * (d * c) + r * c) by (nonlinear_arith)
        requires
            n == q * d + r,
    ;
    assert(r * c < d * c) by (nonlinear_arith)
        requires
            r < d,
            c > 0,
    ;
    assert(d * c > 0) by (nonlinear_arith)
        requires
            d > 0,
            c > 0,
    ;
    lemma_round_unique(n * c, d * c, q, r * c);
    assert(2 * (r * c) < d * c <==> 2 * r < d) by (nonlinear_arith)
        requires
            c > 0,
    ;
    assert(2 * (r * c) == d * c <==> 2 * r == d) by (nonlinear_arith)
        requires
            c > 0,
    ;
}

/// A whole quotient is not rounded.
proof fn lemma_round_whole(q: nat, d: nat)
    requires
        d > 0,
    ensures
        round_half_even(q * d, d) == q,
{
    lemma_round_unique(q * d, d, q, 0);
}

/// The least excess has the quotient's leading bit in place.
proof fn lemma_excess_bounds(n: nat, d: nat)
    requires
        d > 0,
    ensures
        n < 2 * BINADE * d * pow2(excess(n, d)),
        excess(n, d) == 0 || n >= BINADE * d * pow2(excess(n, d)),
    decreases n - d,
{
    lemma2_to64();
    if n < 2 * BINADE * d {
        assert(2 * BINADE * d * pow2(0) == 2 * BINADE * d) by (nonlinear_arith)
            requires
                pow2(0) == 1,
        ;
    } else {
        let f: nat = excess(n, 2 * d);
        assert(2 * BINADE * d >= 2 * d) by (nonlinear_arith);
        lemma_excess_bounds(n, 2 * d);
        lemma_pow2_unfold(f + 1);
        assert(pow2(f + 1) == 2 * pow2(f));
        assert(2 * BINADE * d * pow2(f + 1) == 2 * BINADE * (2 * d) * pow2(f)) by (nonlinear_arith)
            requires
                pow2(f + 1) == 2 * pow2(f),
        ;
        assert(BINADE * d * pow2(f + 1) == BINADE * (2 * d) * pow2(f)) by (nonlinear_arith)
            requires
                pow2(f + 1) == 2 * pow2(f),
        ;
        if f == 0 {
            assert(BINADE * (2 * d) * pow2(f) == BINADE * (2 * d)) by (nonlinear_arith)
                requires
                    pow2(f) == 1,
            ;
        }
    }
}

/// Zero is not rounded.
pub(crate) proof fn lemma_nearest_zero(d: nat)
    ensures
        d > 0 ==> nearest(0, d) == 0,
{
    if d > 0 {
        lemma2_to64();
        assert(2 * BINADE * d > 0) by (nonlinear_arith)
            requires
                d > 0,
        ;
        assert(excess(0, d) == 0);
        assert(d * pow2(0) == d) by (nonlinear_arith)
            requires
                pow2(0) == 1,
        ;
        lemma_round_unique(0, d, 0, 0);
    }
}

/// The nearest magnitude does not depend on how the fraction is written.
pub(crate) proof fn lemma_nearest_scale(n: nat, d: nat, c: nat)
    requires
        d > 0,
        c > 0,
    ensures
        nearest(n * c, d * c) == nearest(n, d),
{
    let e: nat = excess(n, d);
    lemma_excess_bounds(n, d);
    lemma_pow2_pos(e);
    let p: nat = pow2(e);
    assert(d * c > 0) by (nonlinear_arith)
        requires
            d > 0,
            c > 0,
    ;
    assert(d * p > 0) by (nonlinear_arith)
        requires
            d > 0,
            p > 0,
    ;
    assert(n * c < 2 * BINADE * (d * c) * p) by (nonlinear_arith)
        requires
            n < 2 * BINADE * d * p,
            c > 0,
    ;
    if e > 0 {
        assert(n * c >= BINADE * (d * c) * p) by (nonlinear_arith)
            requires
                n >= BINADE * d * p,
                c > 0,
        ;
    }
    lemma_excess(n * c, d * c, e);
    lemma_round_scale(n, d * p, c);
    assert((d * c) * p == (d * p) * c) by (nonlinear_arith);
}

proof fn lemma_scaled_excess(n: nat, x: int, length: nat, e: nat)
    requires
        length > 0,
        pow2((length - 1) as nat) <= n < pow2(length),
        e == if length + x - 24 > 0 {
            length + x - 24
        } else {
            0
        },
    ensures
        x >= 0 ==> excess(n * pow2(x as nat), 1) == e,
        x < 0 ==> excess(n, pow2((-x) as nat)) == e,
{
    lemma2_to64();
    lemma_pow2_pos(length);
    lemma_pow2_pos(e);
    lemma_pow2_adds(24, e);
    lemma_pow2_adds(23, e);
    if x >= 0 {
        let px: nat = pow2(x as nat);
        lemma_pow2_pos(x as nat);
        lemma_pow2_adds(length, x as nat);
        assert(n * px < pow2(length) * px) by (nonlinear_arith)
            requires
                n < pow2(length),
                px > 0,
        ;
        if length + x < 24 + e {
            lemma_pow2_strictly_increases((length + x) as nat, 24 + e);
        }
        assert(2 * BINADE * 1 * pow2(e) == pow2(24) * pow2(e));
        if e > 0 {
            lemma_pow2_adds((length - 1) as nat, x as nat);
            assert(n * px >= pow2((length - 1) as nat) * px) by (nonlinear_arith)
                requires
                    n >= pow2((length - 1) as nat),
            ;
        }
        lemma_excess(n * px, 1, e);
    } else {
        let d: nat = pow2((-x) as nat);
        lemma_pow2_pos((-x) as nat);
        lemma_pow2_adds((-x) as nat, 24 + e);
        lemma_pow2_adds((-x) as nat, 23 + e);
        if length < (-x) + 24 + e {
            lemma_pow2_strictly_increases(length, ((-x) + 24 + e) as nat);
        }
        assert(2 * BINADE * d * pow2(e) == d * (pow2(24) * pow2(e))) by (nonlinear_arith)
            requires
                pow2(24) == 2 * BINADE,
        ;
        assert(BINADE * d * pow2(e) == d * (pow2(23) * pow2(e))) by (nonlinear_arith)
            requires
                pow2(23) == BINADE,
        ;
        lemma_excess(n, d, e);
    }
}

/// Adding or subtracting less than a quarter of the last place changes nothing.
pub(crate) proof fn lemma_absorbed(m: nat, e: nat, b: nat)
    requires
        BINADE <= m < 2 * BINADE,
        e >= 2,
        b < pow2((e - 2) as nat),
        e * BINADE + m < INFINITE,
    ensures
        nearest(m * pow2(e) + b, 1) == e * BINADE + m,
        m * pow2(e) >= b,
        nearest((m * pow2(e) - b) as nat, 1) == e * BINADE + m,
{
    let p: nat = pow2(e);
    let quarter: nat = pow2((e - 2) as nat);
    let half: nat = pow2((e - 1) as nat);
    lemma_pow2_unfold(e);
    lemma_pow2_unfold((e - 1) as nat);
    lemma_pow2_pos((e - 2) as nat);
    assert(p == 2 * half && half == 2 * quarter);
    // Above.
    let up: nat = m * p + b;
    assert(up < 2 * BINADE * 1 * p && up >= BINADE * 1 * p) by (nonlinear_arith)
        requires
            BINADE <= m,
            m + 1 <= 2 * BINADE,
            up == m * p + b,
            b < p,
    ;
    lemma_excess(up, 1, e);
    lemma_round_unique(up, p, m, b);
    // Below.
    assert(m * p >= p) by (nonlinear_arith)
        requires
            m >= BINADE,
    ;
    let down: nat = (m * p - b) as nat;
    if b == 0 {
        assert(down == up);
    } else if m > BINADE {
        let k: nat = (m - 1) as nat;
        assert(down == k * p + (p - b)) by (nonlinear_arith)
            requires
                down == m * p - b,
                k == m - 1,
        ;
        assert(down < 2 * BINADE * 1 * p && down >= BINADE * 1 * p) by (nonlinear_arith)
            requires
                k >= BINADE,
                k + 1 <= 2 * BINADE,
                down == k * p + (p - b),
                0 < b < p,
        ;
        lemma_excess(down, 1, e);
        lemma_round_unique(down, p, k, (p - b) as nat);
    } else {
        let k: nat = (2 * BINADE - 1) as nat;
        assert(down == k * half + (half - b)) by (nonlinear_arith)
            requires
                down == m * p - b,
                m == BINADE,
                k == 2 * BINADE - 1,
                p == 2 * half,
        ;
        assert(down < 2 * BINADE * 1 * half && down >= BINADE * 1 * half) by (nonlinear_arith)
            requires
                k == 2 * BINADE - 1,
                down == k * half + (half - b),
                0 < b < half,
        ;
        lemma_excess(down, 1, (e - 1) as nat);
        lemma_round_unique(down, half, k, (half - b) as nat);
        assert((e - 1) * BINADE + 2 * BINADE == e * BINADE + m) by (nonlinear_arith)
            requires
                m == BINADE,
        ;
    }
}

/// A finite magnitude is its exponent and its significand, side by side.
pub(crate) proof fn lemma_parts(magnitude: nat)
    requires
        magnitude < INFINITE,
    ensures
        exponent_of(magnitude) <= 253,
        significand_of(magnitude) < 2 * BINADE,
        exponent_of(magnitude) > 0 ==> significand_of(magnitude) >= BINADE,
        magnitude == exponent_of(magnitude) * BINADE + significand_of(magnitude),
        magnitude == 0 <==> significand_of(magnitude) == 0,
{
    lemma_fundamental_div_mod(magnitude as int, BINADE as int);
}

pub(crate) proof fn lemma_product_scaled(ma: nat, ea: nat, mb: nat, eb: nat)
    ensures
        nearest((ma * pow2(ea)) * (mb * pow2(eb)), pow2(149)) == nearest_scaled(
            ma * mb,
            ea + eb - 149,
        ),
{
    let n: nat = ma * mb;
    let t: nat = ea + eb;
    lemma_pow2_adds(ea, eb);
    lemma_pow2_pos(t);
    lemma_pow2_pos(149);
    assert((ma * pow2(ea)) * (mb * pow2(eb)) == n * pow2(t)) by (nonlinear_arith)
        requires
            n == ma * mb,
            pow2(t) == pow2(ea) * pow2(eb),
    ;
    if t >= 149 {
        let x: nat = (t - 149) as nat;
        lemma_pow2_adds(x, 149);
        assert(n * pow2(t) == (n * pow2(x)) * pow2(149)) by (nonlinear_arith)
            requires
                pow2(t) == pow2(x) * pow2(149),
        ;
        lemma_nearest_scale(n * pow2(x), 1, pow2(149));
    } else {
        let x: nat = (149 - t) as nat;
        lemma_pow2_adds(x, t);
        lemma_pow2_pos(x);
        lemma_nearest_scale(n, pow2(x), pow2(t));
    }
}

/// A whole quotient rounds to a whole number no farther away than any other.
proof fn lemma_round_closest(n: nat, d: nat, k: nat)
    requires
        d > 0,
    ensures
        distance(round_half_even(n, d) * d, n) <= distance(k * d, n),
{
    let q: nat = n / d;
    let r: nat = n % d;
    lemma_fundamental_div_mod(n as int, d as int);
    assert(n == q * d + r) by (nonlinear_arith)
        requires
            n == d * q + r,
    ;
    assert((q + 1) * d == q * d + d) by (nonlinear_arith);
    if k <= q {
        assert(k * d <= q * d) by (nonlinear_arith)
            requires
                k <= q,
        ;
    } else {
        assert(k * d >= (q + 1) * d) by (nonlinear_arith)
            requires
                k >= q + 1,
        ;
    }
}

/// A normalised significand and its exponent are worth what they say.
proof fn lemma_compose(e: nat, q: nat)
    requires
        e == 0 || q >= BINADE,
        q <= 2 * BINADE,
    ensures
        worth(e * (BINADE as nat) + q) == q * pow2(e),
{
    let magnitude: nat = e * (BINADE as nat) + q;
    lemma2_to64();
    if q < BINADE {
        assert(magnitude == q);
    } else if q < 2 * BINADE {
        lemma_round_unique(magnitude, BINADE as nat, e + 1, (q - BINADE) as nat);
    } else {
        lemma_round_unique(magnitude, BINADE as nat, e + 2, 0);
        lemma_pow2_unfold(e + 1);
        assert(BINADE * pow2(e + 1) == q * pow2(e)) by (nonlinear_arith)
            requires
                q == 2 * BINADE,
                pow2(e + 1) == 2 * pow2(e),
        ;
    }
}

/// The significand that `n / d` rounds to is normalised.
proof fn lemma_rounded_significand(n: nat, d: nat)
    requires
        d > 0,
    ensures
        ({
            let e: nat = excess(n, d);
            let q: nat = round_half_even(n, d * pow2(e));
            &&& d * pow2(e) > 0
            &&& q <= 2 * BINADE
            &&& e == 0 || q >= BINADE
        }),
{
    let e: nat = excess(n, d);
    let p: nat = pow2(e);
    let w: nat = d * p;
    lemma_excess_bounds(n, d);
    lemma_pow2_pos(e);
    assert(w > 0) by (nonlinear_arith)
        requires
            d > 0,
            p > 0,
            w == d * p,
    ;
    lemma_fundamental_div_mod(n as int, w as int);
    let q: nat = n / w;
    assert(q < 2 * BINADE) by (nonlinear_arith)
        requires
            n < 2 * BINADE * d * p,
            w == d * p,
            w > 0,
            n >= w * q,
    ;
    if e > 0 {
        assert(q >= BINADE) by (nonlinear_arith)
            requires
                n >= BINADE * d * p,
                w == d * p,
                w > 0,
                n < w * q + w,
        ;
    }
}

pub(crate) proof fn lemma_nearest_exact(c: nat, k: nat, n: nat)
    requires
        n == c * pow2(k) || n == pow2(k) * c,
        k <= 252,
        n <= 2 * BINADE * pow2(k),
    ensures
        nearest(n, 1) < INFINITE,
        worth(nearest(n, 1)) == n,
{
    let e: nat = excess(n, 1);
    let p: nat = pow2(e);
    let r: nat = pow2(k);
    lemma2_to64();
    lemma_excess_bounds(n, 1);
    lemma_pow2_pos(e);
    lemma_pow2_pos(k);
    assert(n == c * r) by (nonlinear_arith)
        requires
            n == c * r || n == r * c,
    ;
    // The exponent is that of the grid, or one above where the quotient fills it.
    if e > k + 1 {
        lemma_pow2_unfold(k + 1);
        lemma_pow2_strictly_increases(k + 1, e);
        assert(false) by (nonlinear_arith)
            requires
                n >= BINADE * 1 * p,
                n <= 2 * BINADE * r,
                p > 2 * r,
        ;
    }
    let q: nat = if e <= k {
        c * pow2((k - e) as nat)
    } else {
        BINADE as nat
    };
    if e <= k {
        lemma_pow2_adds((k - e) as nat, e);
        assert(n == q * p) by (nonlinear_arith)
            requires
                n == c * r,
                r == pow2((k - e) as nat) * p,
                q == c * pow2((k - e) as nat),
        ;
    } else {
        lemma_pow2_unfold(k + 1);
        assert(n == q * p) by (nonlinear_arith)
            requires
                n >= BINADE * 1 * p,
                n <= 2 * BINADE * r,
                p == 2 * r,
                q == BINADE,
        ;
    }
    lemma_round_whole(q, p);
    lemma_rounded_significand(n, 1);
    assert(1 * pow2(e) == p);
    assert(q < 2 * BINADE) by (nonlinear_arith)
        requires
            n == q * p,
            n < 2 * BINADE * 1 * p,
    ;
    lemma_compose(e, q);
}

/// Rounding keeps the order: a larger quotient is not rounded to a smaller magnitude.
pub proof fn law_rounding_is_monotone(n: nat, m: nat, d: nat)
    requires
        n <= m,
        d > 0,
    ensures
        nearest(n, d) <= nearest(m, d),
{
    let e: nat = excess(n, d);
    let f: nat = excess(m, d);
    let p: nat = pow2(e);
    let r: nat = pow2(f);
    lemma_excess_bounds(n, d);
    lemma_excess_bounds(m, d);
    lemma_rounded_significand(n, d);
    lemma_rounded_significand(m, d);
    lemma_pow2_pos(e);
    lemma_pow2_pos(f);
    if e > f {
        lemma_pow2_unfold(f + 1);
        if f + 1 < e {
            lemma_pow2_strictly_increases(f + 1, e);
        }
        assert(BINADE * d * p >= 2 * BINADE * d * r) by (nonlinear_arith)
            requires
                p >= 2 * r,
        ;
    } else if e == f {
        lemma_round_monotone(n, m, d * p);
    } else {
        assert(e * BINADE + 2 * BINADE <= f * BINADE + BINADE);
    }
}

proof fn lemma_round_monotone(n: nat, m: nat, d: nat)
    requires
        n <= m,
        d > 0,
    ensures
        round_half_even(n, d) <= round_half_even(m, d),
{
    lemma_div_is_ordered(n as int, m as int, d as int);
    lemma_fundamental_div_mod(n as int, d as int);
    lemma_fundamental_div_mod(m as int, d as int);
}

/// A magnitude is what its worth rounds to.
pub proof fn law_magnitude_is_not_rounded(magnitude: nat)
    requires
        magnitude < INFINITE,
    ensures
        nearest(worth(magnitude), 1) == magnitude,
{
    let e: nat = exponent_of(magnitude);
    let q: nat = significand_of(magnitude);
    let p: nat = pow2(e);
    lemma_parts(magnitude);
    lemma_pow2_pos(e);
    assert(q * p < 2 * BINADE * 1 * p) by (nonlinear_arith)
        requires
            q < 2 * BINADE,
            p > 0,
    ;
    if e > 0 {
        assert(q * p >= BINADE * 1 * p) by (nonlinear_arith)
            requires
                q >= BINADE,
        ;
    }
    lemma_excess(q * p, 1, e);
    lemma_round_whole(q, p);
}

} // verus!
