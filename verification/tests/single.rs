use scene_analysis::single::Single;

fn single(value: f32) -> Single {
    Single { bits: value.to_bits() }
}

/// Bit patterns that meet every case of the arithmetic, and a spread of others.
fn patterns() -> Vec<u32> {
    let mut list: Vec<u32> = vec![
        0, 1, 2, 3, 0x007f_ffff, 0x0080_0000, 0x0080_0001, 0x00ff_ffff, 0x0100_0000,
        0x3f80_0000, 0x3f7f_ffff, 0x3f80_0001, 0x3f00_0000, 0x4040_0000, 0x4b00_0000,
        0x4b80_0000, 0x4b7f_ffff, 0x4b80_0001, 0x7f7f_ffff, 0x7f7f_fffe, 0x7f00_0000,
        0x7f80_0000, 0x7fc0_0000, 0x7f80_0001, 0x7fff_ffff, 0x1f80_0000, 0x2000_0001,
        0x3a00_0000, 0x3280_0000, 0x3300_0000, 0x3380_0000, 0x4680_0000,
    ];
    let mut state: u32 = 0x1234_5678;
    for _ in 0..300 {
        state = state.wrapping_mul(1_664_525).wrapping_add(1_013_904_223);
        list.push(state & 0x7fff_ffff);
    }
    // Numbers of similar size, where sums cancel and round.
    for _ in 0..200 {
        state = state.wrapping_mul(1_664_525).wrapping_add(1_013_904_223);
        list.push(0x3e00_0000 + (state >> 6));
    }
    let negatives: Vec<u32> = list.iter().map(|bits| bits | 0x8000_0000).collect();
    list.extend(negatives);
    list
}

fn assert_same(what: &str, a: u32, b: u32, got: Single, want: f32) {
    if want.is_nan() {
        assert!(got.is_nan(), "{what} of {a:#x} and {b:#x}: {got:?} is a number");
    } else {
        assert_eq!(got.bits, want.to_bits(), "{what} of {a:#x} and {b:#x}");
    }
}

#[test]
fn arithmetic_is_that_of_the_machine() {
    let patterns = patterns();
    for &a in &patterns {
        for &b in &patterns {
            let (x, y) = (Single { bits: a }, Single { bits: b });
            let (f, g) = (f32::from_bits(a), f32::from_bits(b));
            assert_same("sum", a, b, x.plus(y), f + g);
            assert_same("difference", a, b, x.minus(y), f - g);
            assert_same("product", a, b, x.times(y), f * g);
        }
    }
}

#[test]
fn comparisons_are_those_of_the_machine() {
    let patterns = patterns();
    for &a in &patterns {
        for &b in &patterns {
            let (x, y) = (Single { bits: a }, Single { bits: b });
            let (f, g) = (f32::from_bits(a), f32::from_bits(b));
            assert_eq!(x.le(y), f <= g);
            assert_eq!(x.lt(y), f < g);
            assert_eq!(x.equals(y), f == g);
            let (least, greatest) = (x.min(y), x.max(y));
            if f.is_nan() && g.is_nan() {
                assert!(least.is_nan() && greatest.is_nan());
            } else {
                assert!(f32::from_bits(least.bits) == f.min(g));
                assert!(f32::from_bits(greatest.bits) == f.max(g));
            }
        }
    }
}

#[test]
fn rounding_goes_to_even() {
    // 2^24 + 1 lies half way between two numbers.
    assert_eq!(single(16777216.0).plus(single(1.0)), single(16777216.0));
    assert_eq!(single(16777218.0).plus(single(1.0)), single(16777220.0));
    assert_eq!(single(0.1).plus(single(0.2)), single(0.3));
    assert_eq!(single(0.1).times(single(0.1)).bits, 0x3c23_d70b);
}

#[test]
fn zeros_and_infinities() {
    assert_eq!(single(1.0).minus(single(1.0)).bits, 0);
    assert_eq!(single(-0.0).plus(single(-0.0)).bits, 0x8000_0000);
    assert_eq!(single(-0.0).plus(single(0.0)).bits, 0);
    assert_eq!(single(-0.0).times(single(3.0)).bits, 0x8000_0000);
    assert!(single(-0.0).equals(single(0.0)));
    assert!(single(-0.0) != single(0.0));
    assert_eq!(single(f32::MAX).plus(single(f32::MAX)), single(f32::INFINITY));
    assert!(single(f32::INFINITY).minus(single(f32::INFINITY)).is_nan());
    assert!(single(f32::INFINITY).times(single(0.0)).is_nan());
    assert!(!single(f32::NAN).le(single(f32::NAN)));
    assert!(single(-2.0).is_negative());
    assert_eq!(single(2.0).negate(), single(-2.0));
}
