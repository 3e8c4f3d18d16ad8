use light_mixer::binary32::Binary32;

/// Bit patterns from all over the range, with many near its edges.
fn patterns() -> Vec<u32> {
    let mut v: Vec<u32> = vec![
        0,
        0x8000_0000,
        1,
        0x8000_0001,
        0x007f_ffff,
        0x0080_0000,
        0x0080_0001,
        0x3f80_0000,
        0xbf80_0000,
        0x3f7f_ffff,
        0x3f80_0001,
        0x4b7f_ffff,
        0x4b80_0000,
        0x4b80_0001,
        0x5f00_0000,
        0x7f7f_ffff,
        0xff7f_ffff,
        0x7f80_0000,
        0xff80_0000,
        0x7fc0_0000,
        0x7f80_0001,
        0xffc0_1234,
    ];
    for x in [0.05f32, 0.1, 0.5, 1.5, 2.5, 6.0, 8.0, 20.0, 0.125, 450.0, 639.99, 1e-20, 1e20] {
        v.push(x.to_bits());
        v.push((-x).to_bits());
    }
    let mut seed: u64 = 0x1234_5678_9abc_def1;
    for i in 0..500u64 {
        seed = seed.wrapping_mul(6364136223846793005).wrapping_add(1442695040888963407 + i);
        v.push((seed >> 32) as u32);
        // Exponents close to one another, so that sums and differences cancel.
        v.push(0x3f00_0000 + ((seed >> 20) as u32 & 0x0fff_ffff) / 16);
    }
    v
}

fn same(ours: Binary32, theirs: f32) -> bool {
    if theirs.is_nan() {
        ours.to_bits() == 0x7fc0_0000
    } else {
        ours.to_bits() == theirs.to_bits()
    }
}

#[test]
fn sums_are_those_of_the_machine() {
    let v = patterns();
    for &a in &v {
        for &b in &v {
            let (x, y) = (f32::from_bits(a), f32::from_bits(b));
            let (p, q) = (Binary32::from_bits(a), Binary32::from_bits(b));
            assert!(same(p.plus(q), x + y), "{:?} + {:?}", x, y);
            assert!(same(p.minus(q), x - y), "{:?} - {:?}", x, y);
        }
    }
}

#[test]
fn products_are_those_of_the_machine() {
    let v = patterns();
    for &a in &v {
        for &b in &v {
            let (x, y) = (f32::from_bits(a), f32::from_bits(b));
            let (p, q) = (Binary32::from_bits(a), Binary32::from_bits(b));
            assert!(same(p.times(q), x * y), "{:?} * {:?}", x, y);
        }
    }
}

#[test]
fn quotients_are_those_of_the_machine() {
    let v = patterns();
    for &a in &v {
        for &b in &v {
            let (x, y) = (f32::from_bits(a), f32::from_bits(b));
            let (p, q) = (Binary32::from_bits(a), Binary32::from_bits(b));
            assert!(same(p.over(q), x / y), "{:?} / {:?}", x, y);
        }
    }
}

#[test]
fn comparisons_are_those_of_the_machine() {
    let v = patterns();
    for &a in &v {
        for &b in &v {
            let (x, y) = (f32::from_bits(a), f32::from_bits(b));
            let (p, q) = (Binary32::from_bits(a), Binary32::from_bits(b));
            assert_eq!(p.lt(q), x < y);
            if x != y {
                // Of two zeros the machine may give either.
                assert_eq!(p.max(q).to_bits(), if x.is_nan() { b } else { x.max(y).to_bits() });
                assert_eq!(p.min(q).to_bits(), if x.is_nan() { b } else { x.min(y).to_bits() });
            }
        }
    }
}

#[test]
fn roots_and_conversions_are_those_of_the_machine() {
    for &a in &patterns() {
        let x = f32::from_bits(a);
        let p = Binary32::from_bits(a);
        assert!(same(p.sqrt(), x.sqrt()), "sqrt {:?}", x);
        assert_eq!(p.to_usize(), x as usize, "{:?}", x);
        assert_eq!(p.round_to_usize(), x.round() as usize, "{:?}", x);
        assert_eq!(p.negate().to_bits(), (-x).to_bits());
        assert_eq!(p.not_a_number(), x.is_nan());
        let n = ((a as u64) << (a % 33)) as usize;
        assert!(same(Binary32::from_usize(n), n as f32), "{}", n);
    }
}

#[test]
fn exact_results() {
    let half = Binary32::from_bits(0x3f00_0000);
    let one = Binary32::one();
    assert_eq!(half.plus(half), one);
    assert_eq!(one.minus(one), Binary32::zero());
    assert_eq!(half.times(half).to_bits(), 0x3e80_0000);
    assert_eq!(one.over(Binary32::from_usize(3)).to_bits(), 0x3eaa_aaab);
    assert_eq!(Binary32::from_usize(2).sqrt().to_bits(), 0x3fb5_04f3);
    assert_eq!(Binary32::from_bits(0x4020_0000).round_to_usize(), 3);
    assert_eq!(Binary32::from_bits(0x4020_0000).to_usize(), 2);
    // Halves go to the even neighbour.
    assert_eq!(Binary32::from_usize(16_777_217).to_bits(), 0x4b80_0000);
    assert_eq!(Binary32::from_usize(16_777_219).to_bits(), 0x4b80_0002);
}
