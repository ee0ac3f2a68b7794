use yunet_stream::binary32::Binary32;

fn b(x: f32) -> Binary32 {
    Binary32::from_bits(x.to_bits())
}

/// Equal bits, or both not a number.
fn same(ours: Binary32, machine: f32) -> bool {
    if machine.is_nan() {
        ours.not_a_number()
    } else {
        ours.bits == machine.to_bits()
    }
}

fn edge_cases() -> Vec<f32> {
    vec![
        0.0,
        -0.0,
        1.0,
        -1.0,
        0.5,
        1.5,
        2.0,
        0.1,
        0.2,
        0.15,
        1.0 / 3.0,
        320.0,
        16777215.0,
        16777216.0,
        16777217.0,
        2147483647.0,
        -2147483648.0,
        4294967296.0,
        1e10,
        -1e10,
        1e-10,
        f32::MIN_POSITIVE,
        f32::EPSILON,
        f32::MAX,
        f32::MIN,
        f32::INFINITY,
        f32::NEG_INFINITY,
        f32::NAN,
        f32::from_bits(1),
        f32::from_bits(2),
        f32::from_bits(0x007f_ffff),
        f32::from_bits(0x0080_0001),
        f32::from_bits(0x8000_0001),
        f32::from_bits(0x7f7f_fffe),
        f32::from_bits(0x3f80_0001),
        f32::from_bits(0x3f7f_ffff),
        f32::from_bits(0x4b00_0001),
        f32::from_bits(0x3380_0000),
        f32::from_bits(0x3380_0001),
    ]
}

fn samples() -> Vec<f32> {
    let mut all = edge_cases();
    let mut state: u64 = 0x9e37_79b9_7f4a_7c15;
    for _ in 0..400 {
        state = state.wrapping_mul(6364136223846793005).wrapping_add(1442695040888963407);
        all.push(f32::from_bits((state >> 32) as u32));
    }
    for i in 0..200u32 {
        state = state.wrapping_mul(6364136223846793005).wrapping_add(1442695040888963407);
        // Numbers whose exponents lie close together, so that they interact.
        all.push(f32::from_bits((((110 + i % 40) << 23) | ((state >> 41) as u32)) ^ ((i & 1) << 31)));
    }
    all
}

#[test]
fn sums_match_the_machine() {
    let all = samples();
    for &x in &all {
        for &y in &all {
            assert!(same(b(x).plus(b(y)), x + y), "{:?} + {:?}", x, y);
            assert!(same(b(x).minus(b(y)), x - y), "{:?} - {:?}", x, y);
        }
    }
}

#[test]
fn products_match_the_machine() {
    let all = samples();
    for &x in &all {
        for &y in &all {
            assert!(same(b(x).times(b(y)), x * y), "{:?} * {:?}", x, y);
        }
    }
}

#[test]
fn quotients_match_the_machine() {
    let all = samples();
    for &x in &all {
        for &y in &all {
            assert!(same(b(x).over(b(y)), x / y), "{:?} / {:?}", x, y);
        }
    }
}

#[test]
fn comparisons_match_the_machine() {
    let all = samples();
    for &x in &all {
        for &y in &all {
            assert_eq!(b(x).less_than(b(y)), x < y, "{:?} < {:?}", x, y);
        }
    }
}

#[test]
fn unary_operations_match_the_machine() {
    for &x in &samples() {
        assert!(same(b(x).root(), x.sqrt()), "sqrt {:?}", x);
        assert!(same(b(x).negated(), -x), "-{:?}", x);
        assert_eq!(b(x).to_i32(), x as i32, "{:?} as i32", x);
        assert_eq!(b(x).ceil_to_i32(), x.ceil() as i32, "ceil {:?}", x);
        assert!(same(b(x).clamp(b(0.0), b(1.0)), x.clamp(0.0, 1.0)), "clamp {:?}", x);
    }
}

#[test]
fn integers_convert_as_the_machine_does() {
    let mut state: u64 = 1;
    for _ in 0..2000 {
        state = state.wrapping_mul(6364136223846793005).wrapping_add(1442695040888963407);
        let v = (state >> 32) as u32 as i32;
        assert!(same(Binary32::from_i32(v), v as f32), "{}", v);
    }
    for v in [0, 1, -1, 255, 16777215, 16777216, 16777217, 16777219, -16777217, i32::MAX, i32::MIN] {
        assert!(same(Binary32::from_i32(v), v as f32), "{}", v);
    }
}

#[test]
fn exact_bits_of_known_results() {
    assert_eq!(Binary32::from_i32(1).bits, 0x3f80_0000);
    assert_eq!(Binary32::from_i32(-320).bits, 0xc3a0_0000);
    assert_eq!(b(0.1).plus(b(0.2)).bits, 0x3e99_999a);
    assert_eq!(b(1.0).over(b(3.0)).bits, 0x3eaa_aaab);
    assert_eq!(b(2.0).root().bits, 0x3fb5_04f3);
    assert_eq!(b(-1.0).root().bits, 0x7fc0_0000);
}

#[test]
fn zero_and_one_change_nothing() {
    for x in samples() {
        if !x.is_nan() {
            assert_eq!(b(x).times(b(1.0)).bits, x.to_bits());
            if x.to_bits() != 0x8000_0000 {
                assert_eq!(b(x).plus(b(0.0)).bits, x.to_bits());
                assert_eq!(b(x).plus(b(-0.0)).bits, x.to_bits());
            }
            if x.is_finite() {
                assert_eq!(b(x).times(b(0.0)).bits % 0x8000_0000, 0);
            }
        }
    }
}

#[test]
fn short_integers_are_kept() {
    for v in [0, 1, -1, 7, -320, 0xff_ffff, -0xff_ffff, 0x100_0000, -0x100_0000] {
        assert_eq!(Binary32::from_i32(v).to_i32(), v);
        if v != 0 {
            assert_eq!(Binary32::from_i32(v).over(Binary32::from_i32(v)).bits, 1.0f32.to_bits());
        }
    }
    // One binary digit more is rounded.
    assert_eq!(Binary32::from_i32(0x100_0001).to_i32(), 0x100_0000);
}
