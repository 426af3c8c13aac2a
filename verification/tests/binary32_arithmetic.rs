use gltf_unlit_generator::binary32::Binary32;

fn sample_bits() -> Vec<u32> {
    let mut out: Vec<u32> = vec![
        0x0000_0000, 0x8000_0000, 0x0000_0001, 0x0000_0002, 0x007F_FFFF, 0x0080_0000, 0x0080_0001,
        0x00FF_FFFF, 0x0100_0000, 0x3F00_0000, 0x3F7F_FFFF, 0x3F80_0000, 0x3F80_0001, 0x3FC0_0000,
        0x4000_0000, 0x437F_0000, 0x4380_0000, 0x3B80_8081, 0x3E4C_CCCD, 0x3DCC_CCCD, 0x7F7F_FFFF,
        0x7F00_0000, 0x7F80_0000, 0xFF80_0000, 0x7FC0_0000, 0x7F80_0001, 0x3400_0000, 0x3380_0000,
        0x4B00_0000, 0x4B7F_FFFF, 0x5F00_0000, 0x1F80_0000, 0x2000_0001, 0x0040_0000, 0x3EAA_AAAB,
    ];
    // A fixed pseudo-random walk over the whole range of bit patterns.
    let mut x: u32 = 0x1234_5678;
    for _ in 0..4000 {
        x ^= x << 13;
        x ^= x >> 17;
        x ^= x << 5;
        out.push(x);
    }
    out
}

fn same(ours: Binary32, theirs: f32) -> bool {
    if theirs.is_nan() {
        (ours.to_bits() & 0x7FFF_FFFF) > 0x7F80_0000
    } else {
        ours.to_bits() == theirs.to_bits()
    }
}

#[test]
fn product_agrees_with_hardware() {
    let bits = sample_bits();
    for (i, &a) in bits.iter().enumerate() {
        for &b in bits.iter().skip(i % 7).step_by(7) {
            let ours = Binary32::from_bits(a).mul(Binary32::from_bits(b));
            let theirs = f32::from_bits(a) * f32::from_bits(b);
            assert!(same(ours, theirs), "{:#x} * {:#x}: {:#x} vs {:#x}", a, b, ours.to_bits(), theirs.to_bits());
        }
    }
}

#[test]
fn quotient_agrees_with_hardware() {
    let bits = sample_bits();
    for (i, &a) in bits.iter().enumerate() {
        for &b in bits.iter().skip(i % 11).step_by(11) {
            let ours = Binary32::from_bits(a).div(Binary32::from_bits(b));
            let theirs = f32::from_bits(a) / f32::from_bits(b);
            assert!(same(ours, theirs), "{:#x} / {:#x}: {:#x} vs {:#x}", a, b, ours.to_bits(), theirs.to_bits());
        }
    }
}

#[test]
fn channel_value_agrees_with_hardware() {
    for &a in sample_bits().iter() {
        assert_eq!(Binary32::from_bits(a).to_u8(), f32::from_bits(a) as u8, "{:#x}", a);
    }
    for k in 0..=255u8 {
        assert_eq!(Binary32::from_u8(k).to_bits(), (k as f32).to_bits());
        assert_eq!(Binary32::from_u8(k).to_u8(), k);
    }
}

#[test]
fn scaling_agrees_with_hardware_for_every_channel_value() {
    let factors: [f32; 14] = [
        0.0, 1.0, 0.5, 0.25, 0.2, 0.1, 0.999_999_94, 1.000_000_1, 0.333_333_34, 0.8, 1.5, 2.0,
        0.003_921_569, 254.999_98,
    ];
    for &f in factors.iter() {
        let factor = Binary32::from_bits(f.to_bits());
        for p in 0..=255u8 {
            let ours = Binary32::from_u8(p).mul(factor).to_u8();
            assert_eq!(ours, (p as f32 * f) as u8, "{} * {}", p, f);
        }
    }
}

#[test]
fn conversion_saturates_at_both_ends() {
    assert_eq!(Binary32::from_bits((-3.5f32).to_bits()).to_u8(), 0);
    assert_eq!(Binary32::from_bits((-0.0f32).to_bits()).to_u8(), 0);
    assert_eq!(Binary32::from_bits(0.999f32.to_bits()).to_u8(), 0);
    assert_eq!(Binary32::from_bits(1.0f32.to_bits()).to_u8(), 1);
    assert_eq!(Binary32::from_bits(127.5f32.to_bits()).to_u8(), 127);
    assert_eq!(Binary32::from_bits(254.999f32.to_bits()).to_u8(), 254);
    assert_eq!(Binary32::from_bits(255.0f32.to_bits()).to_u8(), 255);
    assert_eq!(Binary32::from_bits(255.5f32.to_bits()).to_u8(), 255);
    assert_eq!(Binary32::from_bits(256.0f32.to_bits()).to_u8(), 255);
    assert_eq!(Binary32::from_bits(1.0e30f32.to_bits()).to_u8(), 255);
    assert_eq!(Binary32::from_bits(f32::INFINITY.to_bits()).to_u8(), 255);
    assert_eq!(Binary32::from_bits(f32::NEG_INFINITY.to_bits()).to_u8(), 0);
    assert_eq!(Binary32::from_bits(f32::NAN.to_bits()).to_u8(), 0);
}

#[test]
fn invalid_operations_give_not_a_number() {
    let zero = Binary32::from_bits(0);
    let inf = Binary32::from_bits(0x7F80_0000);
    let nan = Binary32::from_bits(0x7FC0_0000);
    assert_eq!(zero.mul(inf), nan);
    assert_eq!(inf.mul(zero), nan);
    assert_eq!(zero.div(zero), nan);
    assert_eq!(inf.div(inf), nan);
    assert_eq!(Binary32::from_bits(0x7F80_0001).mul(Binary32::from_u8(1)), nan);
    assert_eq!(Binary32::from_u8(1).div(zero), inf);
    assert_eq!(Binary32::from_u8(1).div(Binary32::from_bits(0x8000_0000)).to_bits(), 0xFF80_0000);
    assert_eq!(Binary32::from_u8(1).div(inf), zero);
}

#[test]
fn ties_round_to_the_even_significand() {
    // (2^24 + 1) is halfway between two neighbours and goes to the even one, 2^24.
    let a = Binary32::from_bits(0x3F80_0001); // 1 + 2^-23
    let half = Binary32::from_bits(0x3F00_0000);
    let nearly = Binary32::from_bits(0x0080_0001); // smallest normal plus one step
    assert_eq!(nearly.mul(half).to_bits(), (f32::from_bits(0x0080_0001) * 0.5).to_bits());
    assert_eq!(nearly.mul(half).to_bits(), 0x0040_0000);
    let odd = Binary32::from_bits(0x0080_0003);
    assert_eq!(odd.mul(half).to_bits(), 0x0040_0002);
    assert_eq!(a.mul(a).to_bits(), (f32::from_bits(0x3F80_0001) * f32::from_bits(0x3F80_0001)).to_bits());
}

#[test]
fn unit_interval_is_closed_and_holds_both_zeros() {
    assert!(Binary32::from_bits(0.0f32.to_bits()).is_in_unit_interval());
    assert!(Binary32::from_bits((-0.0f32).to_bits()).is_in_unit_interval());
    assert!(Binary32::from_bits(1.0f32.to_bits()).is_in_unit_interval());
    assert!(Binary32::from_bits(0.5f32.to_bits()).is_in_unit_interval());
    assert!(Binary32::from_bits(1.0e-40f32.to_bits()).is_in_unit_interval());
    assert!(!Binary32::from_bits(1.000_000_1f32.to_bits()).is_in_unit_interval());
    assert!(!Binary32::from_bits((-1.0e-40f32).to_bits()).is_in_unit_interval());
    assert!(!Binary32::from_bits((-0.5f32).to_bits()).is_in_unit_interval());
    assert!(!Binary32::from_bits(f32::INFINITY.to_bits()).is_in_unit_interval());
    assert!(!Binary32::from_bits(f32::NAN.to_bits()).is_in_unit_interval());
}

#[test]
fn boundary_values_agree_with_hardware_in_every_pairing() {
    let special: Vec<u32> = sample_bits().into_iter().take(35).collect();
    let mut all = special.clone();
    for &b in special.iter() {
        all.push(b ^ 0x8000_0000);
    }
    for &a in all.iter() {
        for &b in all.iter() {
            let (x, y) = (Binary32::from_bits(a), Binary32::from_bits(b));
            let (fx, fy) = (f32::from_bits(a), f32::from_bits(b));
            assert!(same(x.mul(y), fx * fy), "{:#x} * {:#x}", a, b);
            assert!(same(x.div(y), fx / fy), "{:#x} / {:#x}", a, b);
        }
    }
}

#[test]
fn results_below_the_smallest_number_round_to_zero_or_to_it() {
    let tiny = Binary32::from_bits(1);
    assert_eq!(tiny.mul(Binary32::from_bits(0.5f32.to_bits())).to_bits(), 0);
    assert_eq!(tiny.mul(Binary32::from_bits(0.75f32.to_bits())).to_bits(), 1);
    assert_eq!(tiny.mul(Binary32::from_bits(0.25f32.to_bits())).to_bits(), 0);
    assert_eq!(tiny.mul(Binary32::from_bits(1.5f32.to_bits())).to_bits(), 2);
    assert_eq!(tiny.div(Binary32::from_bits(1.0e30f32.to_bits())).to_bits(), 0);
    assert_eq!(tiny.mul(tiny).to_bits(), 0);
    let largest = Binary32::from_bits(0x7F7F_FFFF);
    assert_eq!(largest.mul(Binary32::from_bits(2.0f32.to_bits())).to_bits(), 0x7F80_0000);
    assert_eq!(largest.div(tiny).to_bits(), 0x7F80_0000);
    assert_eq!(largest.mul(Binary32::from_bits(0x3F80_0001)).to_bits(), 0x7F80_0000);
    assert_eq!(
        largest.mul(Binary32::from_bits(0xBF80_0001)).to_bits(),
        (f32::MAX * f32::from_bits(0xBF80_0001)).to_bits()
    );
}
