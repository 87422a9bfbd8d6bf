use rt_builtins::float::conv::{
    __fixdfdi, __fixdfsi, __fixsfdi, __fixsfsi, __fixunsdfdi, __fixunsdfsi, __fixunssfdi,
    __fixunssfsi, __floatdidf, __floatsidf, __floatsisf, __floatundidf, __floatunsidf,
    __floatunsisf, float_to_int, int_to_float,
};
use rt_builtins::float::Format;

/// A small deterministic generator of 64-bit values.
struct Lcg(u64);

impl Lcg {
    fn next(&mut self) -> u64 {
        self.0 = self.0.wrapping_mul(6364136223846793005).wrapping_add(1442695040888963407);
        let x = self.0;
        // vary the magnitude as well as the bits
        x >> ((x >> 58) as u32)
    }
}

fn interesting_u64() -> Vec<u64> {
    let mut v = vec![0, 1, 2, 3, u64::MAX, u64::MAX - 1, 1 << 63, (1 << 63) - 1];
    for k in 0..64u32 {
        let p = 1u64 << k;
        for d in [0u64, 1, 2, 3] {
            v.push(p.wrapping_add(d));
            v.push(p.wrapping_sub(d));
            v.push(p.wrapping_add(p >> 1).wrapping_add(d));
            v.push(p.wrapping_add(p >> 1).wrapping_sub(d));
        }
    }
    let mut g = Lcg(0x9e37_79b9_7f4a_7c15);
    for _ in 0..20_000 {
        v.push(g.next());
    }
    v
}

fn interesting_f32_bits() -> Vec<u32> {
    let mut v = vec![
        0x0000_0000, 0x8000_0000, 0x0000_0001, 0x8000_0001, 0x007f_ffff, 0x0080_0000,
        0x3f00_0000, 0x3f7f_ffff, 0x3f80_0000, 0xbf80_0000, 0x3fc0_0000, 0x4000_0000,
        0x4eff_ffff, 0x4f00_0000, 0xcf00_0000, 0xcf00_0001, 0x4f7f_ffff, 0x4f80_0000,
        0x5eff_ffff, 0x5f00_0000, 0xdf00_0000, 0xdf00_0001, 0x5f7f_ffff, 0x5f80_0000,
        0x7f7f_ffff, 0xff7f_ffff, 0x7f80_0000, 0xff80_0000,
    ];
    let mut g = Lcg(0x1234_5678_9abc_def1);
    for _ in 0..20_000 {
        v.push(g.0 as u32 ^ (g.next() as u32));
    }
    v.retain(|b| !f32::from_bits(*b).is_nan());
    v
}

fn interesting_f64_bits() -> Vec<u64> {
    let mut v = vec![
        0x0000_0000_0000_0000, 0x8000_0000_0000_0000, 0x0000_0000_0000_0001, 0x000f_ffff_ffff_ffff,
        0x0010_0000_0000_0000, 0x3fe0_0000_0000_0000, 0x3fef_ffff_ffff_ffff, 0x3ff0_0000_0000_0000,
        0xbff0_0000_0000_0000, 0x3ff8_0000_0000_0000, 0x41df_ffff_ffc0_0000, 0x41e0_0000_0000_0000,
        0xc1e0_0000_0000_0000, 0xc1e0_0000_0020_0000, 0x41ef_ffff_ffe0_0000, 0x41f0_0000_0000_0000,
        0x43df_ffff_ffff_ffff, 0x43e0_0000_0000_0000, 0xc3e0_0000_0000_0000, 0xc3e0_0000_0000_0001,
        0x43ef_ffff_ffff_ffff, 0x43f0_0000_0000_0000, 0x7fef_ffff_ffff_ffff, 0xffef_ffff_ffff_ffff,
        0x7ff0_0000_0000_0000, 0xfff0_0000_0000_0000,
    ];
    for x in interesting_f32_bits() {
        v.push((f32::from_bits(x) as f64).to_bits());
    }
    let mut g = Lcg(0x0fed_cba9_8765_4321);
    for _ in 0..20_000 {
        let hi = g.next();
        v.push(g.0 ^ (hi << 32));
    }
    v.retain(|b| !f64::from_bits(*b).is_nan());
    v
}

#[test]
fn floatsisf_matches_native() {
    for x in interesting_u64() {
        let i = x as i32;
        assert_eq!(__floatsisf(i), (i as f32).to_bits(), "i = {}", i);
    }
}

#[test]
fn floatsidf_matches_native() {
    for x in interesting_u64() {
        let i = x as i32;
        assert_eq!(__floatsidf(i), (i as f64).to_bits(), "i = {}", i);
    }
}

#[test]
fn floatdidf_matches_native() {
    for x in interesting_u64() {
        let i = x as i64;
        assert_eq!(__floatdidf(i), (i as f64).to_bits(), "i = {}", i);
    }
}

#[test]
fn floatunsisf_matches_native() {
    for x in interesting_u64() {
        let i = x as u32;
        assert_eq!(__floatunsisf(i), (i as f32).to_bits(), "i = {}", i);
    }
}

#[test]
fn floatunsidf_matches_native() {
    for x in interesting_u64() {
        let i = x as u32;
        assert_eq!(__floatunsidf(i), (i as f64).to_bits(), "i = {}", i);
    }
}

#[test]
fn floatundidf_matches_native() {
    for i in interesting_u64() {
        assert_eq!(__floatundidf(i), (i as f64).to_bits(), "i = {}", i);
    }
}

#[test]
fn wide_integers_to_single_match_native() {
    for x in interesting_u64() {
        assert_eq!(
            int_to_float(x, Format::Binary32),
            (x as f32).to_bits() as u64,
            "x = {}",
            x
        );
        let i = x as i64;
        assert_eq!(
            int_to_float(i, Format::Binary32),
            (i as f32).to_bits() as u64,
            "i = {}",
            i
        );
    }
}

#[test]
fn fixsfsi_matches_native() {
    for b in interesting_f32_bits() {
        assert_eq!(__fixsfsi(b), f32::from_bits(b) as i32, "bits = {:#x}", b);
    }
}

#[test]
fn fixsfdi_matches_native() {
    for b in interesting_f32_bits() {
        assert_eq!(__fixsfdi(b), f32::from_bits(b) as i64, "bits = {:#x}", b);
    }
}

#[test]
fn fixdfsi_matches_native() {
    for b in interesting_f64_bits() {
        assert_eq!(__fixdfsi(b), f64::from_bits(b) as i32, "bits = {:#x}", b);
    }
}

#[test]
fn fixdfdi_matches_native() {
    for b in interesting_f64_bits() {
        assert_eq!(__fixdfdi(b), f64::from_bits(b) as i64, "bits = {:#x}", b);
    }
}

#[test]
fn fixunssfsi_matches_native() {
    for b in interesting_f32_bits() {
        assert_eq!(__fixunssfsi(b), f32::from_bits(b) as u32, "bits = {:#x}", b);
    }
}

#[test]
fn fixunssfdi_matches_native() {
    for b in interesting_f32_bits() {
        assert_eq!(__fixunssfdi(b), f32::from_bits(b) as u64, "bits = {:#x}", b);
    }
}

#[test]
fn fixunsdfsi_matches_native() {
    for b in interesting_f64_bits() {
        assert_eq!(__fixunsdfsi(b), f64::from_bits(b) as u32, "bits = {:#x}", b);
    }
}

#[test]
fn fixunsdfdi_matches_native() {
    for b in interesting_f64_bits() {
        assert_eq!(__fixunsdfdi(b), f64::from_bits(b) as u64, "bits = {:#x}", b);
    }
}

#[test]
fn zero_converts_to_positive_zero() {
    assert_eq!(__floatsisf(0), 0);
    assert_eq!(__floatsidf(0), 0);
    assert_eq!(__floatdidf(0), 0);
    assert_eq!(__floatunsisf(0), 0);
    assert_eq!(__floatunsidf(0), 0);
    assert_eq!(__floatundidf(0), 0);
}

#[test]
fn largest_i32_rounds_up_in_single_precision() {
    assert_eq!(f32::from_bits(__floatsisf(2147483647)), 2147483648.0f32);
    assert_eq!(__floatsisf(2147483647), 0x4f00_0000);
}

#[test]
fn exact_patterns_of_small_integers() {
    assert_eq!(__floatsisf(1), 0x3f80_0000);
    assert_eq!(__floatsisf(-1), 0xbf80_0000);
    assert_eq!(__floatsisf(3), 0x4040_0000);
    assert_eq!(__floatsidf(1), 0x3ff0_0000_0000_0000);
    assert_eq!(__floatsidf(-2), 0xc000_0000_0000_0000);
    assert_eq!(__floatunsidf(u32::MAX), 0x41ef_ffff_ffe0_0000);
    assert_eq!(__floatsidf(i32::MIN), 0xc1e0_0000_0000_0000);
    assert_eq!(__floatdidf(i64::MIN), 0xc3e0_0000_0000_0000);
    assert_eq!(__floatundidf(u64::MAX), 0x43f0_0000_0000_0000);
}

#[test]
fn ties_round_to_even_for_both_signs() {
    // 2^24 + 1 lies halfway between 2^24 and 2^24 + 2
    assert_eq!(f32::from_bits(__floatsisf(16_777_217)), 16_777_216.0);
    assert_eq!(f32::from_bits(__floatsisf(-16_777_217)), -16_777_216.0);
    // 2^24 + 3 lies halfway between 2^24 + 2 and 2^24 + 4
    assert_eq!(f32::from_bits(__floatsisf(16_777_219)), 16_777_220.0);
    assert_eq!(f32::from_bits(__floatsisf(-16_777_219)), -16_777_220.0);
    assert_eq!(__floatsisf(16_777_217) & 1, 0);
    assert_eq!(__floatsisf(-16_777_217) & 1, 0);
    assert_eq!(__floatsisf(16_777_219) & 1, 0);
    assert_eq!(__floatsisf(-16_777_219) & 1, 0);
    // one above and one below a tie do not round to even
    assert_eq!(f32::from_bits(__floatunsisf(0x0200_0003)), 33_554_436.0);
    assert_eq!(f32::from_bits(__floatunsisf(0x0200_0001)), 33_554_432.0);
    // 2^53 + 1 and 2^53 + 3 in double precision
    assert_eq!(f64::from_bits(__floatdidf((1 << 53) + 1)), 9_007_199_254_740_992.0);
    assert_eq!(f64::from_bits(__floatdidf(-((1 << 53) + 1))), -9_007_199_254_740_992.0);
    assert_eq!(f64::from_bits(__floatdidf((1 << 53) + 3)), 9_007_199_254_740_996.0);
    assert_eq!(__floatundidf((1 << 53) + 3) & 1, 0);
}

#[test]
fn round_trip_is_exact_where_the_integer_fits() {
    let mut g = Lcg(7);
    for _ in 0..20_000 {
        let x = g.next();
        let i = x as i32;
        assert_eq!(__fixdfsi(__floatsidf(i)), i);
        let u = x as u32;
        assert_eq!(__fixunsdfsi(__floatunsidf(u)), u);
        // 24 bits fit single precision
        let s = (x as i32) >> 8;
        assert_eq!(__fixsfsi(__floatsisf(s)), s);
        let t = (x as u32) >> 8;
        assert_eq!(__fixunssfsi(__floatunsisf(t)), t);
        // 53 bits fit double precision
        let l = (x as i64) >> 11;
        assert_eq!(__fixdfdi(__floatdidf(l)), l);
        let m = x >> 11;
        assert_eq!(__fixunsdfdi(__floatundidf(m)), m);
    }
}

#[test]
fn round_trip_gives_the_rounded_integer_within_range() {
    assert_eq!(__fixsfsi(__floatsisf(16_777_217)), 16_777_216);
    assert_eq!(__fixsfsi(__floatsisf(16_777_219)), 16_777_220);
    assert_eq!(__fixsfsi(__floatsisf(-16_777_219)), -16_777_220);
    assert_eq!(__fixdfdi(__floatdidf((1 << 53) + 1)), 1 << 53);
    // the rounded value 2^31 is beyond the range: the result saturates
    assert_eq!(__fixsfsi(__floatsisf(i32::MAX)), i32::MAX);
    assert_eq!(__fixunssfsi(__floatunsisf(u32::MAX)), u32::MAX);
    assert_eq!(__fixdfdi(__floatdidf(i64::MAX)), i64::MAX);
    assert_eq!(__fixunsdfdi(__floatundidf(u64::MAX)), u64::MAX);
}

#[test]
fn infinities_saturate() {
    let inf32 = f32::INFINITY.to_bits();
    let ninf32 = f32::NEG_INFINITY.to_bits();
    let inf64 = f64::INFINITY.to_bits();
    let ninf64 = f64::NEG_INFINITY.to_bits();
    assert_eq!(__fixsfsi(inf32), i32::MAX);
    assert_eq!(__fixsfsi(ninf32), i32::MIN);
    assert_eq!(__fixsfdi(inf32), i64::MAX);
    assert_eq!(__fixsfdi(ninf32), i64::MIN);
    assert_eq!(__fixdfsi(inf64), i32::MAX);
    assert_eq!(__fixdfsi(ninf64), i32::MIN);
    assert_eq!(__fixdfdi(inf64), i64::MAX);
    assert_eq!(__fixdfdi(ninf64), i64::MIN);
    assert_eq!(__fixunssfsi(inf32), u32::MAX);
    assert_eq!(__fixunssfsi(ninf32), 0);
    assert_eq!(__fixunssfdi(inf32), u64::MAX);
    assert_eq!(__fixunssfdi(ninf32), 0);
    assert_eq!(__fixunsdfsi(inf64), u32::MAX);
    assert_eq!(__fixunsdfsi(ninf64), 0);
    assert_eq!(__fixunsdfdi(inf64), u64::MAX);
    assert_eq!(__fixunsdfdi(ninf64), 0);
}

#[test]
fn values_beyond_the_range_saturate() {
    assert_eq!(__fixsfsi(2147483648.0f32.to_bits()), i32::MAX);
    assert_eq!(__fixsfsi(3.0e9f32.to_bits()), i32::MAX);
    assert_eq!(__fixsfsi((-3.0e9f32).to_bits()), i32::MIN);
    assert_eq!(__fixsfsi((-2147483648.0f32).to_bits()), i32::MIN);
    assert_eq!(__fixdfsi(2147483647.5f64.to_bits()), i32::MAX);
    assert_eq!(__fixdfsi(2147483648.0f64.to_bits()), i32::MAX);
    assert_eq!(__fixdfsi((-2147483648.5f64).to_bits()), i32::MIN);
    assert_eq!(__fixdfsi((-2147483649.0f64).to_bits()), i32::MIN);
    assert_eq!(__fixunssfsi(4294967296.0f32.to_bits()), u32::MAX);
    assert_eq!(__fixunsdfsi(4294967295.5f64.to_bits()), u32::MAX);
    assert_eq!(__fixunsdfsi(1.0e300f64.to_bits()), u32::MAX);
    assert_eq!(__fixdfdi(1.0e19f64.to_bits()), i64::MAX);
    assert_eq!(__fixdfdi((-1.0e19f64).to_bits()), i64::MIN);
    assert_eq!(__fixunsdfdi(1.0e20f64.to_bits()), u64::MAX);
    assert_eq!(__fixsfdi(f32::MAX.to_bits()), i64::MAX);
    assert_eq!(__fixunssfdi(f32::MAX.to_bits()), u64::MAX);
}

#[test]
fn negative_values_give_zero_in_unsigned_types() {
    assert_eq!(__fixunssfsi((-1.0f32).to_bits()), 0);
    assert_eq!(__fixunssfdi((-1.0f32).to_bits()), 0);
    assert_eq!(__fixunsdfsi((-1.0f64).to_bits()), 0);
    assert_eq!(__fixunsdfdi((-1.0f64).to_bits()), 0);
    assert_eq!(__fixunssfsi((-123456.0f32).to_bits()), 0);
    assert_eq!(__fixunsdfdi((-0.0f64).to_bits()), 0);
}

#[test]
fn fractions_are_truncated_toward_zero() {
    assert_eq!(__fixsfsi(0.99f32.to_bits()), 0);
    assert_eq!(__fixsfsi((-0.99f32).to_bits()), 0);
    assert_eq!(__fixsfsi(1.5f32.to_bits()), 1);
    assert_eq!(__fixsfsi((-1.5f32).to_bits()), -1);
    assert_eq!(__fixsfsi(2.999f32.to_bits()), 2);
    assert_eq!(__fixdfsi((-2.999f64).to_bits()), -2);
    assert_eq!(__fixdfdi(1234567.875f64.to_bits()), 1234567);
    assert_eq!(__fixunsdfdi(0.5f64.to_bits()), 0);
    assert_eq!(__fixunssfsi(255.75f32.to_bits()), 255);
    assert_eq!(__fixsfsi(f32::MIN_POSITIVE.to_bits()), 0);
    assert_eq!(__fixdfsi(1), 0);
}

#[test]
fn generic_conversions_agree_with_the_typed_ones() {
    for x in interesting_u64() {
        let i = x as i32;
        assert_eq!(int_to_float(i, Format::Binary32), __floatsisf(i) as u64);
        assert_eq!(int_to_float(x, Format::Binary64), __floatundidf(x));
    }
    for b in interesting_f32_bits() {
        let r: i32 = float_to_int(b as u64, Format::Binary32);
        assert_eq!(r, __fixsfsi(b));
        let u: u64 = float_to_int(b as u64, Format::Binary32);
        assert_eq!(u, __fixunssfdi(b));
    }
}
