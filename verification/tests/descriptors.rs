use rt_builtins::float::Format;
use rt_builtins::integer::{Int, LargeInt};

#[test]
fn integer_widths() {
    assert_eq!(<u32 as Int>::bits(), 32);
    assert_eq!(<i32 as Int>::bits(), 32);
    assert_eq!(<u64 as Int>::bits(), 64);
    assert_eq!(<i64 as Int>::bits(), 64);
}

#[test]
fn integer_signedness_and_limits() {
    assert!(!<u32 as Int>::signed());
    assert!(<i32 as Int>::signed());
    assert!(!<u64 as Int>::signed());
    assert!(<i64 as Int>::signed());
    assert_eq!(<u32 as Int>::lowest(), u32::MIN);
    assert_eq!(<u32 as Int>::highest(), u32::MAX);
    assert_eq!(<i32 as Int>::lowest(), i32::MIN);
    assert_eq!(<i32 as Int>::highest(), i32::MAX);
    assert_eq!(<u64 as Int>::lowest(), u64::MIN);
    assert_eq!(<u64 as Int>::highest(), u64::MAX);
    assert_eq!(<i64 as Int>::lowest(), i64::MIN);
    assert_eq!(<i64 as Int>::highest(), i64::MAX);
}

#[test]
fn sign_and_magnitude() {
    assert!(Int::negative(-5i32));
    assert!(!Int::negative(5i32));
    assert!(!Int::negative(0i64));
    assert!(!Int::negative(u32::MAX));
    assert_eq!(Int::magnitude(-5i32), 5);
    assert_eq!(Int::magnitude(5i32), 5);
    assert_eq!(Int::magnitude(i32::MIN), 0x8000_0000);
    assert_eq!(Int::magnitude(i32::MAX), 0x7fff_ffff);
    assert_eq!(Int::magnitude(i64::MIN), 0x8000_0000_0000_0000);
    assert_eq!(Int::magnitude(-1i64), 1);
    assert_eq!(Int::magnitude(u32::MAX), 0xffff_ffff);
    assert_eq!(Int::magnitude(u64::MAX), u64::MAX);
    assert_eq!(<i32 as Int>::from_sign_magnitude(true, 5), -5);
    assert_eq!(<i32 as Int>::from_sign_magnitude(false, 5), 5);
    assert_eq!(<i32 as Int>::from_sign_magnitude(true, 0x8000_0000), i32::MIN);
    assert_eq!(<i32 as Int>::from_sign_magnitude(true, 0), 0);
    assert_eq!(<i64 as Int>::from_sign_magnitude(true, 1 << 63), i64::MIN);
    assert_eq!(<i64 as Int>::from_sign_magnitude(true, 77), -77);
    assert_eq!(<u32 as Int>::from_sign_magnitude(false, 0xffff_ffff), u32::MAX);
    assert_eq!(<u64 as Int>::from_sign_magnitude(false, u64::MAX), u64::MAX);
}

#[test]
fn sign_and_magnitude_round_trip() {
    for i in [i32::MIN, i32::MIN + 1, -2, -1, 0, 1, 2, i32::MAX - 1, i32::MAX] {
        assert_eq!(
            <i32 as Int>::from_sign_magnitude(Int::negative(i), Int::magnitude(i)),
            i
        );
    }
    for i in [i64::MIN, i64::MIN + 1, -2, -1, 0, 1, 2, i64::MAX - 1, i64::MAX] {
        assert_eq!(
            <i64 as Int>::from_sign_magnitude(Int::negative(i), Int::magnitude(i)),
            i
        );
    }
}

#[test]
fn halves_of_unsigned() {
    let x = 0x1234_5678_9abc_def0u64;
    assert_eq!(LargeInt::low(x), 0x9abc_def0u32);
    assert_eq!(LargeInt::high(x), 0x1234_5678u32);
    assert_eq!(<u64 as LargeInt>::from_parts(0x9abc_def0, 0x1234_5678), x);
    assert_eq!(LargeInt::low(u64::MAX), u32::MAX);
    assert_eq!(LargeInt::high(u64::MAX), u32::MAX);
    assert_eq!(<u64 as LargeInt>::from_parts(0, 1), 1 << 32);
}

#[test]
fn halves_of_signed() {
    let x = -2i64;
    assert_eq!(LargeInt::low(x), 0xffff_fffeu32);
    assert_eq!(LargeInt::high(x), -1i32);
    assert_eq!(<i64 as LargeInt>::from_parts(0xffff_fffe, -1), -2);
    assert_eq!(LargeInt::low(i64::MIN), 0);
    assert_eq!(LargeInt::high(i64::MIN), i32::MIN);
    assert_eq!(LargeInt::high(i64::MAX), i32::MAX);
    assert_eq!(LargeInt::low(i64::MAX), u32::MAX);
    assert_eq!(<i64 as LargeInt>::from_parts(5, 0), 5);
    assert_eq!(<i64 as LargeInt>::from_parts(0, -1), -(1i64 << 32));
}

#[test]
fn halves_round_trip() {
    let mut x = 0x0123_4567_89ab_cdefu64;
    for _ in 0..1000 {
        x = x.wrapping_mul(6364136223846793005).wrapping_add(1442695040888963407);
        assert_eq!(
            <u64 as LargeInt>::from_parts(LargeInt::low(x), LargeInt::high(x)),
            x
        );
        let i = x as i64;
        assert_eq!(
            <i64 as LargeInt>::from_parts(LargeInt::low(i), LargeInt::high(i)),
            i
        );
        let l = x as u32;
        let h = (x >> 32) as u32;
        assert_eq!(LargeInt::low(<u64 as LargeInt>::from_parts(l, h)), l);
        assert_eq!(LargeInt::high(<u64 as LargeInt>::from_parts(l, h)), h);
        let sh = h as i32;
        assert_eq!(LargeInt::low(<i64 as LargeInt>::from_parts(l, sh)), l);
        assert_eq!(LargeInt::high(<i64 as LargeInt>::from_parts(l, sh)), sh);
    }
}

#[test]
fn layout_of_single_precision() {
    let f = Format::Binary32;
    assert_eq!(f.bits(), 32);
    assert_eq!(f.significand_bits(), 23);
    assert_eq!(f.exponent_bits(), 8);
    assert_eq!(f.exponent_max(), 255);
    assert_eq!(f.exponent_bias(), 127);
    assert_eq!(f.sign_mask(), 0x8000_0000);
    assert_eq!(f.significand_mask(), 0x007f_ffff);
    assert_eq!(f.implicit_bit(), 0x0080_0000);
    assert_eq!(f.exponent_mask(), 0x7f80_0000);
}

#[test]
fn layout_of_double_precision() {
    let f = Format::Binary64;
    assert_eq!(f.bits(), 64);
    assert_eq!(f.significand_bits(), 52);
    assert_eq!(f.exponent_bits(), 11);
    assert_eq!(f.exponent_max(), 2047);
    assert_eq!(f.exponent_bias(), 1023);
    assert_eq!(f.sign_mask(), 0x8000_0000_0000_0000);
    assert_eq!(f.significand_mask(), 0x000f_ffff_ffff_ffff);
    assert_eq!(f.implicit_bit(), 0x0010_0000_0000_0000);
    assert_eq!(f.exponent_mask(), 0x7ff0_0000_0000_0000);
}

#[test]
fn from_parts_composes_the_fields() {
    assert_eq!(Format::Binary32.from_parts(false, 127, 0), 1.0f32.to_bits() as u64);
    assert_eq!(Format::Binary32.from_parts(true, 127, 0), (-1.0f32).to_bits() as u64);
    assert_eq!(
        Format::Binary32.from_parts(false, 128, 0x40_0000),
        3.0f32.to_bits() as u64
    );
    assert_eq!(Format::Binary64.from_parts(false, 1023, 0), 1.0f64.to_bits());
    assert_eq!(
        Format::Binary64.from_parts(true, 1024, 0x8_0000_0000_0000),
        (-3.0f64).to_bits()
    );
    assert_eq!(
        Format::Binary32.from_parts(false, 255, 0),
        f32::INFINITY.to_bits() as u64
    );
    // bits that do not fit a field are dropped: the implicit bit of a
    // significand and the high bits of an exponent
    assert_eq!(
        Format::Binary32.from_parts(false, 127, 0x80_0000),
        1.0f32.to_bits() as u64
    );
    assert_eq!(
        Format::Binary32.from_parts(false, 0x100 + 127, 0),
        1.0f32.to_bits() as u64
    );
    assert_eq!(
        Format::Binary64.from_parts(false, 1023, 0x10_0000_0000_0000),
        1.0f64.to_bits()
    );
}

#[test]
fn from_parts_round_trips_every_kind_of_pattern() {
    for b in [
        0u32, 1, 0x7f_ffff, 0x80_0000, 0x3f80_0000, 0x7f7f_ffff, 0x7f80_0000, 0x7fc0_0000,
        0x8000_0000, 0xbf80_0000, 0xff80_0000, 0xffff_ffff,
    ] {
        let sign = b >> 31 == 1;
        let exponent = ((b >> 23) & 0xff) as u64;
        let significand = (b & 0x7f_ffff) as u64;
        assert_eq!(
            Format::Binary32.from_parts(sign, exponent, significand),
            b as u64
        );
    }
    for b in [
        0u64,
        1,
        0x000f_ffff_ffff_ffff,
        0x3ff0_0000_0000_0000,
        0x7ff0_0000_0000_0000,
        0x8000_0000_0000_0000,
        0xffff_ffff_ffff_ffff,
    ] {
        let sign = b >> 63 == 1;
        let exponent = (b >> 52) & 0x7ff;
        let significand = b & 0x000f_ffff_ffff_ffff;
        assert_eq!(Format::Binary64.from_parts(sign, exponent, significand), b);
    }
}
