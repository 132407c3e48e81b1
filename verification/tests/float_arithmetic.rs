use enfuse::float::double::F64;
use enfuse::float::single::F32;

fn next(seed: &mut u64) -> u64 {
    *seed = seed.wrapping_mul(6364136223846793005).wrapping_add(1442695040888963407);
    let mut x = *seed;
    x ^= x >> 33;
    x = x.wrapping_mul(0xff51afd7ed558ccd);
    x ^= x >> 33;
    x
}

fn same32(got: F32, want: f32, what: &str) {
    let got = f32::from_bits(got.to_bits());
    if want.is_nan() {
        assert!(got.is_nan(), "{what}: got {got}, want NaN");
    } else {
        assert_eq!(got.to_bits(), want.to_bits(), "{what}: got {got}, want {want}");
    }
}

fn same64(got: F64, want: f64, what: &str) {
    let got = f64::from_bits(got.to_bits());
    if want.is_nan() {
        assert!(got.is_nan(), "{what}: got {got}, want NaN");
    } else {
        assert_eq!(got.to_bits(), want.to_bits(), "{what}: got {got}, want {want}");
    }
}

const EDGE32: [u32; 20] = [
    0, 1, 2, 0x7fffff, 0x800000, 0x800001, 0x3f800000, 0x3f7fffff, 0x3f800001, 0x3f000000,
    0x4b000000, 0x4b7fffff, 0x4b800000, 0x4f000000, 0x5f000000, 0x5f7fffff, 0x7f7fffff,
    0x7f800000, 0x7fc00000, 0x3fc00000,
];

fn patterns32() -> Vec<u32> {
    let mut all = Vec::new();
    for e in EDGE32 {
        all.push(e);
        all.push(e | 0x8000_0000);
    }
    let mut seed = 7u64;
    for _ in 0..150 {
        all.push(next(&mut seed) as u32);
        // Close to one another, so that sums cancel and halves occur.
        all.push(0x3f80_0000 | (next(&mut seed) as u32 & 0x01ff_ffff));
        all.push(0xbf80_0000 | (next(&mut seed) as u32 & 0x01ff_0000));
        all.push(next(&mut seed) as u32 & 0x80ff_ffff);
    }
    all
}

fn patterns64() -> Vec<u64> {
    let mut all = Vec::new();
    for e in [
        0u64, 1, 2, 0xf_ffff_ffff_ffff, 0x10_0000_0000_0000, 0x3ff0_0000_0000_0000,
        0x3fef_ffff_ffff_ffff, 0x3ff0_0000_0000_0001, 0x3fe0_0000_0000_0000, 0x4330_0000_0000_0000,
        0x433f_ffff_ffff_ffff, 0x43e0_0000_0000_0000, 0x7fef_ffff_ffff_ffff, 0x7ff0_0000_0000_0000,
        0x7ff8_0000_0000_0000, 0x3810_0000_0000_0000, 0x36a0_0000_0000_0000, 0x3690_0000_0000_0000,
        0x47ef_ffff_e000_0000, 0x47ef_ffff_f000_0000, 0x47f0_0000_0000_0000,
    ] {
        all.push(e);
        all.push(e | 1 << 63);
    }
    let mut seed = 11u64;
    for _ in 0..150 {
        all.push(next(&mut seed));
        all.push(0x3ff0_0000_0000_0000 | (next(&mut seed) & 0x003f_ffff_ffff_ffff));
        all.push(0xbff0_0000_0000_0000 | (next(&mut seed) & 0x003f_0000_0000_0000));
        all.push(next(&mut seed) & 0x801f_ffff_ffff_ffff);
        all.push((next(&mut seed) as u32 as f64).to_bits());
    }
    all
}

#[test]
fn single_operations_agree_with_the_processor() {
    let all = patterns32();
    for &i in &all {
        for &j in &all {
            let (a, b) = (F32::from_bits(i), F32::from_bits(j));
            let (x, y) = (f32::from_bits(i), f32::from_bits(j));
            same32(a.plus(b), x + y, "plus");
            same32(a.minus(b), x - y, "minus");
            same32(a.times(b), x * y, "times");
            same32(a.over(b), x / y, "over");
            assert_eq!(a.lt(b), x < y);
            assert_eq!(a.gt(b), x > y);
            assert_eq!(a.le(b), x <= y);
            assert_eq!(a.ge(b), x >= y);
            assert_eq!(a.equals(b), x == y);
            if x != 0.0 || y != 0.0 {
                same32(a.max(b), x.max(y), "max");
                same32(a.min(b), x.min(y), "min");
            }
        }
    }
}

#[test]
fn double_operations_agree_with_the_processor() {
    let all = patterns64();
    for &i in &all {
        for &j in &all {
            let (a, b) = (F64::from_bits(i), F64::from_bits(j));
            let (x, y) = (f64::from_bits(i), f64::from_bits(j));
            same64(a.plus(b), x + y, "plus");
            same64(a.minus(b), x - y, "minus");
            same64(a.times(b), x * y, "times");
            same64(a.over(b), x / y, "over");
            assert_eq!(a.lt(b), x < y);
            assert_eq!(a.le(b), x <= y);
            assert_eq!(a.equals(b), x == y);
        }
    }
}

#[test]
fn conversions_agree_with_the_processor() {
    for i in patterns32() {
        let (a, x) = (F32::from_bits(i), f32::from_bits(i));
        same32(a.floor(), x.floor(), "floor");
        same32(a.ceil(), x.ceil(), "ceil");
        same32(a.round(), x.round(), "round");
        same32(a.abs(), x.abs(), "abs");
        same64(a.to_double(), x as f64, "to_double");
        assert_eq!(a.to_usize(), x as usize);
        assert_eq!(a.to_i32(), x as i32);
        assert_eq!(a.to_u32(), x as u32);
        assert_eq!(a.to_i64(), x as i64);
        assert_eq!(a.is_finite(), x.is_finite());
        same32(a.clamp(F32::whole(-1), F32::whole(2)), x.clamp(-1.0, 2.0), "clamp");
        same32(F32::of_usize(i as usize), i as f32, "of_usize");
        same32(F32::of_i32(i as i32), i as i32 as f32, "of_i32");
    }
    for i in patterns64() {
        let (a, x) = (F64::from_bits(i), f64::from_bits(i));
        same64(a.floor(), x.floor(), "floor");
        same64(a.ceil(), x.ceil(), "ceil");
        same64(a.round(), x.round(), "round");
        same32(a.to_single(), x as f32, "to_single");
        assert_eq!(a.to_usize(), x as usize);
        assert_eq!(a.to_i32(), x as i32);
        assert_eq!(a.to_i64(), x as i64);
        same64(F64::of_u64(i), i as f64, "of_u64");
        same64(F64::of_i64(i as i64), i as i64 as f64, "of_i64");
    }
}

#[test]
fn ratios_are_the_decimal_literals() {
    same32(F32::ratio(7, 20), 0.35, "0.35");
    same32(F32::ratio(1, 1_000_000), 1e-6, "1e-6");
    same32(F32::ratio(33, 1000), 0.033, "0.033");
    same32(F32::ratio(-1, 2), -0.5, "-0.5");
    same64(F64::ratio(1, 20), 0.05, "0.05");
    same64(F64::ratio(1, 1_000_000), 1e-6, "1e-6");
}
