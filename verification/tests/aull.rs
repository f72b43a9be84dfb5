use r9xrsrt::aull::{aulldiv, aullrem, divmod_64_32, divmod_wide};

fn check(a: u64, b: u64) {
    assert_eq!(aulldiv(a, b), a / b, "aulldiv({a:#x}, {b:#x})");
    assert_eq!(aullrem(a, b), a % b, "aullrem({a:#x}, {b:#x})");
}

#[test]
fn single_word_divisor() {
    check(0, 1);
    check(1, 1);
    check(u64::MAX, 1);
    check(u64::MAX, 2);
    check(u64::MAX, 0xffff_ffff);
    check(0x1234_5678_9abc_def0, 7);
    check(0xffff_ffff, 0x1_0000);
    check(5, 9);
    assert_eq!(aulldiv(100, 7), 14);
    assert_eq!(aullrem(100, 7), 2);
}

#[test]
fn two_word_divisor() {
    check(u64::MAX, 0x1_0000_0000);
    check(u64::MAX, 0x1_0000_0001);
    check(u64::MAX, u64::MAX);
    check(u64::MAX - 1, u64::MAX);
    check(0x1_0000_0000, 0x1_0000_0000);
    check(0xffff_ffff, 0x1_0000_0000);
    check(0x8000_0000_0000_0000, 0x8000_0000_0000_0001);
    check(0xffff_ffff_ffff_fffe, 0x1_ffff_ffff);
    check(0x1234_5678_9abc_def0, 0x1_2345_6789);
    assert_eq!(aulldiv(0x10_0000_0005, 0x2_0000_0001), 7);
    assert_eq!(aullrem(0x10_0000_0005, 0x2_0000_0001), 0x1_ffff_fffe);
}

#[test]
fn estimate_one_too_large_is_corrected() {
    // Normalizing by one bit makes the estimate 0xffff_ffff, one too large.
    let (q, prod) = divmod_wide(0xffff_ffff_ffff_fffe, 0x1_0000_0001);
    assert_eq!(q, 0xffff_fffe);
    assert_eq!(prod, 0xffff_fffe * 0x1_0000_0001);
    check(0xffff_ffff_ffff_fffe, 0x1_0000_0001);
    // Here the estimate 0xffff_fffe times the divisor does not even fit in 64 bits.
    let (q, prod) = divmod_wide(u64::MAX, 0x1_0000_0003);
    assert_eq!(q, 0xffff_fffd);
    assert_eq!(prod, 0xffff_fffd * 0x1_0000_0003);
    assert_eq!(aullrem(u64::MAX, 0x1_0000_0003), 8);
}

#[test]
fn many_pseudo_random_pairs() {
    let mut x: u64 = 0x9e37_79b9_7f4a_7c15;
    for i in 0..200_000u32 {
        x ^= x << 13;
        x ^= x >> 7;
        x ^= x << 17;
        let a = x;
        x ^= x << 13;
        x ^= x >> 7;
        x ^= x << 17;
        let b = match i % 4 {
            0 => x,
            1 => x >> (x % 64),
            2 => (x >> 32) | 1,
            _ => x | 0x1_0000_0000,
        };
        if b != 0 {
            check(a, b);
        }
    }
}

#[test]
fn divmod_wide_returns_exact_product() {
    for &(a, b) in &[
        (u64::MAX, 0x1_0000_0000u64),
        (0, 0x1_0000_0000),
        (0x7fff_ffff_ffff_ffff, 0x3_0000_0007),
        (u64::MAX, u64::MAX),
    ] {
        let (q, prod) = divmod_wide(a, b);
        assert_eq!(q as u64, a / b);
        assert_eq!(prod, (q as u64) * b);
    }
}

#[test]
fn divmod_64_32_is_one_word_division() {
    assert_eq!(divmod_64_32(0, 100, 7), (14, 2));
    assert_eq!(divmod_64_32(6, 0xffff_ffff, 7), (0xffff_ffff, 6));
    assert_eq!(divmod_64_32(1, 0, 2), (0x8000_0000, 0));
    assert_eq!(divmod_64_32(0xffff_fffe, 0xffff_ffff, 0xffff_ffff), (0xffff_ffff, 0xffff_fffe));
}

#[test]
fn quotient_and_remainder_rebuild_the_dividend() {
    for &(a, b) in &[
        (u64::MAX, 3u64),
        (u64::MAX, 0x1_0000_0003),
        (0x8765_4321_0fed_cba9, 0xdead_beef_cafe),
        (12345, 678),
    ] {
        let q = aulldiv(a, b);
        let r = aullrem(a, b);
        assert!(r < b);
        assert_eq!(q * b + r, a);
    }
}

#[test]
fn divmod_64_32_matches_wide_division() {
    let mut x: u64 = 0x2545_f491_4f6c_dd1d;
    for _ in 0..100_000u32 {
        x ^= x << 13;
        x ^= x >> 7;
        x ^= x << 17;
        let d = ((x >> 32) as u32) | 1;
        let hi = (x as u32) % d;
        let lo = (x >> 16) as u32;
        let n = ((hi as u64) << 32) | lo as u64;
        let (q, r) = divmod_64_32(hi, lo, d);
        assert_eq!(q as u64, n / d as u64);
        assert_eq!(r as u64, n % d as u64);
    }
}
