use fastgmad::size::human_bytes;

/// The same by floating point.
fn by_float(bytes: u64) -> String {
    let (value, unit) = match bytes {
        b if b >= 1 << 30 => (b as f64 / (1 << 30) as f64, "GiB"),
        b if b >= 1 << 20 => (b as f64 / (1 << 20) as f64, "MiB"),
        b if b >= 1 << 10 => (b as f64 / (1 << 10) as f64, "KiB"),
        b => (b as f64, "bytes"),
    };
    format!("{value:.2} {unit}")
}

#[test]
fn sizes_are_given_to_two_decimals() {
    assert_eq!(human_bytes(0), "0.00 bytes");
    assert_eq!(human_bytes(1023), "1023.00 bytes");
    assert_eq!(human_bytes(1024), "1.00 KiB");
    assert_eq!(human_bytes(1536), "1.50 KiB");
    assert_eq!(human_bytes((1 << 20) - 1), "1024.00 KiB");
    assert_eq!(human_bytes(1 << 20), "1.00 MiB");
    assert_eq!(human_bytes(5 << 30), "5.00 GiB");
    assert_eq!(human_bytes(u64::MAX), "17179869184.00 GiB");
}

#[test]
fn ties_go_to_the_even_digit() {
    // 128 bytes are an eighth of a KiB: 0.125 and 0.375 lie between two hundredths.
    assert_eq!(human_bytes(1024 + 128), "1.12 KiB");
    assert_eq!(human_bytes(1024 + 384), "1.38 KiB");
}

#[test]
fn sizes_agree_with_floating_point() {
    for bytes in 0..70_000u64 {
        assert_eq!(human_bytes(bytes), by_float(bytes));
    }
    for shift in 0..64u32 {
        for near in 0..40u64 {
            let bytes = (1u64 << shift).wrapping_add(near).wrapping_sub(20);
            assert_eq!(human_bytes(bytes), by_float(bytes), "{bytes}");
        }
    }
    let mut x = 0x9E3779B97F4A7C15u64;
    for i in 0..200_000u32 {
        x ^= x << 13;
        x ^= x >> 7;
        x ^= x << 17;
        let bytes = x >> (i % 64);
        assert_eq!(human_bytes(bytes), by_float(bytes), "{bytes}");
    }
}
