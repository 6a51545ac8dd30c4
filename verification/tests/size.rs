use icon_gen::size::{human_readable_size, push_decimal};

/// The same text by floating-point arithmetic.
fn by_floats(bytes: u64) -> String {
    if bytes == 0 {
        return "0".to_string();
    }
    let mut size = bytes as f64;
    for unit in ['B', 'K', 'M', 'G', 'T'] {
        if size < 1024.0 {
            if unit == 'B' {
                return format!("{size:.0}B");
            }
            let s = format!("{size:.1}");
            let s = s.trim_end_matches('0').trim_end_matches('.');
            return format!("{s}{unit}");
        }
        size /= 1024.0;
    }
    format!("{size:.1}T")
}

#[test]
fn sizes_have_a_unit() {
    for (bytes, text) in [
        (0u64, "0"),
        (1, "1B"),
        (10, "10B"),
        (1000, "1000B"),
        (1023, "1023B"),
        (1024, "1K"),
        (1536, "1.5K"),
        (10240, "10K"),
        (102400, "100K"),
        (1048575, "1024K"),
        (1 << 20, "1M"),
        (5 << 29, "2.5G"),
        (1 << 40, "1T"),
        ((1 << 50) - 1, "1024T"),
        (1 << 50, "1.0T"),
        (u64::MAX, "16384.0T"),
    ] {
        assert_eq!(human_readable_size(bytes), text);
    }
}

#[test]
fn ties_go_to_the_even_digit() {
    // 1.25 and 1.75 of a unit lie between two decimals.
    assert_eq!(human_readable_size(1280), "1.2K");
    assert_eq!(human_readable_size(1792), "1.8K");
    assert_eq!(human_readable_size(1281), "1.3K");
}

#[test]
fn small_sizes_agree_with_floating_point() {
    for bytes in 0..300_000u64 {
        assert_eq!(human_readable_size(bytes), by_floats(bytes), "{bytes}");
    }
}

#[test]
fn large_sizes_agree_with_floating_point() {
    let mut bytes = 0x9e37_79b9_7f4a_7c15u64;
    for _ in 0..200_000 {
        bytes = bytes.wrapping_mul(6364136223846793005).wrapping_add(1442695040888963407);
        let b = bytes >> (bytes % 64);
        assert_eq!(human_readable_size(b), by_floats(b), "{b}");
    }
}

#[test]
fn sizes_around_powers_and_ties_agree_with_floating_point() {
    for shift in 0..64u32 {
        for step in 1..32u64 {
            let middle = (1u64 << shift).wrapping_mul(step);
            for off in 0..5u64 {
                for b in [middle.wrapping_add(off), middle.wrapping_sub(off)] {
                    assert_eq!(human_readable_size(b), by_floats(b), "{b}");
                }
            }
        }
    }
}

#[test]
fn sizes_beyond_double_precision_are_rounded_first() {
    // One byte above a tie is lost in a double-precision number.
    let tie = 9u64 << 50 | 1 << 48;
    assert_eq!(human_readable_size(tie), "9.2T");
    assert_eq!(human_readable_size(tie + 1), by_floats(tie + 1));
    assert_eq!(human_readable_size(tie + 1), "9.2T");
    assert_eq!(human_readable_size(tie + 2), "9.3T");
}

#[test]
fn larger_sizes_never_show_a_smaller_number() {
    let number = |b: u64| -> f64 {
        let s = human_readable_size(b);
        s[..s.len() - 1].parse().unwrap()
    };
    let mut last = 0.0;
    for b in (1024..1024 * 1024u64).step_by(37) {
        let n = number(b);
        assert!(n >= last);
        assert!((n - b as f64 / 1024.0).abs() <= 0.05 + 1e-9);
        last = n;
    }
}

#[test]
fn numbers_are_written_in_decimal() {
    for n in [0u128, 7, 10, 99, 100, 12345, u64::MAX as u128, u128::MAX] {
        let mut out = String::from("n");
        push_decimal(&mut out, n);
        assert_eq!(out, format!("n{n}"));
    }
}
