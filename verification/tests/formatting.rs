use file_sorter::formatting::human_size;

fn by_floats(n: u64) -> String {
    let mut x = n as f64;
    for unit in ["B", "KB", "MB", "GB", "TB"] {
        if x < 1024.0 {
            return if unit == "B" { format!("{:.0}{}", x, unit) } else { format!("{:.1}{}", x, unit) };
        }
        x /= 1024.0;
    }
    format!("{:.1}PB", x)
}

#[test]
fn sizes_below_a_kilobyte_are_exact() {
    assert_eq!(human_size(0), "0B");
    assert_eq!(human_size(1), "1B");
    assert_eq!(human_size(1023), "1023B");
}

#[test]
fn sizes_have_one_decimal_from_a_kilobyte_on() {
    assert_eq!(human_size(1024), "1.0KB");
    assert_eq!(human_size(1536), "1.5KB");
    assert_eq!(human_size(1024 * 1024 - 1), "1024.0KB");
    assert_eq!(human_size(500 * 1024 * 1024), "500.0MB");
    assert_eq!(human_size(3 * 1024 * 1024 * 1024), "3.0GB");
    assert_eq!(human_size(1 << 40), "1.0TB");
    assert_eq!(human_size(1 << 50), "1.0PB");
    assert_eq!(human_size(u64::MAX), "16384.0PB");
}

#[test]
fn sizes_agree_with_double_precision() {
    let mut n: u64 = 0x9e37_79b9_7f4a_7c15;
    for i in 0..200_000u64 {
        n = n.wrapping_mul(6364136223846793005).wrapping_add(1442695040888963407);
        let x = n >> (i % 64);
        assert_eq!(human_size(x), by_floats(x), "{}", x);
    }
    for shift in 0..64u32 {
        for d in 0..40u64 {
            let x = (1u64 << shift).wrapping_add(d * 51);
            assert_eq!(human_size(x), by_floats(x), "{}", x);
            let y = (1u64 << shift).wrapping_sub(d);
            assert_eq!(human_size(y), by_floats(y), "{}", y);
        }
    }
    for tie in [1024 + 256, 1024 + 768, 1152, 1280, 1126, 1177, 1228] {
        assert_eq!(human_size(tie), by_floats(tie));
    }
    for m in 0..4096u64 {
        assert_eq!(human_size(m * 64), by_floats(m * 64));
        assert_eq!(human_size((1 << 53) + m), by_floats((1 << 53) + m));
        assert_eq!(human_size((1 << 60) + m * 64), by_floats((1 << 60) + m * 64));
    }
}
