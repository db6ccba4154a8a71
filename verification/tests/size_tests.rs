use bettercurl::size::format_size;

fn f64_formatted_size(bytes: u64) -> String {
    const KB: u64 = 1024;
    const MB: u64 = KB * 1024;
    const GB: u64 = MB * 1024;
    if bytes >= GB {
        format!("{:.2} GB", bytes as f64 / GB as f64)
    } else if bytes >= MB {
        format!("{:.2} MB", bytes as f64 / MB as f64)
    } else if bytes >= KB {
        format!("{:.2} KB", bytes as f64 / KB as f64)
    } else {
        format!("{} B", bytes)
    }
}

#[test]
fn size_exact_values() {
    assert_eq!(format_size(0), "0 B");
    assert_eq!(format_size(512), "512 B");
    assert_eq!(format_size(1023), "1023 B");
    assert_eq!(format_size(1024), "1.00 KB");
    assert_eq!(format_size(1536), "1.50 KB");
    assert_eq!(format_size(1048575), "1024.00 KB");
    assert_eq!(format_size(1048576), "1.00 MB");
    assert_eq!(format_size(1073741824), "1.00 GB");
    assert_eq!(format_size(5 * 1073741824 + 536870912), "5.50 GB");
}

#[test]
fn size_ties_round_to_even() {
    // 1.125 KB and 1.375 KB lie halfway between two hundredths
    assert_eq!(format_size(1152), "1.12 KB");
    assert_eq!(format_size(1408), "1.38 KB");
}

#[test]
fn size_agrees_with_f64_formatting() {
    for b in 0u64..20000 {
        assert_eq!(format_size(b), f64_formatted_size(b), "bytes {}", b);
    }
    let mut x: u64 = 0x9E3779B97F4A7C15;
    for _ in 0..20000 {
        x = x.wrapping_mul(6364136223846793005).wrapping_add(1442695040888963407);
        for b in [x, x >> 7, x >> 20, x >> 33, x >> 44, x >> 54] {
            assert_eq!(format_size(b), f64_formatted_size(b), "bytes {}", b);
        }
    }
    for k in 0u64..64 {
        let p = 1u64 << k;
        for b in [p, p - 1, p + 1, p.wrapping_mul(3) / 2] {
            assert_eq!(format_size(b), f64_formatted_size(b), "bytes {}", b);
        }
    }
    for b in [u64::MAX, u64::MAX - 1, (1u64 << 53) + 1, (1u64 << 53) * 3 + 5, 1u64 << 63] {
        assert_eq!(format_size(b), f64_formatted_size(b), "bytes {}", b);
    }
}

#[test]
fn size_near_tie_above_f64_precision() {
    // an odd multiple of 2^29 plus one: the f64 value is the exact tie
    let b: u64 = (1u64 << 29) * ((1u64 << 25) + 1) + 1;
    assert_eq!(format_size(b), f64_formatted_size(b));
}

fn shown_value(s: &str) -> f64 {
    let (num, unit) = s.split_once(' ').unwrap();
    let k: f64 = match unit {
        "B" => 1.0,
        "KB" => 1024.0,
        "MB" => 1048576.0,
        _ => 1073741824.0,
    };
    num.parse::<f64>().unwrap() * k
}

#[test]
fn shown_size_never_decreases() {
    let mut prev = 0.0;
    for b in (0u64..3_000_000).step_by(97).chain([1023, 1024, 1048575, 1048576, 1073741823, 1073741824]) {
        let v = shown_value(&format_size(b));
        if b < 3_000_000 && b % 97 == 0 {
            assert!(v >= prev, "bytes {}", b);
            prev = v;
        }
    }
    for (a, b) in [(1023u64, 1024u64), (1048575, 1048576), (1073741823, 1073741824)] {
        assert!(shown_value(&format_size(a)) <= shown_value(&format_size(b)));
    }
}
