use pie::format_size;

fn float_text(bytes: u64) -> String {
    let units = ["B", "KB", "MB", "GB"];
    let mut size = bytes as f64;
    let mut unit = 0;
    while size >= 1024.0 && unit < units.len() - 1 {
        size /= 1024.0;
        unit += 1;
    }
    if unit == 0 {
        format!("{} {}", bytes, units[unit])
    } else {
        format!("{:.1} {}", size, units[unit])
    }
}

#[test]
fn sizes_in_each_unit() {
    assert_eq!(format_size(0), "0 B");
    assert_eq!(format_size(1023), "1023 B");
    assert_eq!(format_size(1024), "1.0 KB");
    assert_eq!(format_size(1536), "1.5 KB");
    assert_eq!(format_size(1331), "1.3 KB");
    assert_eq!(format_size(1048576), "1.0 MB");
    assert_eq!(format_size(5 * 1073741824), "5.0 GB");
    assert_eq!(format_size(1099511627776), "1024.0 GB");
}

#[test]
fn size_ties_round_to_even() {
    assert_eq!(format_size(1280), "1.2 KB");
    assert_eq!(format_size(1382), "1.3 KB");
}

#[test]
fn size_text_agrees_with_float_formatting() {
    let mut b: u64 = 0;
    while b < 3_000_000 {
        assert_eq!(format_size(b), float_text(b), "at {b}");
        b += 7;
    }
    for b in [1280u64, 1024 * 1024 + 52428, 1073741824 * 3 + 53687091, 1u64 << 52, u64::MAX] {
        assert_eq!(format_size(b), float_text(b), "at {b}");
    }
}
