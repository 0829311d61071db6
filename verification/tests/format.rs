use rcat::format::ByteFormatter;

fn float_format(bytes: usize) -> String {
    let units = ["B", "KB", "MB", "GB", "TB"];
    if bytes == 0 {
        return "0 B".to_string();
    }
    let mut size = bytes as f64;
    let mut unit_index = 0;
    while size >= 1024.0 && unit_index < units.len() - 1 {
        size /= 1024.0;
        unit_index += 1;
    }
    if size.fract() == 0.0 {
        format!("{:.0} {}", size, units[unit_index])
    } else if size < 10.0 {
        format!("{:.2} {}", size, units[unit_index])
    } else if size < 100.0 {
        format!("{:.1} {}", size, units[unit_index])
    } else {
        format!("{:.0} {}", size, units[unit_index])
    }
}

#[test]
fn test_format_bytes() {
    assert_eq!(ByteFormatter::format(0), "0 B");
    assert_eq!(ByteFormatter::format(512), "512 B");
    assert_eq!(ByteFormatter::format(1024), "1 KB");
    assert_eq!(ByteFormatter::format(1536), "1.50 KB");
    assert_eq!(ByteFormatter::format(1024 * 1024), "1 MB");
    assert_eq!(ByteFormatter::format(5 * 1024 * 1024), "5 MB");
    assert_eq!(ByteFormatter::format(1024 * 1024 * 1024), "1 GB");
}

#[test]
fn test_format_as_unit() {
    assert_eq!(ByteFormatter::format_as_unit(5 * 1024 * 1024), "5MB");
    assert_eq!(ByteFormatter::format_as_unit(50 * 1024 * 1024), "50MB");
    assert_eq!(ByteFormatter::format_as_unit(1024 * 1024 * 1024), "1GB");
    assert_eq!(ByteFormatter::format_as_unit(5 * 1024 * 1024 * 1024), "5GB");
}

#[test]
fn format_as_unit_falls_back_to_bytes() {
    assert_eq!(ByteFormatter::format_as_unit(0), "0 bytes");
    assert_eq!(ByteFormatter::format_as_unit(1), "1 bytes");
    assert_eq!(ByteFormatter::format_as_unit(1023), "1023 bytes");
    assert_eq!(ByteFormatter::format_as_unit(1024), "1KB");
    assert_eq!(ByteFormatter::format_as_unit(1025), "1025 bytes");
    assert_eq!(ByteFormatter::format_as_unit(1536), "1536 bytes");
    assert_eq!(ByteFormatter::format_as_unit(3 * 1024), "3KB");
    assert_eq!(ByteFormatter::format_as_unit(1024 * 1024 + 1024), "1025KB");
    assert_eq!(ByteFormatter::format_as_unit(500 * 1024), "500KB");
}

#[test]
fn format_picks_digits_by_magnitude() {
    assert_eq!(ByteFormatter::format(1), "1 B");
    assert_eq!(ByteFormatter::format(1023), "1023 B");
    assert_eq!(ByteFormatter::format(1025), "1.00 KB");
    assert_eq!(ByteFormatter::format(10 * 1024 + 512), "10.5 KB");
    assert_eq!(ByteFormatter::format(100 * 1024 + 100), "100 KB");
    assert_eq!(ByteFormatter::format(1024 * 1024 - 1), "1024 KB");
    assert_eq!(ByteFormatter::format(5 * 1024 * 1024 + 300_000), "5.29 MB");
}

#[test]
fn format_rounds_ties_to_even() {
    // 1.125 KB and 1.375 KB lie halfway between two hundredths.
    assert_eq!(ByteFormatter::format(1152), "1.12 KB");
    assert_eq!(ByteFormatter::format(1408), "1.38 KB");
    // 10.25 KB and 10.75 KB lie halfway between two tenths.
    assert_eq!(ByteFormatter::format(10 * 1024 + 256), "10.2 KB");
    assert_eq!(ByteFormatter::format(10 * 1024 + 768), "10.8 KB");
    // 100.5 KB and 101.5 KB lie halfway between two whole numbers.
    assert_eq!(ByteFormatter::format(100 * 1024 + 512), "100 KB");
    assert_eq!(ByteFormatter::format(101 * 1024 + 512), "102 KB");
}

#[test]
fn format_agrees_with_floating_point_rendering() {
    let mut bytes: usize = 0;
    let mut step: usize = 1;
    while bytes < 6 * 1024 * 1024 * 1024 {
        assert_eq!(ByteFormatter::format(bytes), float_format(bytes), "{}", bytes);
        bytes += step;
        if bytes > 4096 {
            step = step * 3 / 2 + 7;
        }
    }
    for bytes in [1152usize, 1408, 10496, 11008, 103424, 104448, 1048575, 1048577, 1073741823] {
        assert_eq!(ByteFormatter::format(bytes), float_format(bytes), "{}", bytes);
    }
}

#[test]
fn push_size_appends() {
    let mut out: Vec<char> = "size: ".chars().collect();
    ByteFormatter::push_size(&mut out, 2048);
    ByteFormatter::push_as_unit(&mut out, 2048);
    let text: String = out.into_iter().collect();
    assert_eq!(text, "size: 2 KB2KB");
}
