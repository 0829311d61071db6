use rcat::config::{parse_size, parts_at, size_from_parts};

#[test]
fn test_parse_size() {
    assert_eq!(parse_size("100").unwrap(), 100);
    assert_eq!(parse_size("100B").unwrap(), 100);
    assert_eq!(parse_size("1KB").unwrap(), 1024);
    assert_eq!(parse_size("1K").unwrap(), 1024);
    assert_eq!(parse_size("5MB").unwrap(), 5 * 1024 * 1024);
    assert_eq!(parse_size("5M").unwrap(), 5 * 1024 * 1024);
    assert_eq!(parse_size("1GB").unwrap(), 1024 * 1024 * 1024);
    assert_eq!(parse_size("1G").unwrap(), 1024 * 1024 * 1024);
    assert_eq!(parse_size("1.5MB").unwrap(), (1.5 * 1024.0 * 1024.0) as usize);
    assert_eq!(parse_size(" 10 MB ").unwrap(), 10 * 1024 * 1024);

    assert!(parse_size("invalid").is_err());
    assert!(parse_size("-5MB").is_err());
    assert!(parse_size("5TB").is_err());
}

#[test]
fn parse_size_says_what_is_wrong() {
    assert_eq!(parse_size("invalid"), Err("Invalid number: ".to_string()));
    assert_eq!(parse_size(""), Err("Invalid number: ".to_string()));
    assert_eq!(parse_size("1.2.3"), Err("Invalid number: 1.2.3".to_string()));
    assert_eq!(parse_size("."), Err("Invalid number: .".to_string()));
    assert_eq!(parse_size("+"), Err("Invalid number: +".to_string()));
    assert_eq!(parse_size("1 0"), Err("Invalid number: 1 0".to_string()));
    assert_eq!(parse_size("--1"), Err("Invalid number: --1".to_string()));
    assert_eq!(parse_size("-5MB"), Err("Size cannot be negative".to_string()));
    assert_eq!(parse_size("-0.001"), Err("Size cannot be negative".to_string()));
    assert_eq!(
        parse_size("5tb"),
        Err("Unknown unit: TB. Use B, KB, MB, or GB".to_string())
    );
    assert_eq!(
        parse_size("1e3"),
        Err("Unknown unit: E3. Use B, KB, MB, or GB".to_string())
    );
    assert_eq!(
        parse_size("7 k b"),
        Err("Unknown unit: K B. Use B, KB, MB, or GB".to_string())
    );
    assert_eq!(parse_size("0"), Err("Size must be greater than 0".to_string()));
    assert_eq!(parse_size("-0"), Err("Size must be greater than 0".to_string()));
    assert_eq!(parse_size("0.9"), Err("Size must be greater than 0".to_string()));
    assert_eq!(parse_size("0.0009KB"), Err("Size must be greater than 0".to_string()));
    // The number is looked at before the unit.
    assert_eq!(parse_size("x5"), Err("Invalid number: ".to_string()));
    assert_eq!(parse_size("-1XB"), Err("Size cannot be negative".to_string()));
}

#[test]
fn parse_size_takes_fractions_and_either_case() {
    assert_eq!(parse_size("1.5k"), Ok(1536));
    assert_eq!(parse_size("0.5kb"), Ok(512));
    assert_eq!(parse_size(".5 Kb"), Ok(512));
    assert_eq!(parse_size("2."), Ok(2));
    assert_eq!(parse_size("+3m"), Ok(3 * 1024 * 1024));
    assert_eq!(parse_size("0.001KB"), Ok(1));
    assert_eq!(parse_size("1.9999"), Ok(1));
    assert_eq!(parse_size("\t 12 \n"), Ok(12));
    assert_eq!(parse_size("0.1mb"), Ok(104857));
    assert_eq!(parse_size("007"), Ok(7));
}

#[test]
fn parse_size_agrees_with_floating_point() {
    for number in ["1", "2.5", "0.75", "10.125", "123.456", "0.3", "99.99", "1023.999", "3.14159"] {
        for (unit, bytes) in [("", 1.0), ("K", 1024.0), ("MB", 1048576.0), ("g", 1073741824.0)] {
            let expected = (number.parse::<f64>().unwrap() * bytes) as usize;
            let text = format!("{}{}", number, unit);
            if expected == 0 {
                assert!(parse_size(&text).is_err(), "{}", text);
            } else {
                assert_eq!(parse_size(&text), Ok(expected), "{}", text);
            }
        }
    }
}

#[test]
fn parse_size_stops_at_the_largest_size() {
    assert_eq!(parse_size("99999999999999999999999999999"), Ok(usize::MAX));
    assert_eq!(parse_size("99999999999999999999GB"), Ok(usize::MAX));
    assert_eq!(parse_size("18446744073709551615"), Ok(18446744073709551615u64 as usize));
    assert_eq!(parse_size("17179869184GB"), Ok(usize::MAX));
    assert_eq!(parse_size("0.00000000000000000000000000000000000000000001GB"), Err("Size must be greater than 0".to_string()));
}

#[test]
fn size_from_parts_takes_number_and_upper_case_unit() {
    assert_eq!(size_from_parts("1.5", "MB"), Ok(1572864));
    assert_eq!(size_from_parts("100", ""), Ok(100));
    assert_eq!(size_from_parts("100", "B"), Ok(100));
    assert_eq!(size_from_parts("2", "K"), Ok(2048));
    assert_eq!(size_from_parts("3", "G"), Ok(3 * 1024 * 1024 * 1024));
    assert_eq!(
        size_from_parts("2", "kb"),
        Err("Unknown unit: kb. Use B, KB, MB, or GB".to_string())
    );
    assert_eq!(size_from_parts(" 2", "KB"), Err("Invalid number:  2".to_string()));
    assert_eq!(size_from_parts("-2", "KB"), Err("Size cannot be negative".to_string()));
    assert_eq!(size_from_parts("0.0", "GB"), Err("Size must be greater than 0".to_string()));
}

#[test]
fn parts_at_splits_number_and_unit() {
    assert_eq!(parts_at("10 MB", 3), ("10".to_string(), "MB".to_string()));
    assert_eq!(parts_at("10", 2), ("10".to_string(), "B".to_string()));
    assert_eq!(parts_at("KB", 0), (String::new(), "KB".to_string()));
    assert_eq!(parts_at("", 0), (String::new(), "B".to_string()));
    assert_eq!(parts_at(" 7 ", 99), ("7".to_string(), "B".to_string()));
    assert_eq!(parts_at(" 1 . 5 X Y", 7), ("1 . 5".to_string(), "X Y".to_string()));
}
