use pm3::memory::{memory_exceeded, memory_limit_message, memory_watch, parse_memory_string, MemoryWatch};
use pm3::process::ProcessError;
use pm3::protocol::ProcessStatus;

#[test]
fn test_parse_megabytes() {
    assert_eq!(parse_memory_string("200M").unwrap(), 200 * 1024 * 1024);
}

#[test]
fn test_parse_megabytes_mb() {
    assert_eq!(parse_memory_string("200MB").unwrap(), 200 * 1024 * 1024);
}

#[test]
fn test_parse_gigabytes() {
    assert_eq!(parse_memory_string("1G").unwrap(), 1024 * 1024 * 1024);
}

#[test]
fn test_parse_gigabytes_gb() {
    assert_eq!(parse_memory_string("2GB").unwrap(), 2 * 1024 * 1024 * 1024);
}

#[test]
fn test_parse_kilobytes() {
    assert_eq!(parse_memory_string("512K").unwrap(), 512 * 1024);
}

#[test]
fn test_parse_kilobytes_kb() {
    assert_eq!(parse_memory_string("512KB").unwrap(), 512 * 1024);
}

#[test]
fn test_parse_plain_bytes() {
    assert_eq!(parse_memory_string("1048576").unwrap(), 1048576);
}

#[test]
fn test_parse_fractional() {
    let result = parse_memory_string("1.5G").unwrap();
    let expected = (1.5 * 1024.0 * 1024.0 * 1024.0) as u64;
    assert_eq!(result, expected);
}

#[test]
fn test_parse_case_insensitive() {
    assert_eq!(parse_memory_string("200m").unwrap(), 200 * 1024 * 1024);
}

#[test]
fn test_parse_with_whitespace() {
    assert_eq!(parse_memory_string("  200M  ").unwrap(), 200 * 1024 * 1024);
}

#[test]
fn test_parse_empty_errors() {
    assert!(parse_memory_string("").is_err());
}

#[test]
fn test_parse_invalid_suffix_errors() {
    assert!(parse_memory_string("200X").is_err());
}

#[test]
fn test_parse_no_number_errors() {
    assert!(parse_memory_string("MB").is_err());
}

fn error_text(s: &str) -> String {
    match parse_memory_string(s) {
        Err(ProcessError::InvalidCommand(m)) => m,
        other => panic!("expected an error for {:?}, got {:?}", s, other),
    }
}

#[test]
fn memory_error_texts() {
    assert_eq!(error_text("   "), "empty memory string");
    assert_eq!(error_text("MB"), "no numeric value in memory string: MB");
    assert_eq!(error_text("1.2.3M"), "invalid number in memory string: 1.2.3");
    assert_eq!(error_text("200 M"), "invalid number in memory string: 200 ");
    assert_eq!(error_text("200X"), "unknown memory suffix: X");
    assert_eq!(error_text("5kib"), "unknown memory suffix: KIB");
}

#[test]
fn memory_number_forms() {
    assert_eq!(parse_memory_string(".5K").unwrap(), 512);
    assert_eq!(parse_memory_string("1.K").unwrap(), 1024);
    assert_eq!(parse_memory_string("+2K").unwrap(), 2048);
    assert_eq!(parse_memory_string("-2K").unwrap(), 0);
    assert_eq!(parse_memory_string("0.3").unwrap(), 0);
    assert_eq!(parse_memory_string("1.999K").unwrap(), 2046);
    assert_eq!(parse_memory_string("99999999999999999999G").unwrap(), u64::MAX);
    assert_eq!(parse_memory_string("0.0000000001G").unwrap(), 0);
    assert!(parse_memory_string(".").is_err());
    assert!(parse_memory_string("-").is_err());
}

#[test]
fn memory_watch_decisions() {
    assert_eq!(memory_watch(None), MemoryWatch::Stop);
    assert_eq!(memory_watch(Some((ProcessStatus::Stopped, Some(3)))), MemoryWatch::Stop);
    assert_eq!(memory_watch(Some((ProcessStatus::Online, None))), MemoryWatch::Idle);
    assert_eq!(memory_watch(Some((ProcessStatus::Starting, Some(9)))), MemoryWatch::Measure(9));
    assert!(memory_exceeded(11, 10));
    assert!(!memory_exceeded(10, 10));
    assert_eq!(memory_limit_message("web", 11, 10), "memory limit exceeded for 'web': 11 bytes > 10 bytes, restarting");
}

#[test]
fn amounts_are_read_as_doubles() {
    let units: [(&str, u64); 4] = [("", 1), ("K", 1024), ("M", 1024 * 1024), ("G", 1024 * 1024 * 1024)];
    let numbers = [
        "9007199254740993", "9007199254740992", "9007199254740995", "0.9999999999999999999",
        "0.99999999999999994", "0.99999999999999995", "4503599627370495.5", "4503599627370496.5",
        "4503599627370497.5", "18446744073709551615", "18446744073709551616", "18446744073709549568",
        "12345678901234567890123", "0.00000000000000000000000001", "123.456789", "17179869183.99999999",
        "0.5", "1.5", "2.5", "0.123456789012345", "16777215.999999999", "8589934591.9999999999",
        "0", "0.0", "000123.000", ".75", "7.",
    ];
    for n in numbers.iter() {
        for (u, m) in units.iter() {
            let s = format!("{}{}", n, u);
            let expected = (n.parse::<f64>().unwrap() * (*m as f64)) as u64;
            assert_eq!(parse_memory_string(&s).unwrap(), expected, "{}", s);
        }
    }
    let mut x: u64 = 0x1234_5678;
    for _ in 0..3000 {
        x = x.wrapping_mul(6364136223846793005).wrapping_add(1442695040888963407);
        let int_len = ((x >> 20) % 22) as usize;
        let frac_len = ((x >> 30) % 25) as usize;
        let mut s = String::new();
        let mut y = x;
        for _ in 0..int_len {
            y = y.wrapping_mul(6364136223846793005).wrapping_add(1);
            s.push((b'0' + ((y >> 33) % 10) as u8) as char);
        }
        if int_len == 0 || frac_len > 0 {
            s.push('.');
            for k in 0..frac_len.max(1) {
                y = y.wrapping_mul(6364136223846793005).wrapping_add(1);
                let digit = if (x >> 40) % 3 == 0 && k < 17 { 9 } else { (y >> 33) % 10 };
                s.push((b'0' + digit as u8) as char);
            }
        }
        let (u, m) = units[((x >> 50) % 4) as usize];
        let expected = (s.parse::<f64>().unwrap() * (m as f64)) as u64;
        let input = format!("{}{}", s, u);
        assert_eq!(parse_memory_string(&input).unwrap(), expected, "{}", input);
    }
}
