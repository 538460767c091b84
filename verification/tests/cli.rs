use ascfix::cli::parse_size;

#[test]
fn parse_size_bytes() {
    assert_eq!(parse_size("1024").unwrap(), 1024);
    assert_eq!(parse_size("10B").unwrap(), 10);
}

#[test]
fn parse_size_kb_mb_gb() {
    assert_eq!(parse_size("1KB").unwrap(), 1024);
    assert_eq!(parse_size("2MB").unwrap(), 2 * 1024 * 1024);
    assert_eq!(parse_size("3GB").unwrap(), 3 * 1024 * 1024 * 1024);
}

#[test]
fn parse_size_lowercase_and_whitespace() {
    assert_eq!(parse_size(" 2mb ").unwrap(), 2 * 1024 * 1024);
}

#[test]
fn parse_size_invalid() {
    assert!(parse_size("").is_err());
    assert!(parse_size("abc").is_err());
    assert!(parse_size("10XB").is_err());
}

#[test]
fn parse_size_overflow() {
    let result = parse_size("18446744073709551615GB");
    assert!(result.is_err());
}

