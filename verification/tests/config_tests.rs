use catchhook::server::{parse_capacity, ServerConfig};

#[test]
fn test_resolve_defaults() {
    let config = ServerConfig::resolve(None, None, None);
    assert_eq!(config.port, "43999");
    assert_eq!(config.data_dir, "./catchhook-data");
    assert_eq!(config.max_reqs, 10_000);
}

#[test]
fn test_resolve_explicit_values() {
    let config = ServerConfig::resolve(
        Some("8080".to_string()),
        Some("/var/data".to_string()),
        Some("250".to_string()),
    );
    assert_eq!(config.port, "8080");
    assert_eq!(config.data_dir, "/var/data");
    assert_eq!(config.max_reqs, 250);
}

#[test]
fn test_resolve_unparsable_capacity_falls_back() {
    for raw in ["", "abc", "-5", "12x", "+", " 7", "7 "] {
        let config = ServerConfig::resolve(None, None, Some(raw.to_string()));
        assert_eq!(config.max_reqs, 10_000, "for input {:?}", raw);
    }
}

#[test]
fn test_parse_capacity_values() {
    assert_eq!(parse_capacity("0"), Some(0));
    assert_eq!(parse_capacity("007"), Some(7));
    assert_eq!(parse_capacity("+250"), Some(250));
    assert_eq!(parse_capacity("10000"), Some(10_000));
    let max = usize::MAX.to_string();
    assert_eq!(parse_capacity(&max), Some(usize::MAX));
}

#[test]
fn test_parse_capacity_rejections() {
    assert_eq!(parse_capacity(""), None);
    assert_eq!(parse_capacity("+"), None);
    assert_eq!(parse_capacity("ten"), None);
    assert_eq!(parse_capacity("-1"), None);
    assert_eq!(parse_capacity("1_000"), None);
    // One past the largest machine word must overflow.
    let too_big = format!("{}0", usize::MAX);
    assert_eq!(parse_capacity(&too_big), None);
}
