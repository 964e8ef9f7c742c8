use contribution_showcase::config::{sanitize_title_for_filename, validate_date_range};

#[test]
fn test_date_validation_valid() {
    assert!(validate_date_range(Some("2024-01-01"), Some("2024-12-31")).is_ok());
}

#[test]
fn test_date_validation_invalid_format() {
    assert!(validate_date_range(Some("2024/01/01"), None).is_err());
}

#[test]
fn test_date_validation_non_zero_padded() {
    assert!(validate_date_range(Some("2026-5-1"), None).is_err());
}

#[test]
fn test_date_validation_since_after_until() {
    assert!(validate_date_range(Some("2024-12-31"), Some("2024-01-01")).is_err());
}

#[test]
fn test_date_validation_invalid_semantic_date() {
    // Feb 31 does not exist
    assert!(validate_date_range(Some("2024-02-31"), None).is_err());
}

#[test]
fn test_date_validation_none_passes() {
    // No dates at all should pass (empty filter)
    assert!(validate_date_range(None, None).is_ok());
}

#[test]
fn test_sanitize_normal_ascii() {
    assert_eq!(
        sanitize_title_for_filename(Some("My Report")),
        "my-report.html"
    );
}

#[test]
fn test_sanitize_special_chars() {
    assert_eq!(
        sanitize_title_for_filename(Some("My Team's Showcase")),
        "my-team-s-showcase.html"
    );
}

#[test]
fn test_sanitize_cjk_only_fallback() {
    assert_eq!(sanitize_title_for_filename(Some("專案報告")), "index.html");
}

#[test]
fn test_sanitize_empty_string() {
    assert_eq!(sanitize_title_for_filename(Some("")), "index.html");
}

#[test]
fn test_sanitize_none() {
    assert_eq!(sanitize_title_for_filename(None), "index.html");
}

#[test]
fn test_sanitize_leading_trailing_hyphens() {
    assert_eq!(sanitize_title_for_filename(Some("---test---")), "test.html");
}

#[test]
fn test_sanitize_consecutive_special_chars() {
    assert_eq!(sanitize_title_for_filename(Some("a!!!b")), "a-b.html");
}

#[test]
fn test_sanitize_mixed() {
    assert_eq!(
        sanitize_title_for_filename(Some("Report #1: Q2 (2025)")),
        "report-1-q2-2025.html"
    );
}

