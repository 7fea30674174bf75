use battery_svg::num::{format_micro_str, parse_width, scale_width};

#[test]
fn parse_integer_width() {
    assert_eq!(parse_width("200"), Some(200_000_000));
    assert_eq!(parse_width("0"), Some(0));
}

#[test]
fn parse_fractional_width() {
    assert_eq!(parse_width("0.5"), Some(500_000));
    assert_eq!(parse_width("12.25"), Some(12_250_000));
    assert_eq!(parse_width(".5"), Some(500_000));
    assert_eq!(parse_width("5."), Some(5_000_000));
}

#[test]
fn parse_rejects_non_numbers() {
    assert_eq!(parse_width(""), None);
    assert_eq!(parse_width("."), None);
    assert_eq!(parse_width("abc"), None);
    assert_eq!(parse_width("-5"), None);
    assert_eq!(parse_width("1e3"), None);
    assert_eq!(parse_width("1.2.3"), None);
}

#[test]
fn parse_rejects_oversized_literals() {
    assert_eq!(parse_width("1234567890123"), None);
    assert_eq!(parse_width("0.1234567"), None);
}

#[test]
fn format_trims_trailing_zeros() {
    assert_eq!(format_micro_str(100_000_000), "100");
    assert_eq!(format_micro_str(500_000), "0.5");
    assert_eq!(format_micro_str(12_250_000), "12.25");
    assert_eq!(format_micro_str(0), "0");
}

#[test]
fn format_parse_round_trip() {
    for v in [0u64, 1, 999_999, 1_000_000, 123_456_789, 200_000_000] {
        assert_eq!(parse_width(&format_micro_str(v)), Some(v));
    }
}

#[test]
fn scaling_truncates_to_micro_units() {
    assert_eq!(scale_width(200_000_000, 500), 100_000_000);
    assert_eq!(scale_width(200_000_000, 1000), 200_000_000);
    assert_eq!(scale_width(1_000_000, 333), 333_000);
    assert_eq!(scale_width(1, 333), 0);
}
