use process_tab_manager::row::parse_wid_from_name;

#[test]
fn parses_window_id_from_row_name() {
    assert_eq!(parse_wid_from_name("wid-12345"), Some(12345));
}

#[test]
fn accepts_plus_sign_like_integer_parsing() {
    assert_eq!(parse_wid_from_name("wid-+7"), Some(7));
}

#[test]
fn rejects_other_prefixes() {
    assert_eq!(parse_wid_from_name("win-12"), None);
    assert_eq!(parse_wid_from_name("12"), None);
    assert_eq!(parse_wid_from_name(""), None);
}

#[test]
fn rejects_missing_or_bad_digits() {
    assert_eq!(parse_wid_from_name("wid-"), None);
    assert_eq!(parse_wid_from_name("wid-+"), None);
    assert_eq!(parse_wid_from_name("wid-12a"), None);
    assert_eq!(parse_wid_from_name("wid--1"), None);
    assert_eq!(parse_wid_from_name("wid- 1"), None);
}

#[test]
fn largest_window_id_fits_and_one_more_does_not() {
    assert_eq!(parse_wid_from_name("wid-4294967295"), Some(u32::MAX));
    assert_eq!(parse_wid_from_name("wid-4294967296"), None);
    assert_eq!(parse_wid_from_name("wid-99999999999999999999"), None);
}

#[test]
fn leading_zeros_are_accepted() {
    assert_eq!(parse_wid_from_name("wid-007"), Some(7));
}

#[test]
fn agrees_with_std_parsing() {
    for tail in ["0", "1", "+0", "00", "65536", "4294967295", "4294967296", "-0", "", "x", "1x", "٣"] {
        let name = format!("wid-{}", tail);
        assert_eq!(parse_wid_from_name(&name), tail.parse::<u32>().ok(), "tail {:?}", tail);
    }
}
