use weave_core::v2::encoding::{encoding_differs, normalize_encoding, strip_separator, Encoding};

#[test]
fn crlf_and_bom_normalize_to_one_shape() {
    assert_eq!(normalize_encoding("a\r\nb\r\n"), "a\nb\n");
    assert_eq!(normalize_encoding("\u{feff}a\nb\n"), "a\nb\n");
    assert_eq!(normalize_encoding("\u{feff}a\r\nb\r\n"), "a\nb\n");
    assert_eq!(normalize_encoding("a\nb\n"), "a\nb\n");
}

#[test]
fn a_one_sided_crlf_conversion_is_reported_as_an_encoding_change() {
    assert!(encoding_differs("a\n", "a\r\n", "a\n"));
    assert!(!encoding_differs("a\n", "a\n", "a\n"));
    assert!(!encoding_differs("a\r\n", "a\r\n", "a\r\n"));
}

#[test]
fn an_encoding_all_three_share_is_restored() {
    let text = "\u{feff}a\r\nb\r\n";
    let e = Encoding::of(text, text, text);
    assert_eq!(e.apply(normalize_encoding(text)), text);
    let mixed = Encoding::of(text, "a\nb\n", text);
    assert_eq!(mixed.apply("a\nb\n".to_string()), "a\nb\n");
}

#[test]
fn a_separator_comes_off_the_end_of_an_entity() {
    assert_eq!(strip_separator("\"a\": 1,", Some(",")), "\"a\": 1");
    assert_eq!(strip_separator("\"a\": 1", Some(",")), "\"a\": 1");
    assert_eq!(strip_separator("a,", None), "a,");
}
