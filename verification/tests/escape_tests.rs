use cmdvault::escape::{escape_field, unescape_range};

#[test]
fn escape_exact_form() {
    assert_eq!(escape_field("plain text"), "plain text");
    assert_eq!(escape_field("a\tb"), "a\\tb");
    assert_eq!(escape_field("a\nb"), "a\\nb");
    assert_eq!(escape_field("a\\b"), "a\\\\b");
    assert_eq!(escape_field(""), "");
}

#[test]
fn unescape_undoes_escape() {
    let original = "mixed \t \n \\ text";
    let escaped = escape_field(original);
    let n = escaped.chars().count();
    assert_eq!(unescape_range(&escaped, 0, n), Some(String::from(original)));
}

#[test]
fn unescape_rejects_invalid_fields() {
    assert_eq!(unescape_range("a\\zb", 0, 4), None);
    assert_eq!(unescape_range("end\\", 0, 4), None);
    assert_eq!(unescape_range("a\tb", 0, 3), None);
    assert_eq!(unescape_range("a\nb", 0, 3), None);
}

#[test]
fn unescape_works_on_a_region() {
    // Characters 2..6 of "xx" + "a\\tb" + "yy" form the escaped field.
    assert_eq!(unescape_range("xxa\\tbyy", 2, 6), Some(String::from("a\tb")));
}
