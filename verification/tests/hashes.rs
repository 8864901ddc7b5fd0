use pi::hashline::{header, view_hash};

#[test]
fn a_header_names_the_file() {
    assert_eq!(header("src/a.rs"), "[src/a.rs]");
}

#[test]
fn a_view_hash_is_four_hexadecimal_digits() {
    // FNV-1a of the empty text is 811C9DC5, and its two halves fold to 1CD9.
    assert_eq!(view_hash(""), "1CD9");
    // FNV-1a of "a" is E40C292C.
    assert_eq!(view_hash("a"), "CD20");
    assert_ne!(view_hash("fn a() {}\n"), view_hash("fn b() {}\n"));
}
