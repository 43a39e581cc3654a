use todo_store::icon::{icon_lookup_extension, sanitize_extension};

#[test]
fn lowercases_and_keeps_letters() {
    assert_eq!(sanitize_extension("PNG"), "png");
}

#[test]
fn trims_surrounding_whitespace() {
    assert_eq!(sanitize_extension("  png  "), "png");
}

#[test]
fn trimming_happens_before_truncation() {
    // 25 leading spaces: untrimmed, the 20-character window would hold
    // nothing but whitespace
    let padded = format!("{}png", " ".repeat(25));
    assert_eq!(sanitize_extension(&padded), "png");
}

#[test]
fn strips_unsafe_characters() {
    assert_eq!(sanitize_extension("p@n#g!"), "png");
    assert_eq!(sanitize_extension("tar.gz"), "tar.gz");
    assert_eq!(sanitize_extension("../../etc"), "....etc");
}

#[test]
fn truncates_to_twenty_characters() {
    let long = "abcdefghijklmnopqrstuvwxyz";
    assert_eq!(sanitize_extension(long), "abcdefghijklmnopqrst");
}

#[test]
fn digits_survive() {
    assert_eq!(sanitize_extension("Mp3"), "mp3");
}

#[test]
fn empty_and_unsafe_extensions_skip_the_lookup() {
    assert_eq!(icon_lookup_extension(""), None);
    assert_eq!(icon_lookup_extension("   "), None);
    assert_eq!(icon_lookup_extension("@#!"), None);
}

#[test]
fn safe_extension_is_looked_up() {
    assert_eq!(icon_lookup_extension(" TXT "), Some("txt".to_string()));
}
