use clickpipe::osc8::{open, sanitize, CLOSE};

#[test]
fn open_and_close_emit_the_documented_byte_sequences() {
    assert_eq!(
        open("https://example.test/a"),
        "\x1b]8;;https://example.test/a\x1b\\"
    );
    assert_eq!(CLOSE, "\x1b]8;;\x1b\\");
}

#[test]
fn sanitize_percent_encodes_spaces_controls_and_non_ascii() {
    assert_eq!(sanitize("file:///a b\x1b\x07"), "file:///a%20b%1B%07");
    assert_eq!(
        sanitize("https://example.test/é"),
        "https://example.test/%C3%A9"
    );
}

#[test]
fn sanitize_leaves_clean_uris_untouched() {
    let uri = "vscode://file/tmp/a.rs:3:7";
    assert_eq!(sanitize(uri), uri);
}

#[test]
fn sanitizing_twice_changes_nothing_more() {
    let once = sanitize("a b\tç\x7f");
    assert_eq!(once, "a%20b%09%C3%A7%7F");
    assert_eq!(sanitize(&once), once);
}

#[test]
fn open_sanitizes_its_uri() {
    assert_eq!(open("a b"), "\x1b]8;;a%20b\x1b\\");
    assert_eq!(open(""), "\x1b]8;;\x1b\\");
}
