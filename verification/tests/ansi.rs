use clickpipe::ansi::AnsiLine;
use clickpipe::scan::{Kind, Link};

fn link(start: usize, end: usize, href: &str) -> Link {
    Link {
        start,
        end,
        kind: Kind::Url,
        href: href.to_string(),
    }
}

#[test]
fn plain_text_of_an_uncolored_line_is_the_line_itself() {
    let l = AnsiLine::parse("error in src/main.rs:3");
    assert_eq!(l.plain(), "error in src/main.rs:3");
    assert!(l.taken().is_empty());
}

#[test]
fn sgr_sequences_are_stripped_from_plain_but_kept_in_render() {
    let raw = "\x1b[1m\x1b[31merror\x1b[0m: boom";
    let l = AnsiLine::parse(raw);
    assert_eq!(l.plain(), "error: boom");
    assert_eq!(l.render(&[]), raw);
}

#[test]
fn render_wraps_a_match_in_the_middle_of_plain_text() {
    let l = AnsiLine::parse("see https://example.test now");
    let out = l.render(&[link(4, 24, "https://example.test")]);
    assert_eq!(
        out,
        "see \x1b]8;;https://example.test\x1b\\https://example.test\x1b]8;;\x1b\\ now"
    );
}

#[test]
fn render_keeps_color_changes_inside_the_wrapped_span() {
    let raw = "src/\x1b[01;31mmain\x1b[0m.rs";
    let l = AnsiLine::parse(raw);
    assert_eq!(l.plain(), "src/main.rs");
    let out = l.render(&[link(0, 11, "file:///w/src/main.rs")]);
    assert_eq!(
        out,
        "\x1b]8;;file:///w/src/main.rs\x1b\\src/\x1b[01;31mmain\x1b[0m.rs\x1b]8;;\x1b\\"
    );
}

#[test]
fn render_handles_adjacent_links_and_line_edges() {
    let l = AnsiLine::parse("a.rs b.rs");
    let out = l.render(&[link(0, 4, "file:///a.rs"), link(5, 9, "file:///b.rs")]);
    assert_eq!(
        out,
        "\x1b]8;;file:///a.rs\x1b\\a.rs\x1b]8;;\x1b\\ \x1b]8;;file:///b.rs\x1b\\b.rs\x1b]8;;\x1b\\"
    );
}

#[test]
fn existing_hyperlink_regions_are_reported_as_taken() {
    let raw = "x \x1b]8;;file:///etc/hosts\x1b\\hosts\x1b]8;;\x1b\\ y";
    let l = AnsiLine::parse(raw);
    assert_eq!(l.plain(), "x hosts y");
    assert_eq!(l.taken(), &[(2, 7)]);
    assert_eq!(l.render(&[]), raw);
}

#[test]
fn osc8_variants_bel_terminated_unclosed_and_with_params_are_taken() {
    let l = AnsiLine::parse("\x1b]8;;https://example.test\x07here\x1b]8;;\x07 tail");
    assert_eq!(l.plain(), "here tail");
    assert_eq!(l.taken(), &[(0, 4)]);
    let l = AnsiLine::parse("\x1b]8;;https://example.test\x1b\\tail text");
    assert_eq!(l.taken(), &[(0, 9)]);
    let l = AnsiLine::parse("\x1b]8;id=xyz;https://example.test\x1b\\t\x1b]8;;\x1b\\");
    assert_eq!(l.taken(), &[(0, 1)]);
}

#[test]
fn malformed_and_non_link_escapes_round_trip_unharmed() {
    let raw = "half\x1b";
    let l = AnsiLine::parse(raw);
    assert_eq!(l.plain(), "half");
    assert_eq!(l.render(&[]), raw);
    let raw = "\x1b]0;my title\x07visible";
    let l = AnsiLine::parse(raw);
    assert_eq!(l.plain(), "visible");
    assert!(l.taken().is_empty());
    assert_eq!(l.render(&[]), raw);
}

#[test]
fn multibyte_text_around_escapes_keeps_byte_offsets_consistent() {
    let raw = "héllo \x1b[32mwörld\x1b[0m a.rs";
    let l = AnsiLine::parse(raw);
    assert_eq!(l.plain(), "héllo wörld a.rs");
    let start = l.plain().find("a.rs").unwrap();
    let out = l.render(&[link(start, start + 4, "file:///a.rs")]);
    assert!(out.ends_with("\x1b]8;;file:///a.rs\x1b\\a.rs\x1b]8;;\x1b\\"));
    assert!(out.starts_with("héllo \x1b[32mwörld\x1b[0m "));
}

#[test]
fn every_escape_kind_passes_through_render_unchanged() {
    let raw = "a\x1b(Bb\x1b7c\x1bPdata\x1b\\d\x1b[38;5;12me\x1b]8;;x\x07f";
    let l = AnsiLine::parse(raw);
    assert_eq!(l.plain(), "abcdef");
    assert_eq!(l.render(&[]), raw);
    assert_eq!(l.taken(), &[(5, 6)]);
}

#[test]
fn a_cut_short_string_sequence_ends_at_the_next_escape() {
    let raw = "\x1b]0;title\x1b[1mbold";
    let l = AnsiLine::parse(raw);
    assert_eq!(l.plain(), "bold");
    assert_eq!(l.render(&[]), raw);
}

#[test]
fn a_link_across_an_escape_closes_after_its_last_visible_byte() {
    let l = AnsiLine::parse("ab\x1b[0mcd\x1b[1m");
    assert_eq!(l.plain(), "abcd");
    let out = l.render(&[link(1, 4, "u")]);
    assert_eq!(out, "a\x1b]8;;u\x1b\\b\x1b[0mcd\x1b]8;;\x1b\\\x1b[1m");
}

#[test]
fn a_link_opens_after_escapes_before_its_first_byte() {
    let l = AnsiLine::parse("x\x1b[1my");
    let out = l.render(&[link(1, 2, "h t")]);
    assert_eq!(out, "x\x1b[1m\x1b]8;;h%20t\x1b\\y\x1b]8;;\x1b\\");
}

#[test]
fn taken_regions_come_in_order() {
    let raw = "\x1b]8;;a\x1b\\one\x1b]8;;\x1b\\ \x1b]8;;b\x1b\\two\x1b]8;;\x1b\\ \x1b]8;;c\x1b\\\x1b]8;;\x1b\\";
    let l = AnsiLine::parse(raw);
    assert_eq!(l.plain(), "one two ");
    assert_eq!(l.taken(), &[(0, 3), (4, 7)]);
}

#[test]
fn empty_links_wrap_nothing_before_their_byte() {
    let l = AnsiLine::parse("a\x1b[1mbc");
    let out = l.render(&[link(1, 1, "e"), link(1, 2, "f")]);
    assert_eq!(
        out,
        "a\x1b[1m\x1b]8;;e\x1b\\\x1b]8;;\x1b\\\x1b]8;;f\x1b\\b\x1b]8;;\x1b\\c"
    );
    // An empty link at the very end of the text is never written.
    assert_eq!(l.render(&[link(3, 3, "z")]), "a\x1b[1mbc");
}

#[test]
fn rendered_output_reads_back_with_the_same_visible_text() {
    let raw = "héllo \x1b[32mwörld\x1b[0m a.rs\x1b";
    let l = AnsiLine::parse(raw);
    let out = l.render(&[link(0, 6, "x y"), link(13, 17, "file:///a.rs")]);
    let back = AnsiLine::parse(&out);
    assert_eq!(back.plain(), l.plain());
}

#[test]
fn rendered_links_read_back_as_taken_regions() {
    let l = AnsiLine::parse("a.rs and \x1b[1mb.rs\x1b[0m");
    let out = l.render(&[link(0, 4, "file:///a.rs"), link(7, 7, "e"), link(9, 13, "file:///b.rs")]);
    let back = AnsiLine::parse(&out);
    assert_eq!(back.taken(), &[(0, 4), (9, 13)]);
}

#[test]
fn plain_text_never_holds_an_escape() {
    for raw in ["a\x1b[1mb\x1b", "\x1b]8;;x\x07y\x1b\\z", "\x1b\x1bq", "plain"] {
        assert!(!AnsiLine::parse(raw).plain().contains('\x1b'));
    }
}
