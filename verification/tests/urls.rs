use clickpipe::urls::find;

fn spans(text: &str) -> Vec<(String, String)> {
    find(text)
        .into_iter()
        .map(|l| (text[l.start..l.end].to_string(), l.href))
        .collect()
}

#[test]
fn plain_https_url_is_found_verbatim_and_case_insensitively() {
    assert_eq!(
        spans("docs at https://example.test/guide today"),
        vec![(
            "https://example.test/guide".to_string(),
            "https://example.test/guide".to_string()
        )]
    );
    assert_eq!(spans("HTTPS://EXAMPLE.TEST/A")[0].0, "HTTPS://EXAMPLE.TEST/A");
}

#[test]
fn query_and_fragment_are_part_of_the_link() {
    let url = "https://example.test/search?q=a+b&lang=en#results";
    assert_eq!(spans(url), vec![(url.to_string(), url.to_string())]);
}

#[test]
fn trailing_sentence_punctuation_is_trimmed() {
    assert_eq!(spans("see https://example.test/a.")[0].0, "https://example.test/a");
    assert_eq!(spans("see https://example.test/a,")[0].0, "https://example.test/a");
    assert_eq!(spans("really https://example.test/a?!")[0].0, "https://example.test/a");
}

#[test]
fn unbalanced_closing_paren_is_trimmed_but_balanced_is_kept() {
    assert_eq!(spans("(then https://example.test/a)")[0].0, "https://example.test/a");
    let wiki = "https://en.wikipedia.org/wiki/Pipe_(Unix)";
    assert_eq!(spans(wiki)[0].0, wiki);
}

#[test]
fn brackets_quotes_backticks_and_pipes_delimit_the_url() {
    assert_eq!(spans("<https://example.test/a>")[0].0, "https://example.test/a");
    assert_eq!(spans("href=\"https://example.test/a\"")[0].0, "https://example.test/a");
    assert_eq!(spans("`https://example.test/a`")[0].0, "https://example.test/a");
    assert_eq!(spans("https://example.test/a|next")[0].0, "https://example.test/a");
}

#[test]
fn www_prefix_gets_an_https_href_but_keeps_its_text() {
    let links = find("visit www.example.test/x now");
    assert_eq!(links.len(), 1);
    assert_eq!(
        &"visit www.example.test/x now"[links[0].start..links[0].end],
        "www.example.test/x"
    );
    assert_eq!(links[0].href, "https://www.example.test/x");
}

#[test]
fn scheme_must_start_at_a_word_boundary_and_have_substance() {
    assert!(spans("xhttps://example.test").is_empty());
    assert!(spans("foo.www.example").is_empty());
    assert!(spans("the https:// prefix and http://. too").is_empty());
    assert_eq!(spans("[https://example.test/a]")[0].0, "https://example.test/a");
}

#[test]
fn file_urls_are_linked_as_is() {
    assert_eq!(
        spans("wrote file:///tmp/out.txt")[0],
        ("file:///tmp/out.txt".to_string(), "file:///tmp/out.txt".to_string())
    );
}

#[test]
fn multiple_urls_on_one_line_are_all_found_in_order() {
    let got = spans("a https://example.test/1 b http://example.test/2 c");
    assert_eq!(got.len(), 2);
    assert_eq!(got[0].0, "https://example.test/1");
    assert_eq!(got[1].0, "http://example.test/2");
}

#[test]
fn non_ascii_iri_bytes_are_percent_encoded_in_the_href_only() {
    let text = "read https://example.test/café now";
    let links = find(text);
    assert_eq!(&text[links[0].start..links[0].end], "https://example.test/café");
    assert_eq!(links[0].href, "https://example.test/caf%C3%A9");
}

#[test]
fn unicode_space_ends_a_url() {
    let text = "at https://example.test/a\u{a0}b";
    assert_eq!(spans(text)[0].0, "https://example.test/a");
}

#[test]
fn url_links_start_and_end_on_character_boundaries() {
    let text = "é https://é.test/ü… ok";
    for l in find(text) {
        assert!(text.is_char_boundary(l.start) && text.is_char_boundary(l.end));
        assert!(l.start < l.end);
    }
    assert_eq!(spans(text)[0].0, "https://é.test/ü…");
}

#[test]
fn unbalanced_bracket_and_brace_are_trimmed() {
    assert_eq!(spans("[x https://example.test/a]")[0].0, "https://example.test/a");
    assert_eq!(spans("{https://example.test/a}}")[0].0, "https://example.test/a");
    assert_eq!(spans("https://example.test/{a}")[0].0, "https://example.test/{a}");
}

#[test]
fn glued_www_is_not_a_url_but_www_after_space_is() {
    assert!(spans("me@www.example.test").is_empty());
    assert_eq!(spans("go www.e.test")[0].1, "https://www.e.test");
    assert!(spans("www.").is_empty());
}

#[test]
fn url_links_are_ordered_clean_and_ascii() {
    let text = "x https://é.test/a b\twww.b.test/c| \"http://c.test/d\"";
    let links = find(text);
    assert_eq!(links.len(), 3);
    for w in links.windows(2) {
        assert!(w[0].end <= w[1].start);
    }
    for l in &links {
        let span = &text[l.start..l.end];
        assert!(!span.chars().any(|c| c.is_whitespace() || c.is_control() || "<>\"'`|".contains(c)));
        assert!(l.href.is_ascii());
    }
}

#[test]
fn trimming_keeps_balanced_brackets_and_drops_prose_punctuation() {
    assert_eq!(spans("(https://a.test/x_(y)).")[0].0, "https://a.test/x_(y)");
    assert_eq!(spans("https://a.test/z]]!")[0].0, "https://a.test/z");
}
