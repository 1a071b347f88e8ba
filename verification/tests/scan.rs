use clickpipe::scan::{drop_taken, resolve, scan, Kind, Link, Options};

fn opts_no_check() -> Options {
    Options {
        check: false,
        ..Options::default()
    }
}

fn texts<'a>(plain: &'a str, links: &[Link]) -> Vec<&'a str> {
    links.iter().map(|l| &plain[l.start..l.end]).collect()
}

fn link(start: usize, end: usize, kind: Kind, href: &str) -> Link {
    Link {
        start,
        end,
        kind,
        href: href.into(),
    }
}

#[test]
fn url_wins_over_the_path_candidate_inside_it() {
    let plain = "get https://example.test/x/y.rs now";
    let links = scan(plain, &opts_no_check());
    assert_eq!(links.len(), 1);
    assert_eq!(links[0].kind, Kind::Url);
    assert_eq!(texts(plain, &links), vec!["https://example.test/x/y.rs"]);
}

#[test]
fn longer_issue_ref_beats_the_path_candidate_at_the_same_start() {
    let plain = "fixed in tokio-rs/tokio#6120 yesterday";
    let links = scan(plain, &opts_no_check());
    assert_eq!(links.len(), 1);
    assert_eq!(links[0].kind, Kind::Issue);
    assert_eq!(texts(plain, &links), vec!["tokio-rs/tokio#6120"]);
}

#[test]
fn disabled_detectors_produce_nothing() {
    let plain = "https://example.test and src/lib.rs:1 and a/b#12";
    let opts = Options {
        urls: false,
        files: false,
        issues: false,
        ..opts_no_check()
    };
    assert!(scan(plain, &opts).is_empty());
}

#[test]
fn links_come_back_sorted_and_non_overlapping() {
    let plain = "err at src/a.rs:1:2 see https://example.test/doc";
    let links = scan(plain, &opts_no_check());
    assert_eq!(links.len(), 2);
    assert!(links[0].start < links[1].start);
    assert!(links[0].end <= links[1].start);
    assert_eq!(links[0].kind, Kind::Path);
    assert_eq!(links[1].kind, Kind::Url);
}

#[test]
fn drop_taken_removes_overlaps_but_keeps_touching_ranges() {
    let links = vec![link(0, 4, Kind::Path, "a"), link(10, 20, Kind::Url, "b")];
    let kept = drop_taken(links, &[(3, 5)]);
    assert_eq!(kept.len(), 1);
    assert_eq!(kept[0].href, "b");
    let links = vec![link(5, 9, Kind::Path, "a")];
    assert_eq!(drop_taken(links, &[(0, 5), (9, 12)]).len(), 1);
}

#[test]
fn empty_line_scans_to_nothing() {
    assert!(scan("", &Options::default()).is_empty());
}

#[test]
fn resolve_orders_by_start_then_length_then_kind() {
    let got = resolve(vec![
        link(5, 8, Kind::Issue, "i"),
        link(0, 3, Kind::Path, "p"),
        link(0, 3, Kind::Url, "u"),
        link(0, 4, Kind::Issue, "long"),
        link(4, 6, Kind::Url, "next"),
    ]);
    let hrefs: Vec<&str> = got.iter().map(|l| l.href.as_str()).collect();
    assert_eq!(hrefs, vec!["long", "next"]);
}

#[test]
fn resolve_keeps_equal_candidates_in_their_given_order() {
    let got = resolve(vec![link(0, 2, Kind::Url, "first"), link(0, 2, Kind::Url, "second")]);
    assert_eq!(got.len(), 1);
    assert_eq!(got[0].href, "first");
}

#[test]
fn every_dropped_candidate_overlaps_a_kept_link() {
    let cands = vec![
        link(0, 10, Kind::Url, "a"),
        link(2, 4, Kind::Path, "b"),
        link(9, 12, Kind::Issue, "c"),
        link(12, 13, Kind::Issue, "d"),
    ];
    let kept = resolve(cands.clone());
    assert_eq!(kept.len(), 2);
    for c in &cands {
        assert!(kept.contains(c) || kept.iter().any(|k| k.start < c.end && k.end > c.start));
    }
}

#[test]
fn drop_taken_without_taken_ranges_keeps_everything() {
    let links = vec![link(0, 1, Kind::Url, "x"), link(1, 2, Kind::Url, "y")];
    assert_eq!(drop_taken(links.clone(), &[]), links);
}

#[test]
fn kind_labels_and_priorities() {
    assert_eq!(Kind::Url.label(), "url");
    assert_eq!(Kind::Path.label(), "path");
    assert_eq!(Kind::Issue.label(), "issue");
    assert!(Kind::Url.priority() < Kind::Path.priority());
    assert!(Kind::Path.priority() < Kind::Issue.priority());
}

#[test]
fn default_options_are_the_documented_ones() {
    let o = Options::default();
    assert!(o.files && o.urls && o.issues && o.check);
    assert_eq!(o.cwd, ".");
    assert_eq!(o.host, "");
    assert_eq!(o.forge, "https://github.com");
    assert!(o.home.is_none() && o.editor.is_none() && o.issue_template.is_none() && o.jira.is_none());
}

#[test]
fn a_dropped_candidate_overlaps_a_kept_link_that_comes_first() {
    let cands = vec![
        link(3, 6, Kind::Issue, "late"),
        link(0, 4, Kind::Path, "first"),
        link(0, 4, Kind::Url, "url-first"),
    ];
    let kept = resolve(cands.clone());
    assert_eq!(kept.len(), 1);
    assert_eq!(kept[0].href, "url-first");
    for c in &cands {
        assert!(kept.iter().filter(|k| *k == c).count() <= cands.iter().filter(|k| *k == c).count());
    }
}

#[test]
fn every_scanned_link_comes_from_an_enabled_detector() {
    let plain = "see https://example.test/a and src/x.rs:3 and a/b#4";
    let opts = Options { files: false, ..opts_no_check() };
    let links = scan(plain, &opts);
    assert!(links.iter().all(|l| l.kind != Kind::Path));
    assert!(!links.is_empty());
}
