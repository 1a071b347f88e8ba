use clickpipe::issues::{find, has_missliced_ref};
use clickpipe::scan::Options;

fn with_template() -> Options {
    Options {
        issue_template: Some("https://forge.example.test/t/p/issues/{id}".into()),
        ..Options::default()
    }
}

fn spans(plain: &str, opts: &Options) -> Vec<(String, String)> {
    find(plain, opts)
        .into_iter()
        .map(|l| (plain[l.start..l.end].to_string(), l.href))
        .collect()
}

#[test]
fn bare_ref_links_through_the_configured_template() {
    assert_eq!(
        spans("fixes #142 for good", &with_template()),
        vec![(
            "#142".to_string(),
            "https://forge.example.test/t/p/issues/142".to_string()
        )]
    );
    assert_eq!(spans("(#7)", &with_template()).len(), 1);
    assert_eq!(spans("#7 first thing", &with_template()).len(), 1);
}

#[test]
fn bare_ref_without_a_template_stays_plain_text() {
    assert!(spans("fixes #142", &Options::default()).is_empty());
}

#[test]
fn hex_colors_and_identifiers_do_not_match() {
    let opts = with_template();
    assert!(spans("color: #142abc;", &opts).is_empty());
    assert!(spans("hash #142142142 overflow", &opts).is_empty());
    assert!(spans("word#142 glued", &opts).is_empty());
}

#[test]
fn cross_repo_ref_links_to_the_forge_without_any_template() {
    assert_eq!(
        spans("ported from tokio-rs/tokio#6120", &Options::default()),
        vec![(
            "tokio-rs/tokio#6120".to_string(),
            "https://github.com/tokio-rs/tokio/issues/6120".to_string()
        )]
    );
    let opts = Options {
        forge: "https://git.example.test".into(),
        ..Options::default()
    };
    assert_eq!(
        spans("see org/proj#9", &opts)[0].1,
        "https://git.example.test/org/proj/issues/9"
    );
}

#[test]
fn deep_paths_are_not_cross_repo_refs() {
    assert!(spans("see a/b/c#1", &Options::default()).is_empty());
}

#[test]
fn jira_keys_only_match_when_a_base_is_configured() {
    assert!(spans("work on PROJ-123", &Options::default()).is_empty());
    let opts = Options {
        jira: Some("https://jira.example.test".into()),
        ..Options::default()
    };
    assert_eq!(
        spans("work on PROJ-123 now", &opts),
        vec![(
            "PROJ-123".to_string(),
            "https://jira.example.test/browse/PROJ-123".to_string()
        )]
    );
}

#[test]
fn jira_key_boundaries_reject_identifier_like_strings() {
    let opts = Options {
        jira: Some("https://jira.example.test".into()),
        ..Options::default()
    };
    assert!(spans("id XPROJ-123x tail", &opts).is_empty());
    assert!(spans("branch PROJ-123-fix-crash", &opts).is_empty());
    assert!(spans("var MY_PROJ-1", &opts).is_empty());
    assert!(spans("grade A-1 beef", &opts).is_empty());
}

#[test]
fn multiple_refs_on_one_line_all_link() {
    let got = spans("closes #1, #2 and org/other#3", &with_template());
    assert_eq!(got.len(), 3);
    assert_eq!(got[0].0, "#1");
    assert_eq!(got[1].0, "#2");
    assert_eq!(got[2].0, "org/other#3");
}

#[test]
fn template_id_placeholder_is_replaced_everywhere() {
    let opts = Options {
        issue_template: Some("t/{id}?again={id}".into()),
        ..Options::default()
    };
    assert_eq!(spans("see #12", &opts), vec![("#12".to_string(), "t/12?again=12".to_string())]);
}

#[test]
fn refs_after_a_colon_link() {
    let opts = with_template();
    assert_eq!(spans("bug:#5", &opts).len(), 1);
    assert_eq!(spans("bug:#5", &opts)[0].0, "#5");
}

#[test]
fn misslicing_references_are_recognised() {
    assert!(has_missliced_ref("é/x#1"));
    assert!(has_missliced_ref("é#5"));
    assert!(has_missliced_ref("x\u{3000}#5"));
    assert!(!has_missliced_ref("é #5"));
    assert!(!has_missliced_ref("e/x#1"));
    assert!(!has_missliced_ref("no refs here"));
}

#[test]
fn slug_start_rules() {
    let opts = Options::default();
    assert!(spans("~/x#1", &opts).is_empty());
    assert!(spans("#a/b#1", &opts).is_empty());
    assert_eq!(spans("(a/b#1)", &opts)[0].0, "a/b#1");
    assert!(spans("/b#1", &opts).is_empty());
}

#[test]
fn hash_refs_use_the_parsed_number() {
    let got = spans("see #007", &with_template());
    assert_eq!(got, vec![("#007".to_string(), "https://forge.example.test/t/p/issues/7".to_string())]);
}
