use clickpipe::paths::{find, lexical_normalize, needs_existence_answers};
use clickpipe::scan::{Link, Options};
use clickpipe::uri::Editor;

fn loose() -> Options {
    Options {
        check: false,
        cwd: "/work".into(),
        ..Options::default()
    }
}

fn one(plain: &str, opts: &Options) -> Link {
    let links = find(plain, opts);
    assert_eq!(links.len(), 1, "expected exactly one link in {plain:?}: {links:?}");
    links.into_iter().next().unwrap()
}

fn span<'a>(plain: &'a str, l: &Link) -> &'a str {
    &plain[l.start..l.end]
}

#[test]
fn rustc_style_line_and_column_are_clickable_and_in_the_href() {
    let plain = " --> src/main.rs:14:9";
    let l = one(plain, &loose());
    assert_eq!(span(plain, &l), "src/main.rs:14:9");
    assert_eq!(l.href, "file:///work/src/main.rs");
}

#[test]
fn editor_scheme_carries_line_and_column() {
    let opts = Options {
        editor: Some(Editor::from_arg("vscode").unwrap()),
        ..loose()
    };
    let l = one("err at src/main.rs:14:9:", &opts);
    assert_eq!(l.href, "vscode://file/work/src/main.rs:14:9");
}

#[test]
fn gcc_style_trailing_colon_stays_outside_the_span() {
    let plain = "lib.c:31:12: warning: unused";
    let l = one(plain, &loose());
    assert_eq!(span(plain, &l), "lib.c:31:12");
}

#[test]
fn msvc_parenthesized_location_is_parsed() {
    let plain = r"main.cpp(31,7): error C2065";
    let opts = Options {
        editor: Some(Editor::from_arg("vscode").unwrap()),
        ..loose()
    };
    let l = one(plain, &opts);
    assert_eq!(span(plain, &l), "main.cpp(31,7)");
    assert_eq!(l.href, "vscode://file/work/main.cpp:31:7");
}

#[test]
fn python_traceback_file_line_is_contextual() {
    let plain = "  File \"/app/tool.py\", line 88, in main";
    let opts = Options {
        editor: Some(Editor::from_arg("vscode").unwrap()),
        ..loose()
    };
    let l = one(plain, &opts);
    assert_eq!(span(plain, &l), "/app/tool.py");
    assert_eq!(l.href, "vscode://file/app/tool.py:88");
}

#[test]
fn absolute_path_without_line_info_links_to_a_file_uri() {
    let opts = Options {
        host: "devbox".into(),
        ..loose()
    };
    let l = one("log at /var/log/app/current.log now", &opts);
    assert_eq!(l.href, "file://devbox/var/log/app/current.log");
}

#[test]
fn relative_dot_prefixes_are_resolved_lexically() {
    let l = one("wrote ./out/../report.txt", &loose());
    assert_eq!(l.href, "file:///work/report.txt");
}

#[test]
fn tilde_expands_against_the_configured_home_or_is_skipped() {
    let opts = Options {
        home: Some("/home/dev".into()),
        ..loose()
    };
    let l = one("config: ~/.config/tool/config.toml", &opts);
    assert_eq!(l.href, "file:///home/dev/.config/tool/config.toml");
    assert!(find("see ~/notes.txt", &loose()).is_empty());
}

#[test]
fn prose_slash_words_and_version_numbers_are_not_paths() {
    assert!(find("the input/output ratio and/or more", &loose()).is_empty());
    assert!(find("upgrade 1.2.3 to 1.2.4:5 now", &loose()).is_empty());
    assert!(find("pull from git@example.test:org/repo.git", &loose())
        .iter()
        .all(|l| !l.href.contains('@')));
}

#[test]
fn bare_filename_needs_both_extension_and_line_number() {
    assert!(find("compile main.c today", &loose()).is_empty());
    let plain = "main.c:12: undefined reference";
    assert_eq!(span(plain, &one(plain, &loose())), "main.c:12");
}

#[test]
fn trailing_sentence_dot_is_trimmed() {
    let plain = "saved to /tmp/out/result.json.";
    let l = one(plain, &loose());
    assert_eq!(span(plain, &l), "/tmp/out/result.json");
}

#[test]
fn spaces_in_resolved_paths_are_percent_encoded() {
    let opts = Options {
        cwd: "/work/my dir".into(),
        ..loose()
    };
    let l = one("see src/a.rs:1", &opts);
    assert_eq!(l.href, "file:///work/my%20dir/src/a.rs");
}

#[test]
fn node_stack_frame_paths_inside_parens_are_found() {
    let plain = "    at Object.<anonymous> (/app/src/index.js:10:15)";
    let l = one(plain, &loose());
    assert_eq!(span(plain, &l), "/app/src/index.js:10:15");
}

#[test]
fn lexical_normalize_resolves_dots_without_touching_the_fs() {
    assert_eq!(lexical_normalize("/a/b/../c/./d"), "/a/c/d");
    assert_eq!(lexical_normalize("/../x"), "/x");
}

#[test]
fn line_numbers_longer_than_seven_digits_are_ignored() {
    let plain = "blob /data/objects/pack.idx:123456789";
    let l = one(plain, &loose());
    assert_eq!(span(plain, &l), "/data/objects/pack.idx");
}

#[test]
fn lexical_normalize_edge_cases() {
    assert_eq!(lexical_normalize("a/../../b"), "../b");
    assert_eq!(lexical_normalize("./a//b/"), "a/b");
    assert_eq!(lexical_normalize("/"), "/");
    assert_eq!(lexical_normalize(""), "");
}

#[test]
fn lexical_normalize_is_idempotent_on_examples() {
    for p in ["/a/./b/../../c", "x/y/../z", "../../q", "/.."] {
        let once = lexical_normalize(p);
        assert_eq!(lexical_normalize(&once), once);
    }
}

#[test]
fn with_the_check_on_candidates_need_answers() {
    let opts = Options {
        check: true,
        cwd: "/w".into(),
        ..Options::default()
    };
    assert!(needs_existence_answers("see input/output now", &opts));
    assert!(needs_existence_answers("src/real.rs:1 and src/ghost.rs:2", &opts));
    assert!(!needs_existence_answers("see input/output now", &loose()));
    // Prose without path candidates needs no answers, and links nothing.
    assert!(!needs_existence_answers("the src directory holds code", &opts));
    assert!(find("the src directory holds code", &opts).is_empty());
}
