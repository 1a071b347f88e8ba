use clickpipe::ansi::AnsiLine;
use clickpipe::cli::{
    configure, filter_line, is_active, Filter, line_plan, linkify_enabled, needs_discovery, parse_args,
    passthrough, plural, repo_template, split_terminator, Flags, LineScan, Parsed, Stats, When,
};
use clickpipe::scan::{Kind, Link, Options};

fn args(v: &[&str]) -> Vec<String> {
    v.iter().map(|s| s.to_string()).collect()
}

fn run_flags(v: &[&str]) -> Flags {
    match parse_args(args(v)) {
        Ok(Parsed::Run(f)) => f,
        Ok(_) => panic!("expected a run"),
        Err(e) => panic!("unexpected error {e}"),
    }
}

fn error_of(v: &[&str]) -> String {
    match parse_args(args(v)) {
        Err(e) => e,
        Ok(_) => panic!("expected an error"),
    }
}

#[test]
fn split_terminator_handles_lf_crlf_and_eof() {
    assert_eq!(split_terminator(b"abc\n"), (&b"abc"[..], &b"\n"[..]));
    assert_eq!(split_terminator(b"abc\r\n"), (&b"abc"[..], &b"\r\n"[..]));
    assert_eq!(split_terminator(b"abc"), (&b"abc"[..], &b""[..]));
    assert_eq!(split_terminator(b"\n"), (&b""[..], &b"\n"[..]));
}

#[test]
fn lone_carriage_return_is_body() {
    assert_eq!(split_terminator(b"a\r"), (&b"a\r"[..], &b""[..]));
    assert_eq!(split_terminator(b""), (&b""[..], &b""[..]));
}

#[test]
fn help_and_version_stop_parsing() {
    assert!(matches!(parse_args(args(&["-h", "--bogus"])), Ok(Parsed::Help)));
    assert!(matches!(parse_args(args(&["--help"])), Ok(Parsed::Help)));
    assert!(matches!(parse_args(args(&["-V"])), Ok(Parsed::Version)));
    assert!(matches!(parse_args(args(&["--version"])), Ok(Parsed::Version)));
    assert_eq!(error_of(&["--help=yes"]), "--help does not take a value");
    assert_eq!(error_of(&["--version=1"]), "--version does not take a value");
}

#[test]
fn bad_flags_and_values_are_reported() {
    assert_eq!(error_of(&["--frobnicate"]), "unknown option '--frobnicate'");
    assert_eq!(error_of(&["--frob=1"]), "unknown option '--frob'");
    assert_eq!(error_of(&["-x"]), "unknown option '-x'");
    assert_eq!(error_of(&["--when", "sometimes"]), "invalid --when 'sometimes' (auto|always|never)");
    assert_eq!(error_of(&["--when"]), "--when requires a value");
    assert_eq!(
        error_of(&["--issues", "https://x.test/no-placeholder"]),
        "--issues template must contain {id}"
    );
    assert_eq!(error_of(&["--repo", "not-a-slug"]), "--repo 'not-a-slug' must look like OWNER/NAME");
    assert_eq!(error_of(&["--repo=/a"]), "--repo '/a' must look like OWNER/NAME");
    assert_eq!(error_of(&["--repo", "a/"]), "--repo 'a/' must look like OWNER/NAME");
    assert!(error_of(&["--editor", "nano"]).starts_with("unknown editor 'nano'"));
    assert_eq!(error_of(&["--dump=yes"]), "--dump does not take a value");
}

#[test]
fn values_come_inline_or_from_the_next_argument() {
    let f = run_flags(&[
        "--when=always",
        "--cwd",
        "/w",
        "--host=h",
        "--issues",
        "t/{id}",
        "--repo",
        "a/b",
        "--jira=https://j.test//",
        "--forge",
        "https://f.test/",
        "--editor=zed",
    ]);
    assert_eq!(f.when, When::Always);
    assert_eq!(f.cwd.as_deref(), Some("/w"));
    assert_eq!(f.host.as_deref(), Some("h"));
    assert_eq!(f.issue_tpl.as_deref(), Some("t/{id}"));
    assert_eq!(f.repo.as_deref(), Some("a/b"));
    assert_eq!(f.opts.jira.as_deref(), Some("https://j.test"));
    assert_eq!(f.opts.forge, "https://f.test");
    assert!(f.opts.editor.is_some());
    assert!(f.inputs.is_empty());
}

#[test]
fn switches_and_inputs() {
    let f = run_flags(&[
        "a.log", "--no-git", "--no-check", "-", "--no-files", "--no-urls", "--no-issues", "--dump",
        "--stats", "x=y",
    ]);
    assert!(f.no_git && f.dump && f.stats);
    assert!(!f.opts.check && !f.opts.files && !f.opts.urls && !f.opts.issues);
    assert_eq!(f.inputs, vec!["a.log", "-", "x=y"]);
    let f = run_flags(&[]);
    assert_eq!(f.when, When::Auto);
    assert!(f.opts.check && f.opts.files && f.opts.urls && f.opts.issues);
    assert_eq!(f.opts.forge, "https://github.com");
}

#[test]
fn a_value_may_look_like_a_flag() {
    let f = run_flags(&["--host", "--dump"]);
    assert_eq!(f.host.as_deref(), Some("--dump"));
    assert!(!f.dump);
}

#[test]
fn configuration_fills_in_the_environment() {
    let f = run_flags(&["--repo", "acme/widgets"]);
    assert!(!needs_discovery(&f));
    let c = configure(f, Some("/cur".into()), Some("/home/u".into()), Some("box".into()), None);
    assert_eq!(c.opts.cwd, "/cur");
    assert_eq!(c.opts.home.as_deref(), Some("/home/u"));
    assert_eq!(c.opts.host, "box");
    assert_eq!(
        c.opts.issue_template.as_deref(),
        Some("https://github.com/acme/widgets/issues/{id}")
    );
    let f = run_flags(&["--cwd", "/given", "--host", "h"]);
    assert!(needs_discovery(&f));
    let c = configure(f, None, None, None, Some("disc/{id}".into()));
    assert_eq!(c.opts.cwd, "/given");
    assert_eq!(c.opts.host, "h");
    assert_eq!(c.opts.issue_template.as_deref(), Some("disc/{id}"));
    let f = run_flags(&["--no-git", "--cwd", "/g", "--host", "h"]);
    assert!(!needs_discovery(&f));
    let c = configure(f, None, None, None, Some("disc/{id}".into()));
    assert_eq!(c.opts.issue_template, None);
    let f = run_flags(&["--issues", "mine/{id}", "--repo", "a/b", "--cwd", "/", "--host", "h"]);
    let c = configure(f, None, None, None, None);
    assert_eq!(c.opts.issue_template.as_deref(), Some("mine/{id}"));
}

#[test]
fn repo_template_points_at_github_issues() {
    assert_eq!(repo_template("o/n"), "https://github.com/o/n/issues/{id}");
}

#[test]
fn linkify_mode_decisions() {
    assert!(linkify_enabled(When::Always, false, Some("dumb")));
    assert!(!linkify_enabled(When::Never, true, None));
    assert!(linkify_enabled(When::Auto, true, None));
    assert!(linkify_enabled(When::Auto, true, Some("xterm")));
    assert!(!linkify_enabled(When::Auto, true, Some("dumb")));
    assert!(!linkify_enabled(When::Auto, false, None));
    let f = run_flags(&["--dump", "--cwd", "/", "--host", "h"]);
    let c = configure(f, None, None, None, None);
    assert!(is_active(&c, false, None));
}

#[test]
fn plural_and_summary() {
    assert_eq!(plural(1, "line"), "1 line");
    assert_eq!(plural(0, "link"), "0 links");
    assert_eq!(plural(12, "path"), "12 paths");
    let mut s = Stats::default();
    s.count_line();
    s.count_line();
    let links = vec![
        Link { start: 0, end: 1, kind: Kind::Path, href: "p".into() },
        Link { start: 1, end: 2, kind: Kind::Url, href: "u".into() },
        Link { start: 2, end: 3, kind: Kind::Issue, href: "i".into() },
    ];
    assert!(s.room_for(&links));
    s.count_links(&links);
    assert_eq!(s.summary(), "clickpipe: 2 lines, 3 links (1 path, 1 url, 1 issue)");
    let full = Stats { lines: 0, paths: u64::MAX, urls: 0, issues: 0 };
    assert!(!full.room_for(&links));
    assert!(full.room_for(&links[1..]));
}

#[test]
fn lines_that_are_not_utf8_or_not_active_pass_through() {
    assert!(line_plan(b"\xff\xfe broken \x80 line\n", true).is_none());
    assert!(line_plan(b"fine\n", false).is_none());
    let (text, term) = line_plan(b"fine\r\n", true).unwrap();
    assert_eq!(text, "fine");
    assert_eq!(term, b"\r\n");
    assert_eq!(passthrough(b"raw\n", false), b"raw\n");
    assert_eq!(passthrough(b"raw\n", true), b"");
}

fn loose() -> Options {
    Options {
        check: false,
        cwd: "/w".into(),
        host: "h".into(),
        ..Options::default()
    }
}

#[test]
fn a_line_is_rendered_with_its_terminator() {
    let opts = loose();
    let line = AnsiLine::parse("see https://example.test/a now");
    let ls = LineScan::new(&line, &opts);
    assert!(ls.question().is_none());
    let (out, links) = filter_line(ls, false, b"\n");
    assert_eq!(links.len(), 1);
    assert_eq!(
        out,
        b"see \x1b]8;;https://example.test/a\x1b\\https://example.test/a\x1b]8;;\x1b\\ now\n".to_vec()
    );
}

#[test]
fn existence_answers_decide_which_paths_link() {
    let opts = Options {
        check: true,
        ..loose()
    };
    let line = AnsiLine::parse("src/real.rs:1 and src/ghost.rs:2");
    let mut ls = LineScan::new(&line, &opts);
    assert_eq!(ls.question().as_deref(), Some("/w/src/real.rs"));
    ls = ls.answer(true);
    assert_eq!(ls.question().as_deref(), Some("/w/src/ghost.rs"));
    ls = ls.answer(false);
    assert!(ls.question().is_none());
    let links = ls.links();
    assert_eq!(links.len(), 1);
    assert_eq!(links[0].href, "file://h/w/src/real.rs");
    assert_eq!(&line.plain()[links[0].start..links[0].end], "src/real.rs:1");
}

#[test]
fn a_missing_path_lets_the_scan_resume_after_its_token() {
    let opts = Options {
        check: true,
        ..loose()
    };
    let line = AnsiLine::parse("the src directory holds code");
    let ls = LineScan::new(&line, &opts);
    assert!(ls.question().is_none());
    assert!(ls.links().is_empty());
}

#[test]
fn dump_lists_kind_text_and_sanitized_href() {
    let opts = Options {
        issue_template: Some("https://github.com/acme/widgets/issues/{id}".into()),
        ..loose()
    };
    let line = AnsiLine::parse("err mod.rs:2:1 see https://example.test/doc (#5)");
    let ls = LineScan::new(&line, &opts);
    let (out, links) = filter_line(ls, true, b"\n");
    assert_eq!(links.len(), 3);
    assert_eq!(
        String::from_utf8(out).unwrap(),
        "path\tmod.rs:2:1\tfile://h/w/mod.rs\nurl\thttps://example.test/doc\thttps://example.test/doc\nissue\t#5\thttps://github.com/acme/widgets/issues/5\n"
    );
}

#[test]
fn existing_hyperlinks_are_never_double_wrapped() {
    let opts = loose();
    let raw = "\x1b]8;;file://x/etc/hosts\x1b\\hosts\x1b]8;;\x1b\\ https://example.test";
    let line = AnsiLine::parse(raw);
    let (out, links) = filter_line(LineScan::new(&line, &opts), false, b"");
    assert_eq!(links.len(), 1);
    assert_eq!(links[0].kind, Kind::Url);
    let text = String::from_utf8(out).unwrap();
    assert!(text.starts_with("\x1b]8;;file://x/etc/hosts\x1b\\hosts\x1b]8;;\x1b\\ "));
    assert!(text.ends_with("\x1b]8;;https://example.test\x1b\\https://example.test\x1b]8;;\x1b\\"));
}

#[test]
fn disabled_files_ask_nothing() {
    let opts = Options {
        files: false,
        check: true,
        ..loose()
    };
    let line = AnsiLine::parse("src/a.rs:1");
    let ls = LineScan::new(&line, &opts);
    assert!(ls.question().is_none());
    assert!(ls.links().is_empty());
}

#[test]
fn without_the_check_no_question_is_asked() {
    let opts = loose();
    let line = AnsiLine::parse("src/a.rs:1 and ./b/c.txt");
    let ls = LineScan::new(&line, &opts);
    assert!(ls.question().is_none());
    let links = ls.links();
    assert_eq!(links.len(), 2);
    assert_eq!(links[1].href, "file://h/w/b/c.txt");
}

#[test]
fn the_filter_writes_each_line_in_order_and_counts() {
    let opts = Options {
        issue_template: Some("https://t/{id}".into()),
        ..loose()
    };
    let mut filter = Filter::new(true, false, &opts);
    let mut written = Vec::new();
    let lines: [&[u8]; 3] = [b"see https://example.test/a #9\n", b"\xff raw\r\n", b"x.rs:1 tail"];
    for buf in lines {
        let bytes = match line_plan(buf, true) {
            Some((text, _)) => {
                let line = AnsiLine::parse(text);
                let scan = LineScan::new(&line, &opts);
                assert!(scan.reads(text.as_bytes()));
                filter.linked_line(buf, scan)
            }
            None => filter.pass_line(buf),
        };
        written.extend(bytes.unwrap());
    }
    let expected: Vec<u8> = [
        &b"see \x1b]8;;https://example.test/a\x1b\\https://example.test/a\x1b]8;;\x1b\\ \x1b]8;;https://t/9\x1b\\#9\x1b]8;;\x1b\\\n"[..],
        &b"\xff raw\r\n"[..],
        &b"\x1b]8;;file://h/w/x.rs\x1b\\x.rs:1\x1b]8;;\x1b\\ tail"[..],
    ]
    .concat();
    assert_eq!(written, expected);
    assert_eq!(filter.stats().summary(), "clickpipe: 3 lines, 3 links (1 path, 1 url, 1 issue)");
}

#[test]
fn the_filter_in_dump_mode_writes_rows_only() {
    let opts = loose();
    let mut filter = Filter::new(true, true, &opts);
    let buf: &[u8] = b"go https://e.test/x\n";
    let (text, _) = line_plan(buf, true).unwrap();
    let line = AnsiLine::parse(text);
    let out = filter.linked_line(buf, LineScan::new(&line, &opts)).unwrap();
    assert_eq!(out, b"url\thttps://e.test/x\thttps://e.test/x\n".to_vec());
    assert_eq!(filter.pass_line(b"\xfe\n").unwrap(), Vec::<u8>::new());
    assert_eq!(filter.stats().lines, 2);
}

#[test]
fn arguments_after_the_deciding_one_play_no_part() {
    assert!(matches!(parse_args(args(&["--help", "--frob"])), Ok(Parsed::Help)));
    assert_eq!(error_of(&["--frob", "--help"]), "unknown option '--frob'");
    assert_eq!(error_of(&["--when", "x", "--bogus"]), "invalid --when 'x' (auto|always|never)");
}
