use clickpipe::giturl::{
    config_candidate, normalize_remote, remote_url, strip_any_scheme, template_for,
    template_from_config, DotGit,
};

#[test]
fn scp_and_ssh_remotes_normalize_to_https() {
    assert_eq!(
        normalize_remote("git@example.test:acme/widgets.git").as_deref(),
        Some("https://example.test/acme/widgets")
    );
    assert_eq!(
        normalize_remote("ssh://git@example.test:2222/acme/widgets.git").as_deref(),
        Some("https://example.test/acme/widgets")
    );
}

#[test]
fn https_remote_keeps_nested_gitlab_groups() {
    assert_eq!(
        normalize_remote("https://gitlab.example.test/group/sub/proj.git").as_deref(),
        Some("https://gitlab.example.test/group/sub/proj")
    );
}

#[test]
fn malformed_remotes_are_rejected() {
    assert_eq!(normalize_remote("/local/bare/repo.git"), None);
    assert_eq!(normalize_remote("example.test"), None);
    assert_eq!(normalize_remote(""), None);
}

#[test]
fn gitlab_hosts_get_the_dash_issues_layout() {
    assert_eq!(
        template_for("https://gitlab.example.test/g/p"),
        "https://gitlab.example.test/g/p/-/issues/{id}"
    );
    assert_eq!(
        template_for("https://example.test/a/b"),
        "https://example.test/a/b/issues/{id}"
    );
}

#[test]
fn origin_wins_over_other_remotes() {
    let config = "[remote \"upstream\"]\n\turl = git@example.test:up/stream.git\n\
                  [remote \"origin\"]\n\turl = git@example.test:me/mine.git\n";
    assert_eq!(remote_url(config).as_deref(), Some("git@example.test:me/mine.git"));
}

#[test]
fn first_remote_is_the_fallback_without_origin() {
    let config = "[core]\n\tbare = false\n[remote \"fork\"]\n\turl = https://example.test/f/k\n";
    assert_eq!(remote_url(config).as_deref(), Some("https://example.test/f/k"));
}

#[test]
fn remote_values_are_trimmed_and_crlf_lines_work() {
    let config = "[remote \"origin\"]\r\n  url=  https://example.test/a/b.git  \r\n";
    assert_eq!(remote_url(config).as_deref(), Some("https://example.test/a/b.git"));
    assert_eq!(remote_url("[core]\n\turl = x\n"), None);
    assert_eq!(remote_url(""), None);
}

#[test]
fn only_the_first_url_of_origin_counts() {
    let config = "[remote \"origin\"]\n url = a:b/c\n url = d:e/f\n";
    assert_eq!(remote_url(config).as_deref(), Some("a:b/c"));
}

#[test]
fn schemes_are_stripped_in_order() {
    assert_eq!(strip_any_scheme("https://x/y"), Some("x/y"));
    assert_eq!(strip_any_scheme("http://x"), Some("x"));
    assert_eq!(strip_any_scheme("ssh://h/p"), Some("h/p"));
    assert_eq!(strip_any_scheme("git://h/p"), Some("h/p"));
    assert_eq!(strip_any_scheme("ftp://h/p"), None);
}

#[test]
fn remote_normalization_edge_cases() {
    assert_eq!(
        normalize_remote("  http://host:80/o/r/  ").as_deref(),
        Some("https://host/o/r")
    );
    assert_eq!(normalize_remote("https://host"), None);
    assert_eq!(normalize_remote("https://host/.git"), None);
    assert_eq!(normalize_remote("user@host://x"), None);
    assert_eq!(normalize_remote("a/b:c"), None);
    assert_eq!(normalize_remote(":o/r"), None);
    assert_eq!(
        normalize_remote("git://u@h/o/r.git").as_deref(),
        Some("https://h/o/r")
    );
}

#[test]
fn config_text_yields_the_issue_template() {
    let config = "[remote \"origin\"]\n\turl = git@gitlab.example.test:g/p.git\n";
    assert_eq!(
        template_from_config(config).as_deref(),
        Some("https://gitlab.example.test/g/p/-/issues/{id}")
    );
    assert_eq!(template_from_config("[remote \"o\"]\n\turl = nowhere\n"), None);
}

#[test]
fn config_candidates_follow_dot_git_and_worktree_files() {
    assert_eq!(
        config_candidate("/r", &DotGit::Dir).as_deref(),
        Some("/r/.git/config")
    );
    assert_eq!(
        config_candidate("/r/", &DotGit::Dir).as_deref(),
        Some("/r/.git/config")
    );
    assert_eq!(
        config_candidate("/wt", &DotGit::File("gitdir: /main/.git/worktrees/wt\n".into())).as_deref(),
        Some("/main/.git/config")
    );
    assert_eq!(
        config_candidate("/wt", &DotGit::File("gitdir: ../main/.git\n".into())).as_deref(),
        Some("/wt/../main/.git/config")
    );
    assert_eq!(config_candidate("/wt", &DotGit::File("garbage".into())), None);
    assert_eq!(config_candidate("/x", &DotGit::Other), None);
}

#[test]
fn web_bases_have_a_clean_host_and_path() {
    for u in [
        "git@example.test:acme/widgets.git",
        "ssh://u@h:22//o/r//",
        "https://gitlab.example.test/group/sub/proj.git",
    ] {
        let base = normalize_remote(u).unwrap();
        let rest = base.strip_prefix("https://").unwrap();
        let (host, path) = rest.split_once('/').unwrap();
        assert!(!host.is_empty() && !host.contains(['@', ':']));
        assert!(!path.is_empty() && !path.starts_with('/') && !path.ends_with('/'));
    }
    // Normalizing twice can strip a second `.git`.
    assert_eq!(normalize_remote("x:a/b.git.git").as_deref(), Some("https://x/a/b.git"));
    assert_eq!(normalize_remote("https://x/a/b.git").as_deref(), Some("https://x/a/b"));
}

#[test]
fn normalizing_a_web_base_again_gives_it_back() {
    for u in ["git@example.test:acme/widgets.git", "ssh://git@h:2222/a/b/c.git", "http://h/x/"] {
        let once = normalize_remote(u).unwrap();
        assert_eq!(normalize_remote(&once).as_deref(), Some(once.as_str()));
    }
}
