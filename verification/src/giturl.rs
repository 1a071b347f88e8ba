//! Git remote discovery: turn the repository around the current directory
//! into an issue-URL template, so `make 2>&1 | clickpipe` links `#123` to
//! the right tracker with zero flags.
//!
//! This module is the text side of it: reading the `origin` remote (or the
//! first remote) out of git config text, normalizing scp/ssh/https remote
//! syntax to an `https://` web base, and choosing the forge's issue layout.
//! Which config file to read is decided by [`config_candidate`], one
//! directory at a time, while the caller does the file-system checks.
use crate::issues::opt_bytes;
use crate::paths::{join_path, join_path_exec, last_index, last_index_exec};
use crate::text::{
    all_ascii, ascii_edge, at_boundary, bytes_to_string, contains, contains_bytes, drop_space,
    drop_space_exec, ends_with, has_at, has_prefix, has_suffix, is_ascii_byte, lemma_ascii_edge,
    lemma_ascii_lit, lemma_ascii_valid, push_valid, skip_space, skip_space_exec, slice_bytes,
    starts_with, str_bytes, string_bytes, sub_bytes, sub_str, sub_valid, trimmed,
};
use vstd::prelude::*;
use vstd::utf8::*;

verus! {

// ---------------------------------------------------------------------------
// Byte searches
// ---------------------------------------------------------------------------

/// Index of the first `c` at or after `i`.
pub open spec fn index_from(s: Seq<u8>, c: u8, i: int) -> Option<int>
    decreases s.len() - i,
{
    if i < 0 || i >= s.len() {
        None
    } else if s[i] == c {
        Some(i)
    } else {
        index_from(s, c, i + 1)
    }
}

/// Index of the first `c` in `s`.
pub open spec fn first_index(s: Seq<u8>, c: u8) -> Option<int> {
    index_from(s, c, 0)
}

/// What follows the last `c` in `s` (all of `s` when there is none).
pub open spec fn after_last(s: Seq<u8>, c: u8) -> Seq<u8> {
    s.subrange(last_index(s, c, s.len() as int) + 1, s.len() as int)
}

/// What precedes the first `c` in `s` (all of `s` when there is none).
pub open spec fn before_first(s: Seq<u8>, c: u8) -> Seq<u8> {
    match first_index(s, c) {
        Some(k) => s.subrange(0, k),
        None => s,
    }
}

/// First index at or after `i` that does not hold `c`.
pub open spec fn lead_run(s: Seq<u8>, c: u8, i: int) -> int
    decreases s.len() - i,
{
    if 0 <= i < s.len() && s[i] == c {
        lead_run(s, c, i + 1)
    } else {
        i
    }
}

/// End of `s[lo..j)` once trailing `c` bytes are dropped.
pub open spec fn trail_run(s: Seq<u8>, c: u8, lo: int, j: int) -> int
    decreases j,
{
    if 0 <= lo < j && j <= s.len() && s[j - 1] == c {
        trail_run(s, c, lo, j - 1)
    } else {
        j
    }
}

/// `s` with every leading and trailing `c` removed.
pub open spec fn trim_byte(s: Seq<u8>, c: u8) -> Seq<u8> {
    let a = lead_run(s, c, 0);
    s.subrange(a, trail_run(s, c, a, s.len() as int))
}

pub proof fn lemma_index_from(s: Seq<u8>, c: u8, i: int)
    requires
        0 <= i,
    ensures
        index_from(s, c, i) matches Some(k) ==> i <= k < s.len() && s[k] == c && forall|m: int|
            i <= m < k ==> s[m] != c,
        index_from(s, c, i) is None ==> forall|m: int| i <= m < s.len() ==> s[m] != c,
    decreases s.len() - i,
{
    if i < s.len() && s[i] != c {
        lemma_index_from(s, c, i + 1);
    }
}

pub proof fn lemma_last_index(s: Seq<u8>, c: u8, k: int)
    requires
        k <= s.len(),
    ensures
        -1 <= last_index(s, c, k) < k || (k <= 0 && last_index(s, c, k) == -1),
        last_index(s, c, k) >= 0 ==> s[last_index(s, c, k)] == c,
        forall|m: int| last_index(s, c, k) < m < k ==> #[trigger] s[m] != c,
    decreases k,
{
    if k > 0 && s[k - 1] != c {
        lemma_last_index(s, c, k - 1);
    }
}

fn find_byte(s: &[u8], c: u8) -> (r: Option<usize>)
    ensures
        r matches Some(k) ==> first_index(s@, c) == Some(k as int) && k < s.len() && s@[k as int]
            == c,
        r is None ==> first_index(s@, c) is None,
{
    let mut i: usize = 0;
    while i < s.len()
        invariant
            i <= s.len(),
            index_from(s@, c, i as int) == first_index(s@, c),
        decreases s.len() - i,
    {
        if s[i] == c {
            return Some(i);
        }
        i = i + 1;
    }
    None
}

fn lead_run_exec(s: &[u8], c: u8) -> (r: usize)
    ensures
        r == lead_run(s@, c, 0),
        r <= s.len(),
        r > 0 ==> s@[r - 1] == c,
{
    let mut i: usize = 0;
    while i < s.len() && s[i] == c
        invariant
            i <= s.len(),
            lead_run(s@, c, i as int) == lead_run(s@, c, 0),
            i > 0 ==> s@[i - 1] == c,
        decreases s.len() - i,
    {
        i = i + 1;
    }
    i
}

pub(crate) fn trail_run_exec(s: &[u8], c: u8, lo: usize) -> (r: usize)
    requires
        lo <= s.len(),
    ensures
        r == trail_run(s@, c, lo as int, s@.len() as int),
        lo <= r <= s.len(),
        r < s.len() ==> s@[r as int] == c,
{
    let mut j = s.len();
    while lo < j && s[j - 1] == c
        invariant
            lo <= j <= s.len(),
            trail_run(s@, c, lo as int, j as int) == trail_run(s@, c, lo as int, s@.len() as int),
            j < s.len() ==> s@[j as int] == c,
        decreases j,
    {
        j = j - 1;
    }
    j
}

// ---------------------------------------------------------------------------
// Remote URLs
// ---------------------------------------------------------------------------

/// Length of the scheme prefix of `u` (`https://`, `http://`, `ssh://` or
/// `git://`, tried in that order).
pub open spec fn scheme_len(u: Seq<u8>) -> Option<int> {
    if starts_with(u, str_bytes("https://")) {
        Some(8)
    } else if starts_with(u, str_bytes("http://")) {
        Some(7)
    } else if starts_with(u, str_bytes("ssh://")) {
        Some(6)
    } else if starts_with(u, str_bytes("git://")) {
        Some(6)
    } else {
        None
    }
}

/// Host and path of a trimmed remote URL: `scheme://[user@]host[:port]/path`
/// or scp-style `[user@]host:path` (whose host part holds no `/` and whose
/// path does not start with `//`).
pub open spec fn remote_parts(u: Seq<u8>) -> Option<(Seq<u8>, Seq<u8>)> {
    match scheme_len(u) {
        Some(n) => {
            let rest = u.subrange(n, u.len() as int);
            match first_index(rest, 0x2f) {
                None => None,
                Some(k) => Some(
                    (
                        before_first(after_last(rest.subrange(0, k), 0x40), 0x3a),
                        rest.subrange(k + 1, rest.len() as int),
                    ),
                ),
            }
        },
        None => match first_index(u, 0x3a) {
            None => None,
            Some(k) => {
                let user_host = u.subrange(0, k);
                let path = u.subrange(k + 1, u.len() as int);
                if first_index(user_host, 0x2f) is Some || starts_with(path, str_bytes("//")) {
                    None
                } else {
                    Some((after_last(user_host, 0x40), path))
                }
            },
        },
    }
}

/// `p` without a trailing `.git`.
pub open spec fn strip_git(p: Seq<u8>) -> Seq<u8> {
    if ends_with(p, str_bytes(".git")) {
        p.subrange(0, p.len() - 4)
    } else {
        p
    }
}

/// The `https://host/path` web base of a git remote URL, if it has one.
pub open spec fn web_base(url: Seq<u8>) -> Option<Seq<u8>> {
    let t = trimmed(url, 0, url.len() as int);
    let u = url.subrange(t.0, t.1);
    match remote_parts(u) {
        None => None,
        Some(hp) => {
            let host = hp.0;
            let path = trim_byte(strip_git(hp.1), 0x2f);
            if host.len() == 0 || hp.1.len() == 0 || path.len() == 0 {
                None
            } else {
                Some(str_bytes("https://") + host + seq![0x2fu8] + path)
            }
        },
    }
}

proof fn lemma_scheme_lits()
    ensures
        str_bytes("https://") =~= seq![0x68u8, 0x74, 0x74, 0x70, 0x73, 0x3a, 0x2f, 0x2f],
        str_bytes("http://") =~= seq![0x68u8, 0x74, 0x74, 0x70, 0x3a, 0x2f, 0x2f],
        str_bytes("ssh://") =~= seq![0x73u8, 0x73, 0x68, 0x3a, 0x2f, 0x2f],
        str_bytes("git://") =~= seq![0x67u8, 0x69, 0x74, 0x3a, 0x2f, 0x2f],
        str_bytes("//") =~= seq![0x2fu8, 0x2f],
        str_bytes(".git") =~= seq![0x2eu8, 0x67, 0x69, 0x74],
{
    reveal_strlit("https://");
    reveal_strlit("http://");
    reveal_strlit("ssh://");
    reveal_strlit("git://");
    reveal_strlit("//");
    reveal_strlit(".git");
    lemma_ascii_lit("https://");
    lemma_ascii_lit("http://");
    lemma_ascii_lit("ssh://");
    lemma_ascii_lit("git://");
    lemma_ascii_lit("//");
    lemma_ascii_lit(".git");
}

fn scheme_len_exec(u: &[u8]) -> (r: Option<usize>)
    ensures
        r matches Some(n) ==> scheme_len(u@) == Some(n as int),
        r is None ==> scheme_len(u@) is None,
{
    if has_prefix(u, slice_bytes("https://")) {
        Some(8)
    } else if has_prefix(u, slice_bytes("http://")) {
        Some(7)
    } else if has_prefix(u, slice_bytes("ssh://")) {
        Some(6)
    } else if has_prefix(u, slice_bytes("git://")) {
        Some(6)
    } else {
        None
    }
}

/// The rest of `url` after a leading `https://`, `http://`, `ssh://` or
/// `git://`.
pub fn strip_any_scheme(url: &str) -> (r: Option<&str>)
    ensures
        r matches Some(s) ==> scheme_len(str_bytes(url)) matches Some(n) && str_bytes(s)
            == str_bytes(url).subrange(n, str_bytes(url).len() as int),
        r is None <==> scheme_len(str_bytes(url)) is None,
{
    let b = slice_bytes(url);
    match scheme_len_exec(b) {
        None => None,
        Some(n) => {
            proof {
                lemma_scheme_lits();
                assert(b@[n - 1] == 0x2f) by {
                    assert(b@.subrange(0, n as int)[n - 1] == b@[n - 1]);
                }
                lemma_ascii_edge(b@, n as int);
                lemma_ascii_edge(b@, b@.len() as int);
            }
            Some(sub_str(url, n, b.len()))
        },
    }
}

/// Split valid bytes around an ASCII byte at `k`: both sides are valid.
proof fn lemma_cut_ascii(s: Seq<u8>, k: int)
    requires
        valid_utf8(s),
        0 <= k < s.len(),
        is_ascii_byte(s[k]),
    ensures
        at_boundary(s, k),
        at_boundary(s, k + 1),
        valid_utf8(s.subrange(0, k)),
        valid_utf8(s.subrange(k + 1, s.len() as int)),
{
    lemma_ascii_edge(s, k);
    lemma_ascii_edge(s, k + 1);
    lemma_ascii_edge(s, 0);
    lemma_ascii_edge(s, s.len() as int);
    crate::text::lemma_valid_between(s, 0, k);
    crate::text::lemma_valid_between(s, k + 1, s.len() as int);
}

/// What follows the last `c` (ASCII) in valid `s`.
fn after_last_exec(s: &[u8], c: u8) -> (r: &[u8])
    requires
        valid_utf8(s@),
        c < 0x80,
    ensures
        r@ == after_last(s@, c),
        valid_utf8(r@),
{
    match last_index_exec(s, c) {
        Some(k) => {
            proof {
                lemma_last_index(s@, c, s@.len() as int);
                lemma_cut_ascii(s@, k as int);
                lemma_ascii_edge(s@, s@.len() as int);
            }
            sub_valid(s, k + 1, s.len())
        },
        None => {
            proof {
                assert(s@.subrange(0, s@.len() as int) =~= s@);
            }
            s
        },
    }
}

/// What precedes the first `c` (ASCII) in valid `s`.
fn before_first_exec(s: &[u8], c: u8) -> (r: &[u8])
    requires
        valid_utf8(s@),
        c < 0x80,
    ensures
        r@ == before_first(s@, c),
        valid_utf8(r@),
{
    match find_byte(s, c) {
        Some(k) => {
            proof {
                lemma_cut_ascii(s@, k as int);
                lemma_ascii_edge(s@, 0);
            }
            sub_valid(s, 0, k)
        },
        None => s,
    }
}

fn remote_parts_exec(u: &[u8]) -> (r: Option<(&[u8], &[u8])>)
    requires
        valid_utf8(u@),
    ensures
        r matches Some(hp) ==> remote_parts(u@) == Some((hp.0@, hp.1@)) && valid_utf8(hp.0@)
            && valid_utf8(hp.1@),
        r is None ==> remote_parts(u@) is None,
{
    proof {
        lemma_scheme_lits();
    }
    match scheme_len_exec(u) {
        Some(n) => {
            proof {
                assert(u@[n - 1] == 0x2f) by {
                    assert(u@.subrange(0, n as int)[n - 1] == u@[n - 1]);
                }
                lemma_ascii_edge(u@, n as int);
                lemma_ascii_edge(u@, u@.len() as int);
            }
            let rest = sub_valid(u, n, u.len());
            match find_byte(rest, 0x2f) {
                None => {
                    None
                },
                Some(k) => {
                    proof {
                        lemma_cut_ascii(rest@, k as int);
                    }
                    let host_port = sub_bytes(rest, 0, k);
                    let h = after_last_exec(host_port, 0x40);
                    let h2 = before_first_exec(h, 0x3a);
                    let p = sub_bytes(rest, k + 1, rest.len());
                    Some((h2, p))
                },
            }
        },
        None => {
            match find_byte(u, 0x3a) {
                None => {
                    None
                },
                Some(k) => {
                    proof {
                        lemma_cut_ascii(u@, k as int);
                    }
                    let user_host = sub_bytes(u, 0, k);
                    let p = sub_bytes(u, k + 1, u.len());
                    if find_byte(user_host, 0x2f).is_some() || has_prefix(p, slice_bytes("//")) {
                        return None;
                    }
                    let h = after_last_exec(user_host, 0x40);
                    Some((h, p))
                },
            }
        },
    }
}

/// Normalize a git remote URL to an `https://host/path` web base.
/// Handles `https://`, `http://`, `git://`, `ssh://[user@]host[:port]/path`
/// and scp-style `user@host:path`; strips a trailing `.git`.
pub fn normalize_remote(url: &str) -> (r: Option<String>)
    ensures
        opt_bytes(r) == web_base(str_bytes(url)),
{
    let b = slice_bytes(url);
    proof {
        lemma_ascii_edge(b@, 0);
        lemma_ascii_edge(b@, b@.len() as int);
        lemma_scheme_lits();
    }
    let a = skip_space_exec(b, 0, b.len());
    let z = drop_space_exec(b, a, b.len());
    let u = sub_valid(b, a, z);
    let (host, path) = match remote_parts_exec(u) {
        Some(hp) => hp,
        None => {
            return None;
        },
    };
    if host.len() == 0 || path.len() == 0 {
        return None;
    }
    let p1 = if has_suffix(path, slice_bytes(".git")) {
        proof {
            assert(path@[path.len() - 4] == 0x2e) by {
                assert(path@.subrange(path.len() - 4, path.len() as int)[0] == path@[path.len()
                    - 4]);
            }
            lemma_ascii_edge(path@, path.len() - 4);
            lemma_ascii_edge(path@, 0);
        }
        sub_valid(path, 0, path.len() - 4)
    } else {
        path
    };
    let s = lead_run_exec(p1, 0x2f);
    let e = trail_run_exec(p1, 0x2f, s);
    proof {
        lemma_ascii_edge(p1@, s as int);
        lemma_ascii_edge(p1@, e as int);
    }
    let p2 = sub_valid(p1, s, e);
    if p2.len() == 0 {
        return None;
    }
    let mut out: Vec<u8> = Vec::new();
    proof {
        lemma_ascii_valid(out@);
    }
    push_valid(&mut out, slice_bytes("https://"));
    push_valid(&mut out, host);
    let ghost o = out@;
    out.push(0x2f);
    proof {
        lemma_ascii_valid(seq![0x2fu8]);
        lemma_ascii_valid(Seq::<u8>::empty());
        assert(out@ =~= o + seq![0x2fu8]);
        valid_utf8_concat(o, seq![0x2fu8]);
    }
    push_valid(&mut out, p2);
    proof {
        assert(out@ =~= str_bytes("https://") + host@ + seq![0x2fu8] + p2@);
    }
    Some(bytes_to_string(out))
}

/// `c` does not occur in `s`.
pub open spec fn lacks(s: Seq<u8>, c: u8) -> bool {
    forall|i: int| 0 <= i < s.len() ==> #[trigger] s[i] != c
}

proof fn lemma_after_last_lacks(s: Seq<u8>, c: u8, d: u8)
    requires
        lacks(s, d),
    ensures
        lacks(after_last(s, c), c),
        lacks(after_last(s, c), d),
{
    lemma_last_index(s, c, s.len() as int);
    let li = last_index(s, c, s.len() as int);
    let a = after_last(s, c);
    assert forall|i: int| 0 <= i < a.len() implies #[trigger] a[i] != c && a[i] != d by {
        assert(a[i] == s[li + 1 + i]);
    }
}

proof fn lemma_before_first_lacks(s: Seq<u8>, c: u8, d: u8)
    requires
        lacks(s, d),
    ensures
        lacks(before_first(s, c), c),
        lacks(before_first(s, c), d),
{
    lemma_index_from(s, c, 0);
    let b = before_first(s, c);
    assert forall|i: int| 0 <= i < b.len() implies #[trigger] b[i] != c && b[i] != d by {
        assert(b[i] == s[i]);
    }
}

proof fn lemma_trim_byte_ends(s: Seq<u8>, c: u8)
    ensures
        trim_byte(s, c).len() > 0 ==> trim_byte(s, c)[0] != c && trim_byte(s, c).last() != c,
{
    let a = lead_run(s, c, 0);
    lemma_lead_run(s, c, 0);
    lemma_trail_run(s, c, a, s.len() as int);
}

proof fn lemma_lead_run(s: Seq<u8>, c: u8, i: int)
    requires
        0 <= i <= s.len(),
    ensures
        i <= lead_run(s, c, i) <= s.len(),
        lead_run(s, c, i) < s.len() ==> s[lead_run(s, c, i)] != c,
    decreases s.len() - i,
{
    if i < s.len() && s[i] == c {
        lemma_lead_run(s, c, i + 1);
    }
}

proof fn lemma_trail_run(s: Seq<u8>, c: u8, lo: int, j: int)
    requires
        0 <= lo <= j <= s.len(),
    ensures
        lo <= trail_run(s, c, lo, j) <= j,
        trail_run(s, c, lo, j) > lo ==> s[trail_run(s, c, lo, j) - 1] != c,
    decreases j,
{
    if lo < j && s[j - 1] == c {
        lemma_trail_run(s, c, lo, j - 1);
    }
}

/// Law: a web base is `https://`, a non-empty host holding no `/`, `@` or
/// `:`, a `/`, and a non-empty path that neither starts nor ends with `/`.
pub proof fn web_base_shape(url: Seq<u8>)
    ensures
        web_base(url) matches Some(r) ==> {
            let t = trimmed(url, 0, url.len() as int);
            let hp = remote_parts(url.subrange(t.0, t.1))->Some_0;
            let host = hp.0;
            let path = trim_byte(strip_git(hp.1), 0x2f);
            &&& r == str_bytes("https://") + host + seq![0x2fu8] + path
            &&& host.len() > 0 && lacks(host, 0x2f) && lacks(host, 0x40) && lacks(host, 0x3a)
            &&& path.len() > 0 && path[0] != 0x2f && path.last() != 0x2f
        },
{
    let t = trimmed(url, 0, url.len() as int);
    let u = url.subrange(t.0, t.1);
    if let Some(hp) = remote_parts(u) {
        lemma_trim_byte_ends(strip_git(hp.1), 0x2f);
        match scheme_len(u) {
            Some(n) => {
                let rest = u.subrange(n, u.len() as int);
                lemma_index_from(rest, 0x2f, 0);
                if let Some(k) = first_index(rest, 0x2f) {
                    let hp0 = rest.subrange(0, k);
                    assert(lacks(hp0, 0x2f)) by {
                        assert forall|i: int| 0 <= i < hp0.len() implies #[trigger] hp0[i] != 0x2f by {
                            assert(hp0[i] == rest[i]);
                        }
                    }
                    lemma_after_last_lacks(hp0, 0x40, 0x2f);
                    let h1 = after_last(hp0, 0x40);
                    lemma_before_first_lacks(h1, 0x3a, 0x2f);
                    lemma_before_first_lacks(h1, 0x3a, 0x40);
                }
            },
            None => {
                lemma_index_from(u, 0x3a, 0);
                if let Some(k) = first_index(u, 0x3a) {
                    let uh = u.subrange(0, k);
                    assert(lacks(uh, 0x3a)) by {
                        assert forall|i: int| 0 <= i < uh.len() implies #[trigger] uh[i] != 0x3a by {
                            assert(uh[i] == u[i]);
                        }
                    }
                    if first_index(uh, 0x2f) is None {
                        lemma_index_from(uh, 0x2f, 0);
                        assert(lacks(uh, 0x2f));
                        lemma_after_last_lacks(uh, 0x40, 0x2f);
                        lemma_after_last_lacks(uh, 0x40, 0x3a);
                    }
                }
            },
        }
    }
}

proof fn lemma_lacks_identity(s: Seq<u8>, c: u8)
    requires
        lacks(s, c),
    ensures
        after_last(s, c) == s,
        before_first(s, c) == s,
{
    lemma_last_index(s, c, s.len() as int);
    assert(s.subrange(0, s.len() as int) =~= s);
    lemma_index_from(s, c, 0);
}

/// Law: normalizing a web base again gives it back, unless it ends in
/// white space or in `.git` (which a second pass would strip).
pub proof fn web_base_is_stable(url: Seq<u8>)
    requires
        web_base(url) is Some,
        ({
            let r = web_base(url)->Some_0;
            trimmed(r, 0, r.len() as int) == (0int, r.len() as int) && !ends_with(
                r,
                str_bytes(".git"),
            )
        }),
    ensures
        web_base(web_base(url)->Some_0) == web_base(url),
{
    web_base_shape(url);
    lemma_scheme_lits();
    let r = web_base(url)->Some_0;
    let t = trimmed(url, 0, url.len() as int);
    let hp = remote_parts(url.subrange(t.0, t.1))->Some_0;
    let h = hp.0;
    let q = trim_byte(strip_git(hp.1), 0x2f);
    let pre = str_bytes("https://");
    assert(r.subrange(0, r.len() as int) =~= r);
    assert(r.subrange(0, 8) =~= pre);
    assert(starts_with(r, pre));
    let rest = r.subrange(8, r.len() as int);
    assert(rest =~= h + seq![0x2fu8] + q);
    assert forall|m: int| 0 <= m < h.len() implies #[trigger] rest[m] != 0x2f by {
        assert(rest[m] == h[m]);
    }
    assert(rest[h.len() as int] == 0x2f);
    lemma_first_slash(rest, h.len() as int);
    assert(rest.subrange(0, h.len() as int) =~= h);
    assert(rest.subrange((h.len() + 1) as int, rest.len() as int) =~= q);
    lemma_lacks_identity(h, 0x40);
    lemma_lacks_identity(h, 0x3a);
    assert(remote_parts(r) == Some((h, q)));
    // the path keeps its shape
    if q.len() >= 4 {
        assert(r.subrange(r.len() - 4, r.len() as int) =~= q.subrange(q.len() - 4, q.len() as int));
    }
    assert(strip_git(q) == q);
    lemma_lead_run(q, 0x2f, 0);
    lemma_trail_run(q, 0x2f, 0, q.len() as int);
    assert(lead_run(q, 0x2f, 0) == 0);
    assert(trail_run(q, 0x2f, 0, q.len() as int) == q.len());
    assert(trim_byte(q, 0x2f) =~= q);
}

proof fn lemma_first_slash(s: Seq<u8>, k: int)
    requires
        0 <= k < s.len(),
        s[k] == 0x2f,
        forall|m: int| 0 <= m < k ==> #[trigger] s[m] != 0x2f,
    ensures
        first_index(s, 0x2f) == Some(k),
{
    lemma_index_from_to(s, 0x2f, 0, k);
}

proof fn lemma_index_from_to(s: Seq<u8>, c: u8, i: int, k: int)
    requires
        0 <= i <= k < s.len(),
        s[k] == c,
        forall|m: int| i <= m < k ==> #[trigger] s[m] != c,
    ensures
        index_from(s, c, i) == Some(k),
    decreases k - i,
{
    if i < k {
        lemma_index_from_to(s, c, i + 1, k);
    }
}

/// The URL schemes a remote may carry.
pub open spec fn remote_scheme(s: Seq<u8>) -> bool {
    ||| s == str_bytes("https://")
    ||| s == str_bytes("http://")
    ||| s == str_bytes("ssh://")
    ||| s == str_bytes("git://")
}

/// Law: in `scheme://userinfo@host[:port]/path` the host is what lies
/// between the last `@` before the first `/` and the port's `:`, even when
/// the user information holds `:` (`user:password`), and the path is what
/// follows that first `/`.
pub proof fn remote_host_skips_user_and_port(
    scheme: Seq<u8>,
    userinfo: Seq<u8>,
    host: Seq<u8>,
    port: Option<Seq<u8>>,
    path: Seq<u8>,
)
    requires
        remote_scheme(scheme),
        lacks(userinfo, 0x2f),
        lacks(userinfo, 0x40),
        lacks(host, 0x2f),
        lacks(host, 0x40),
        lacks(host, 0x3a),
        port matches Some(pt) ==> lacks(pt, 0x2f) && lacks(pt, 0x40),
    ensures
        remote_parts(
            scheme + userinfo + seq![0x40u8] + host + match port {
                Some(pt) => seq![0x3au8] + pt,
                None => Seq::empty(),
            } + seq![0x2fu8] + path,
        ) == Some((host, path)),
{
    lemma_scheme_lits();
    let hp = host + match port {
        Some(pt) => seq![0x3au8] + pt,
        None => Seq::<u8>::empty(),
    };
    let pre = scheme;
    let sl = scheme.len() as int;
    let u = pre + userinfo + seq![0x40u8] + hp + seq![0x2fu8] + path;
    assert(u =~= pre + userinfo + seq![0x40u8] + host + match port {
        Some(pt) => seq![0x3au8] + pt,
        None => Seq::<u8>::empty(),
    } + seq![0x2fu8] + path);
    assert(u.subrange(0, sl) =~= pre);
    assert(scheme_len(u) == Some(sl)) by {
        if scheme != str_bytes("https://") {
            assert(u.subrange(0, 8)[4] == u[4]);
            assert(u[4] != 0x73 || u[0] != 0x68);
        }
        if scheme == str_bytes("ssh://") || scheme == str_bytes("git://") {
            assert(u.subrange(0, 7)[0] == u[0]);
        }
    }
    let rest = u.subrange(sl, u.len() as int);
    let hpo = userinfo + seq![0x40u8] + hp;
    assert(rest =~= hpo + seq![0x2fu8] + path);
    assert(lacks(hpo, 0x2f)) by {
        assert forall|i: int| 0 <= i < hpo.len() implies #[trigger] hpo[i] != 0x2f by {
            if i < userinfo.len() {
                assert(hpo[i] == userinfo[i]);
            } else if i > userinfo.len() {
                assert(hpo[i] == hp[i - userinfo.len() - 1]);
                if i - userinfo.len() - 1 < host.len() {
                    assert(hp[i - userinfo.len() - 1] == host[i - userinfo.len() - 1]);
                } else if let Some(pt) = port {
                    let k = i - userinfo.len() - 1 - host.len();
                    if k > 0 {
                        assert(hp[i - userinfo.len() - 1] == pt[k - 1]);
                    }
                }
            }
        }
    }
    assert forall|m: int| 0 <= m < hpo.len() implies #[trigger] rest[m] != 0x2f by {
        assert(rest[m] == hpo[m]);
    }
    assert(rest[hpo.len() as int] == 0x2f);
    lemma_first_slash(rest, hpo.len() as int);
    assert(rest.subrange(0, hpo.len() as int) =~= hpo);
    assert(rest.subrange((hpo.len() + 1) as int, rest.len() as int) =~= path);
    // the last `@` is the one after the user information
    lemma_last_index(hpo, 0x40, hpo.len() as int);
    assert(hpo[userinfo.len() as int] == 0x40);
    assert forall|m: int| userinfo.len() < m < hpo.len() implies #[trigger] hpo[m] != 0x40 by {
        assert(hpo[m] == hp[m - userinfo.len() - 1]);
        let k = m - userinfo.len() - 1;
        if k < host.len() {
            assert(hp[k] == host[k]);
        } else if let Some(pt) = port {
            if k > host.len() {
                assert(hp[k] == pt[k - host.len() - 1]);
            }
        }
    }
    lemma_last_at(hpo, userinfo.len() as int);
    assert(after_last(hpo, 0x40) =~= hp);
    // the first `:` of host[:port] ends the host
    lemma_index_from(hp, 0x3a, 0);
    if let Some(pt) = port {
        assert(hp[host.len() as int] == 0x3a);
        assert forall|m: int| 0 <= m < host.len() implies #[trigger] hp[m] != 0x3a by {
            assert(hp[m] == host[m]);
        }
        lemma_index_from_to(hp, 0x3a, 0, host.len() as int);
        assert(hp.subrange(0, host.len() as int) =~= host);
    } else {
        assert(hp =~= host);
        assert(first_index(hp, 0x3a) is None) by {
            if first_index(hp, 0x3a) is Some {
                let k = first_index(hp, 0x3a)->Some_0;
                assert(hp[k] == host[k]);
            }
        }
    }
}

/// Law: in scp-style `[user@]host:path` the host is what lies between the
/// `@` and the first `:`, and the path is all that follows that `:`.
pub proof fn scp_remote_parts(user: Option<Seq<u8>>, host: Seq<u8>, path: Seq<u8>)
    requires
        user matches Some(x) ==> lacks(x, 0x2f) && lacks(x, 0x40) && lacks(x, 0x3a),
        lacks(host, 0x2f),
        lacks(host, 0x40),
        lacks(host, 0x3a),
        !starts_with(path, str_bytes("//")),
    ensures
        remote_parts(
            match user {
                Some(x) => x + seq![0x40u8],
                None => Seq::<u8>::empty(),
            } + host + seq![0x3au8] + path,
        ) == Some((host, path)),
{
    lemma_scheme_lits();
    let up = match user {
        Some(x) => x + seq![0x40u8],
        None => Seq::<u8>::empty(),
    };
    let uh = up + host;
    let u = uh + seq![0x3au8] + path;
    let k = uh.len() as int;
    assert forall|m: int| 0 <= m < k implies #[trigger] u[m] != 0x3a && u[m] != 0x2f by {
        assert(u[m] == uh[m]);
        if m < up.len() {
            assert(uh[m] == up[m]);
            if let Some(x) = user {
                if m < x.len() {
                    assert(up[m] == x[m]);
                }
            }
        } else {
            assert(uh[m] == host[m - up.len()]);
        }
    }
    assert(u[k] == 0x3a);
    lemma_index_from_to(u, 0x3a, 0, k);
    assert(u.subrange(0, k) =~= uh);
    assert(u.subrange(k + 1, u.len() as int) =~= path);
    // no scheme: its `://` would put `//` at the start of the path
    assert(scheme_len(u) is None) by {
        if scheme_len(u) is Some {
            let n = scheme_len(u)->Some_0;
            assert(u.subrange(0, n)[n - 3] == u[n - 3]);
            assert(u.subrange(0, n)[n - 2] == u[n - 2]);
            assert(u.subrange(0, n)[n - 1] == u[n - 1]);
            assert(u[n - 3] == 0x3a);
            assert(n - 3 == k);
            assert(path[0] == u[k + 1]);
            assert(path[1] == u[k + 2]);
            assert(path.subrange(0, 2) =~= str_bytes("//"));
        }
    }
    assert(first_index(uh, 0x2f) is None) by {
        lemma_index_from(uh, 0x2f, 0);
        if first_index(uh, 0x2f) is Some {
            let m = first_index(uh, 0x2f)->Some_0;
            assert(uh[m] == u[m]);
        }
    }
    // the last `@` ends the user part
    if let Some(x) = user {
        assert(uh[x.len() as int] == 0x40);
        assert forall|m: int| x.len() < m < uh.len() implies #[trigger] uh[m] != 0x40 by {
            assert(uh[m] == host[m - x.len() - 1]);
        }
        lemma_last_at(uh, x.len() as int);
        assert(after_last(uh, 0x40) =~= host);
    } else {
        assert(uh =~= host);
        lemma_last_index(uh, 0x40, uh.len() as int);
        assert(last_index(uh, 0x40, uh.len() as int) == -1) by {
            if last_index(uh, 0x40, uh.len() as int) >= 0 {
                let m = last_index(uh, 0x40, uh.len() as int);
                assert(uh[m] == host[m]);
            }
        }
        assert(after_last(uh, 0x40) =~= host);
    }
}

proof fn lemma_last_at(s: Seq<u8>, k: int)
    requires
        0 <= k < s.len(),
        s[k] == 0x40,
        forall|m: int| k < m < s.len() ==> #[trigger] s[m] != 0x40,
    ensures
        last_index(s, 0x40, s.len() as int) == k,
{
    lemma_last_at_from(s, k, s.len() as int);
}

proof fn lemma_last_at_from(s: Seq<u8>, k: int, j: int)
    requires
        0 <= k < j <= s.len(),
        s[k] == 0x40,
        forall|m: int| k < m < s.len() ==> #[trigger] s[m] != 0x40,
    ensures
        last_index(s, 0x40, j) == k,
    decreases j,
{
    if j - 1 > k {
        lemma_last_at_from(s, k, j - 1);
    }
}

// ---------------------------------------------------------------------------
// Git config text
// ---------------------------------------------------------------------------

/// End of the line that starts at `i`: the next `\n`, or the end.
pub open spec fn line_end(b: Seq<u8>, i: int) -> int {
    match index_from(b, 0x0a, i) {
        Some(k) => k,
        None => b.len() as int,
    }
}

/// What has been read of the config so far: whether the current section is
/// a remote, whether it is `origin`, and the first `url` seen in any remote
/// and in `origin`.
pub struct RemoteScan {
    pub in_remote: bool,
    pub in_origin: bool,
    pub first: Option<Seq<u8>>,
    pub origin: Option<Seq<u8>>,
}

/// The value of a `url = VALUE` line, the trimmed line being `b[a..z)`.
pub open spec fn url_value(b: Seq<u8>, a: int, z: int) -> Option<Seq<u8>> {
    if a + 3 <= z && b.subrange(a, a + 3) == str_bytes("url") {
        let s = skip_space(b, a + 3, z);
        if s < z && b[s] == 0x3d {
            let t = trimmed(b, s + 1, z);
            Some(b.subrange(t.0, t.1))
        } else {
            None
        }
    } else {
        None
    }
}

/// The effect of the trimmed line `b[a..z)`: a `[...]` line opens a
/// section; in a remote section a `url` line is recorded.
pub open spec fn scan_line(st: RemoteScan, b: Seq<u8>, a: int, z: int) -> RemoteScan {
    if a < z && b[a] == 0x5b {
        RemoteScan {
            in_remote: a + 8 <= z && b.subrange(a, a + 8) == str_bytes("[remote "),
            in_origin: b.subrange(a, z) == str_bytes("[remote \"origin\"]"),
            ..st
        }
    } else if !st.in_remote {
        st
    } else {
        match url_value(b, a, z) {
            Some(v) => RemoteScan {
                origin: if st.in_origin && st.origin is None {
                    Some(v)
                } else {
                    st.origin
                },
                first: if st.first is None {
                    Some(v)
                } else {
                    st.first
                },
                ..st
            },
            None => st,
        }
    }
}

/// Read the lines of `b` from the one starting at `i` on.
pub open spec fn scan_lines(b: Seq<u8>, i: int, st: RemoteScan) -> RemoteScan
    decreases b.len() + 1 - i,
{
    if i < 0 || i >= b.len() {
        st
    } else {
        proof {
            lemma_index_from(b, 0x0a, i);
            assert(line_end(b, i) >= i);
        }
        let e = line_end(b, i);
        let t = trimmed(b, i, e);
        scan_lines(b, e + 1, scan_line(st, b, t.0, t.1))
    }
}

pub open spec fn scan_start() -> RemoteScan {
    RemoteScan { in_remote: false, in_origin: false, first: None, origin: None }
}

/// The remote URL of git config text: the first `url` of the `origin`
/// remote, else the first `url` of any remote.
pub open spec fn config_remote(b: Seq<u8>) -> Option<Seq<u8>> {
    let st = scan_lines(b, 0, scan_start());
    if st.origin is Some {
        st.origin
    } else {
        st.first
    }
}

proof fn lemma_config_lits()
    ensures
        str_bytes("url") =~= seq![0x75u8, 0x72, 0x6c],
        str_bytes("[remote ") =~= seq![0x5bu8, 0x72, 0x65, 0x6d, 0x6f, 0x74, 0x65, 0x20],
        str_bytes("[remote \"origin\"]") =~= seq![
            0x5bu8, 0x72, 0x65, 0x6d, 0x6f, 0x74, 0x65, 0x20, 0x22, 0x6f, 0x72, 0x69, 0x67, 0x69,
            0x6e, 0x22, 0x5d,
        ],
{
    reveal_strlit("url");
    reveal_strlit("[remote ");
    reveal_strlit("[remote \"origin\"]");
    lemma_ascii_lit("url");
    lemma_ascii_lit("[remote ");
    lemma_ascii_lit("[remote \"origin\"]");
}

spec fn range_view(b: Seq<u8>, r: Option<(usize, usize)>) -> Option<Seq<u8>> {
    match r {
        Some(pq) => Some(b.subrange(pq.0 as int, pq.1 as int)),
        None => None,
    }
}

spec fn range_ok(b: Seq<u8>, r: Option<(usize, usize)>) -> bool {
    r matches Some(pq) ==> pq.0 <= pq.1 && at_boundary(b, pq.0 as int) && at_boundary(
        b,
        pq.1 as int,
    )
}

fn index_from_exec(b: &[u8], c: u8, i: usize) -> (r: usize)
    requires
        i <= b.len(),
    ensures
        r == match index_from(b@, c, i as int) {
            Some(k) => k,
            None => b@.len() as int,
        },
        i <= r <= b.len(),
        r < b.len() ==> b@[r as int] == c,
{
    let mut k = i;
    while k < b.len() && b[k] != c
        invariant
            i <= k <= b.len(),
            index_from(b@, c, k as int) == index_from(b@, c, i as int),
        decreases b.len() - k,
    {
        k = k + 1;
    }
    k
}

/// The range of the value of a `url = VALUE` line `b[a..z)`.
fn url_value_exec(b: &[u8], a: usize, z: usize) -> (r: Option<(usize, usize)>)
    requires
        valid_utf8(b@),
        a <= z <= b.len(),
        at_boundary(b@, a as int),
        at_boundary(b@, z as int),
    ensures
        range_view(b@, r) == url_value(b@, a as int, z as int),
        range_ok(b@, r),
{
    proof {
        lemma_config_lits();
    }
    if z - a < 3 || !has_at(b, a, slice_bytes("url")) {
        proof {
            if a + 3 <= z && b@.subrange(a as int, a + 3) == str_bytes("url") {
                assert(crate::text::occurs_at(b@, a as int, str_bytes("url")));
            }
        }
        return None;
    }
    proof {
        assert(b@[a + 2] == 0x6c) by {
            assert(b@.subrange(a as int, a + 3)[2] == b@[a + 2]);
        }
        lemma_ascii_edge(b@, a + 3);
    }
    let s = skip_space_exec(b, a + 3, z);
    if s < z && b[s] == 0x3d {
        proof {
            lemma_ascii_edge(b@, s + 1);
        }
        let p = skip_space_exec(b, s + 1, z);
        let q = drop_space_exec(b, p, z);
        Some((p, q))
    } else {
        None
    }
}

/// Extract the `origin` remote URL from git config text, falling back to
/// the first remote if `origin` is absent.
pub fn remote_url(config: &str) -> (r: Option<String>)
    ensures
        opt_bytes(r) == config_remote(str_bytes(config)),
{
    let b = slice_bytes(config);
    proof {
        lemma_config_lits();
        lemma_ascii_edge(b@, 0);
    }
    let mut in_remote = false;
    let mut in_origin = false;
    let mut first: Option<(usize, usize)> = None;
    let mut origin: Option<(usize, usize)> = None;
    let mut i: usize = 0;
    while i < b.len()
        invariant
            valid_utf8(b@),
            b@ == str_bytes(config),
            i <= b.len(),
            at_boundary(b@, i as int),
            range_ok(b@, first),
            range_ok(b@, origin),
            scan_lines(b@, 0, scan_start()) == scan_lines(
                b@,
                i as int,
                RemoteScan {
                    in_remote,
                    in_origin,
                    first: range_view(b@, first),
                    origin: range_view(b@, origin),
                },
            ),
        decreases b.len() - i,
    {
        let ghost st = RemoteScan {
            in_remote,
            in_origin,
            first: range_view(b@, first),
            origin: range_view(b@, origin),
        };
        proof {
            lemma_config_lits();
            lemma_index_from(b@, 0x0a, i as int);
        }
        let e = index_from_exec(b, 0x0a, i);
        proof {
            lemma_ascii_edge(b@, e as int);
        }
        let a = skip_space_exec(b, i, e);
        let z = drop_space_exec(b, a, e);
        if a < z && b[a] == 0x5b {
            in_remote = z - a >= 8 && has_at(b, a, slice_bytes("[remote "));
            in_origin = z - a == 17 && has_at(b, a, slice_bytes("[remote \"origin\"]"));
            proof {
                if a + 8 <= z {
                    assert(in_remote == (b@.subrange(a as int, a + 8) == str_bytes("[remote ")));
                }
                assert(str_bytes("[remote \"origin\"]").len() == 17);
                if b@.subrange(a as int, z as int) == str_bytes("[remote \"origin\"]") {
                    assert(b@.subrange(a as int, z as int).len() == 17);
                }
                if z - a == 17 {
                    assert(in_origin == (b@.subrange(a as int, z as int) == str_bytes(
                        "[remote \"origin\"]",
                    )));
                }
            }
        } else if in_remote {
            match url_value_exec(b, a, z) {
                Some(v) => {
                    if in_origin && origin.is_none() {
                        origin = Some(v);
                    }
                    if first.is_none() {
                        first = Some(v);
                    }
                },
                None => {},
            }
        }
        proof {
            assert(scan_line(st, b@, a as int, z as int) == RemoteScan {
                in_remote,
                in_origin,
                first: range_view(b@, first),
                origin: range_view(b@, origin),
            });
        }
        proof {
            assert(scan_lines(b@, i as int, st) == scan_lines(
                b@,
                e + 1,
                scan_line(st, b@, a as int, z as int),
            ));
        }
        if e < b.len() {
            proof {
                lemma_ascii_edge(b@, e + 1);
            }
            i = e + 1;
        } else {
            i = e;
        }
    }
    let pick = if origin.is_some() {
        origin
    } else {
        first
    };
    match pick {
        Some((p, q)) => Some(crate::text::to_owned_string(sub_str(config, p, q))),
        None => None,
    }
}

// ---------------------------------------------------------------------------
// Issue layout
// ---------------------------------------------------------------------------

/// The host of a web base: after `https://` (when present), before the
/// first `/`.
pub open spec fn base_host(base: Seq<u8>) -> Seq<u8> {
    let rest = if starts_with(base, str_bytes("https://")) {
        base.subrange(8, base.len() as int)
    } else {
        base
    };
    before_first(rest, 0x2f)
}

/// The issue template for a web base: GitLab hosts nest issues under `/-/`.
pub open spec fn issue_template(base: Seq<u8>) -> Seq<u8> {
    if contains(base_host(base), str_bytes("gitlab")) {
        base + str_bytes("/-/issues/{id}")
    } else {
        base + str_bytes("/issues/{id}")
    }
}

/// Issue path layout per forge family: GitLab nests issues under `/-/`.
pub fn template_for(base: &str) -> (r: String)
    ensures
        string_bytes(r) == issue_template(str_bytes(base)),
{
    let b = slice_bytes(base);
    proof {
        lemma_scheme_lits();
    }
    let rest = if has_prefix(b, slice_bytes("https://")) {
        sub_bytes(b, 8, b.len())
    } else {
        b
    };
    let host = match find_byte(rest, 0x2f) {
        Some(k) => sub_bytes(rest, 0, k),
        None => rest,
    };
    let mut out: Vec<u8> = Vec::new();
    proof {
        lemma_ascii_valid(out@);
    }
    push_valid(&mut out, b);
    if contains_bytes(host, slice_bytes("gitlab")) {
        crate::text::push_str(&mut out, "/-/issues/{id}");
    } else {
        crate::text::push_str(&mut out, "/issues/{id}");
    }
    proof {
        assert(out@ =~= issue_template(b@));
    }
    bytes_to_string(out)
}

// ---------------------------------------------------------------------------
// Locating the config file
// ---------------------------------------------------------------------------

/// The issue template of git config text: the template for the web base
/// of its remote URL, when it has both.
pub open spec fn config_template(text: Seq<u8>) -> Option<Seq<u8>> {
    match config_remote(text) {
        None => None,
        Some(url) => match web_base(url) {
            None => None,
            Some(base) => Some(issue_template(base)),
        },
    }
}

/// The issue template (`https://host/owner/repo/issues/{id}`) named by
/// git config text, if any.
pub fn template_from_config(text: &str) -> (r: Option<String>)
    ensures
        opt_bytes(r) == config_template(str_bytes(text)),
{
    let url = remote_url(text)?;
    let base = normalize_remote(url.as_str())?;
    Some(template_for(base.as_str()))
}

/// What a directory's `.git` entry turned out to be.
pub enum DotGit {
    /// A directory (an ordinary repository).
    Dir,
    /// A readable file (a linked worktree), with its text.
    File(String),
    /// Nothing usable.
    Other,
}

/// `worktrees` is a whole path component of `p` starting at `k`.
pub open spec fn worktrees_at(p: Seq<u8>, k: int) -> bool {
    &&& 0 <= k
    &&& k + 9 <= p.len()
    &&& p.subrange(k, k + 9) == str_bytes("worktrees")
    &&& (k == 0 || p[k - 1] == 0x2f)
    &&& (k + 9 == p.len() || p[k + 9] == 0x2f)
}

/// Start of the last `worktrees` component of `p` that ends by byte `j`.
pub open spec fn last_worktrees(p: Seq<u8>, j: int) -> Option<int>
    decreases j,
{
    if j < 9 {
        None
    } else if worktrees_at(p, j - 9) {
        Some(j - 9)
    } else {
        last_worktrees(p, j - 1)
    }
}

/// The parent directory text `q` names once trailing separators are
/// dropped (a leading `/` stays).
pub open spec fn without_trailing_slashes(q: Seq<u8>) -> Seq<u8> {
    let lo: int = if q.len() > 0 && q[0] == 0x2f {
        1
    } else {
        0
    };
    q.subrange(0, trail_run(q, 0x2f, lo, q.len() as int))
}

/// The shared git directory of a worktree's git directory `g`: the parent
/// of its nearest enclosing `worktrees` directory, or `g` itself.
pub open spec fn shared_git_dir(g: Seq<u8>) -> Seq<u8> {
    match last_worktrees(g, g.len() as int) {
        Some(k) => without_trailing_slashes(g.subrange(0, k)),
        None => g,
    }
}

/// The `gitdir:` target named by the text of a `.git` file.
pub open spec fn gitdir_target(text: Seq<u8>) -> Option<Seq<u8>> {
    let t = trimmed(text, 0, text.len() as int);
    if t.0 + 7 <= t.1 && text.subrange(t.0, t.0 + 7) == str_bytes("gitdir:") {
        let v = trimmed(text, t.0 + 7, t.1);
        Some(text.subrange(v.0, v.1))
    } else {
        None
    }
}

/// The config file to look for in directory `dir`, given its `.git` entry:
/// `dir/.git/config` for a repository; for a linked worktree, the config of
/// the shared git directory that its `gitdir:` line names.
pub open spec fn config_path(dir: Seq<u8>, dotgit: DotGit) -> Option<Seq<u8>> {
    match dotgit {
        DotGit::Dir => Some(join_path(join_path(dir, str_bytes(".git")), str_bytes("config"))),
        DotGit::File(text) => match gitdir_target(string_bytes(text)) {
            Some(g) => Some(join_path(shared_git_dir(join_path(dir, g)), str_bytes("config"))),
            None => None,
        },
        DotGit::Other => None,
    }
}

proof fn lemma_path_lits()
    ensures
        str_bytes("worktrees") =~= seq![0x77u8, 0x6f, 0x72, 0x6b, 0x74, 0x72, 0x65, 0x65, 0x73],
        str_bytes("gitdir:") =~= seq![0x67u8, 0x69, 0x74, 0x64, 0x69, 0x72, 0x3a],
        valid_utf8(str_bytes(".git")),
        valid_utf8(str_bytes("config")),
{
    reveal_strlit("worktrees");
    reveal_strlit("gitdir:");
    reveal_strlit(".git");
    reveal_strlit("config");
    lemma_ascii_lit("worktrees");
    lemma_ascii_lit("gitdir:");
    lemma_ascii_lit(".git");
    lemma_ascii_lit("config");
    lemma_ascii_valid(str_bytes(".git"));
    lemma_ascii_valid(str_bytes("config"));
}

fn last_worktrees_exec(p: &[u8]) -> (r: Option<usize>)
    ensures
        r matches Some(k) ==> last_worktrees(p@, p@.len() as int) == Some(k as int) && worktrees_at(
            p@,
            k as int,
        ),
        r is None ==> last_worktrees(p@, p@.len() as int) is None,
{
    proof {
        lemma_path_lits();
    }
    let pat = slice_bytes("worktrees");
    let mut j = p.len();
    while j >= 9
        invariant
            j <= p.len(),
            pat@ == str_bytes("worktrees"),
            pat@.len() == 9,
            last_worktrees(p@, j as int) == last_worktrees(p@, p@.len() as int),
        decreases j,
    {
        let k = j - 9;
        if has_at(p, k, pat) && (k == 0 || p[k - 1] == 0x2f) && (j == p.len() || p[j] == 0x2f) {
            return Some(k);
        }
        j = j - 1;
    }
    None
}

fn shared_git_dir_exec(g: &[u8]) -> (r: &[u8])
    requires
        valid_utf8(g@),
    ensures
        r@ == shared_git_dir(g@),
        valid_utf8(r@),
{
    proof {
        lemma_path_lits();
    }
    match last_worktrees_exec(g) {
        None => g,
        Some(k) => {
            proof {
                assert(g@.subrange(k as int, k + 9)[0] == g@[k as int]);
                lemma_ascii_edge(g@, k as int);
                lemma_ascii_edge(g@, 0);
            }
            let q = sub_valid(g, 0, k);
            let lo: usize = if q.len() > 0 && q[0] == 0x2f {
                1
            } else {
                0
            };
            let e = trail_run_exec(q, 0x2f, lo);
            proof {
                if e > 0 && e < q.len() {
                    assert(is_ascii_byte(q@[e as int]));
                }
                lemma_ascii_edge(q@, e as int);
                lemma_ascii_edge(q@, 0);
            }
            sub_valid(q, 0, e)
        },
    }
}

fn gitdir_target_exec(text: &[u8]) -> (r: Option<&[u8]>)
    requires
        valid_utf8(text@),
    ensures
        r matches Some(g) ==> gitdir_target(text@) == Some(g@) && valid_utf8(g@),
        r is None ==> gitdir_target(text@) is None,
{
    proof {
        lemma_path_lits();
        lemma_ascii_edge(text@, 0);
        lemma_ascii_edge(text@, text@.len() as int);
    }
    let a = skip_space_exec(text, 0, text.len());
    let z = drop_space_exec(text, a, text.len());
    if z - a >= 7 && has_at(text, a, slice_bytes("gitdir:")) {
        proof {
            assert(text@.subrange(a as int, a + 7)[6] == text@[a + 6]);
            lemma_ascii_edge(text@, a + 7);
        }
        let p = skip_space_exec(text, a + 7, z);
        let q = drop_space_exec(text, p, z);
        Some(sub_valid(text, p, q))
    } else {
        None
    }
}

/// The config file to test for directory `dir`, given what its `.git`
/// entry is (see [`config_path`]); the caller checks that it is a file.
pub fn config_candidate(dir: &str, dotgit: &DotGit) -> (r: Option<String>)
    ensures
        opt_bytes(r) == config_path(str_bytes(dir), *dotgit),
{
    proof {
        lemma_path_lits();
    }
    let d = slice_bytes(dir);
    match dotgit {
        DotGit::Dir => {
            let g = join_path_exec(d, slice_bytes(".git"));
            let c = join_path_exec(g.as_slice(), slice_bytes("config"));
            Some(bytes_to_string(c))
        },
        DotGit::File(text) => {
            let t = crate::text::bytes_of(text);
            match gitdir_target_exec(t) {
                Some(g) => {
                    let full = join_path_exec(d, g);
                    let root = shared_git_dir_exec(full.as_slice());
                    let c = join_path_exec(root, slice_bytes("config"));
                    Some(bytes_to_string(c))
                },
                None => None,
            }
        },
        DotGit::Other => None,
    }
}

} // verus!

