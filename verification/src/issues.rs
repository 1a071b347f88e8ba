//! Issue-ID detection: `#123`, cross-repo `owner/repo#123`, and opt-in
//! Jira-style `KEY-123` references.
//!
//! Bare `#123` is ambiguous without a tracker, so it only links when an
//! issue template is configured: explicitly via `--issues`/`--repo`, or
//! discovered from the repository's git remote (see [`crate::giturl`]).
//! `owner/repo#123` names its repository itself and links against the
//! configured forge base. `KEY-123` collides with too many real-world
//! strings (`UTF-8`, `SHA-256`) to be safe by default, so it requires
//! `--jira <base-url>`.
use crate::scan::{all_fit, in_order, link_fits, links_view, Kind, Link, LinkSpec, Options};
use crate::text::{
    all_ascii, alnum, at_boundary, bytes_of, bytes_to_string, code_at, decimal, decode_at, digit,
    digit_run,
    is_alnum, is_ascii_byte, is_digit, is_space_code, is_upper, last_char_start, lemma_after_ascii,
    lemma_ascii_valid, lemma_decimal_ascii, lemma_digit_run, lemma_replace_valid, number_at,
    prev_char_start, push_number, push_range, push_str, push_valid, read_number, replace_all,
    replace_bytes, slice_bytes, space_code, str_bytes, string_bytes, upper,
};
use vstd::prelude::*;
use vstd::utf8::*;

verus! {

/// Bytes that may appear in an `owner` or `repo` slug.
pub open spec fn is_slug(b: u8) -> bool {
    is_alnum(b) || b == 0x5f || b == 0x2d || b == 0x2e
}

fn slug(b: u8) -> (r: bool)
    ensures
        r == is_slug(b),
{
    alnum(b) || b == 0x5f || b == 0x2d || b == 0x2e
}

/// Index of the last non-slug byte before `k`, or -1.
pub open spec fn last_non_slug(p: Seq<u8>, k: int) -> int
    decreases k,
{
    if k <= 0 {
        -1
    } else if !is_slug(p[k - 1]) {
        k - 1
    } else {
        last_non_slug(p, k - 1)
    }
}

/// The issue number after the `#` at `h`, if it is a well-formed
/// reference: 1-7 digits not glued to a following letter, digit or `#`.
pub open spec fn hash_number(p: Seq<u8>, h: int) -> Option<(nat, int)> {
    match number_at(p, h + 1) {
        None => None,
        Some((id, n)) => {
            let end = h + 1 + n;
            if end < p.len() && (is_alnum(p[end]) || p[end] == 0x23) {
                None
            } else {
                Some((id, end))
            }
        },
    }
}

/// The reference at `h` would slice inside a multi-byte character while
/// looking for the `owner/repo` slug before it.
pub open spec fn hash_ref_panics(p: Seq<u8>, h: int) -> bool {
    hash_number(p, h) is Some && {
        let q = last_non_slug(p, h);
        q >= 0 && (!is_ascii_byte(p[q]) || (p[q] == 0x2f && q + 1 < h && {
            let q2 = last_non_slug(p, q);
            q2 >= 0 && !is_ascii_byte(p[q2])
        }))
    }
}

/// No `#` reference in `p` hits the multi-byte slicing fault.
pub open spec fn refs_well_sliced(p: Seq<u8>) -> bool {
    forall|h: int| 0 <= h < p.len() && p[h] == 0x23 ==> !#[trigger] hash_ref_panics(p, h)
}

/// `owner/repo` directly before the `#` at `h`: exactly two slug segments
/// and one slash, with a clean left boundary. Returns the owner's start.
pub open spec fn slug_start(p: Seq<u8>, h: int) -> Option<int> {
    let q = last_non_slug(p, h);
    if q + 1 == h || q < 0 || p[q] != 0x2f {
        None
    } else {
        let q2 = last_non_slug(p, q);
        if q2 + 1 == q {
            None
        } else if q2 >= 0 && (p[q2] == 0x2f || p[q2] == 0x7e || p[q2] == 0x23) {
            None
        } else {
            Some(q2 + 1)
        }
    }
}

/// A bare `#` may follow the line start, whitespace, or an opening
/// bracket, `,` or `:`.
pub open spec fn bare_boundary(p: Seq<u8>, h: int) -> bool {
    h == 0 || {
        let c = code_at(p, last_char_start(p, h));
        is_space_code(c) || c == 0x28 || c == 0x5b || c == 0x7b || c == 0x3c || c == 0x2c || c
            == 0x3a
    }
}

/// The link for the reference at `h`, if any.
pub open spec fn hash_link(p: Seq<u8>, forge: Seq<u8>, tpl: Option<Seq<u8>>, h: int) -> Option<
    LinkSpec,
> {
    match hash_number(p, h) {
        None => None,
        Some((id, end)) => match slug_start(p, h) {
            Some(s) => Some(
                LinkSpec {
                    start: s,
                    end,
                    kind: Kind::Issue,
                    href: forge + str_bytes("/") + p.subrange(s, h) + str_bytes("/issues/")
                        + decimal(id),
                },
            ),
            None => match tpl {
                Some(t) => if bare_boundary(p, h) {
                    Some(
                        LinkSpec {
                            start: h,
                            end,
                            kind: Kind::Issue,
                            href: replace_all(t, str_bytes("{id}"), decimal(id)),
                        },
                    )
                } else {
                    None
                },
                None => None,
            },
        },
    }
}

/// `#123` and `owner/repo#123` links for every `#` from byte `i` on.
pub open spec fn hash_links_from(p: Seq<u8>, forge: Seq<u8>, tpl: Option<Seq<u8>>, i: int) -> Seq<
    LinkSpec,
>
    decreases p.len() - i,
{
    if i < 0 || i >= p.len() {
        Seq::empty()
    } else {
        let rest = hash_links_from(p, forge, tpl, i + 1);
        if p[i] == 0x23 {
            match hash_link(p, forge, tpl, i) {
                Some(l) => seq![l] + rest,
                None => rest,
            }
        } else {
            rest
        }
    }
}

/// Length of the run of upper-case letters and digits starting at `i`.
pub open spec fn key_run(p: Seq<u8>, i: int) -> nat
    decreases p.len() - i,
{
    if i < 0 || i >= p.len() || !(is_upper(p[i]) || is_digit(p[i])) {
        0
    } else {
        1 + key_run(p, i + 1)
    }
}

/// Jira keys `ABC-123` from byte `i` on: an upper-case project key of
/// 2-10 letters and digits that starts a word, a dash, 1-7 digits, and no
/// identifier character after.
pub open spec fn jira_links_from(p: Seq<u8>, base: Seq<u8>, i: int) -> Seq<LinkSpec>
    decreases p.len() - i,
{
    if i < 0 || i >= p.len() {
        Seq::empty()
    } else if !is_upper(p[i]) {
        jira_links_from(p, base, i + 1)
    } else if i > 0 && (is_alnum(p[i - 1]) || p[i - 1] == 0x2d || p[i - 1] == 0x5f || p[i - 1]
        == 0x2f || p[i - 1] == 0x2e) {
        jira_links_from(p, base, i + 1)
    } else {
        proof {
            lemma_key_run(p, i + 1);
        }
        let j = i + 1 + key_run(p, i + 1);
        if !(2 <= j - i <= 10) || !(j < p.len() && p[j] == 0x2d) {
            jira_links_from(p, base, j)
        } else {
            match number_at(p, j + 1) {
                None => jira_links_from(p, base, j + 1),
                Some((_, n)) => {
                    proof {
                        lemma_digit_run(p, j + 1);
                    }
                    let end = j + 1 + n;
                    if end < p.len() && (is_alnum(p[end]) || p[end] == 0x2d || p[end] == 0x5f) {
                        jira_links_from(p, base, end)
                    } else {
                        seq![
                            LinkSpec {
                                start: i,
                                end,
                                kind: Kind::Issue,
                                href: base + str_bytes("/browse/") + p.subrange(i, end),
                            },
                        ] + jira_links_from(p, base, end)
                    }
                },
            }
        }
    }
}

/// The bytes of an optional string.
pub open spec fn opt_bytes(o: Option<String>) -> Option<Seq<u8>> {
    match o {
        Some(s) => Some(string_bytes(s)),
        None => None,
    }
}

/// All issue links of `p` under `opts`: `#` references in order, then
/// Jira keys in order (when a Jira base is set).
pub open spec fn issue_links(p: Seq<u8>, opts: Options) -> Seq<LinkSpec> {
    hash_links_from(p, string_bytes(opts.forge), opt_bytes(opts.issue_template), 0) + match opts.jira {
        Some(b) => jira_links_from(p, string_bytes(b), 0),
        None => Seq::empty(),
    }
}

proof fn lemma_last_non_slug(p: Seq<u8>, k: int)
    requires
        0 <= k <= p.len(),
    ensures
        -1 <= last_non_slug(p, k) < k,
        forall|m: int| last_non_slug(p, k) < m < k ==> is_slug(#[trigger] p[m]),
        last_non_slug(p, k) >= 0 ==> !is_slug(p[last_non_slug(p, k)]),
    decreases k,
{
    if k > 0 && is_slug(p[k - 1]) {
        lemma_last_non_slug(p, k - 1);
    }
}

fn last_non_slug_exec(p: &[u8], k: usize) -> (r: Option<usize>)
    requires
        k <= p.len(),
    ensures
        r matches Some(q) ==> last_non_slug(p@, k as int) == q as int && q < k,
        r is None ==> last_non_slug(p@, k as int) == -1,
{
    let mut j = k;
    while j > 0 && slug(p[j - 1])
        invariant
            j <= k <= p.len(),
            last_non_slug(p@, j as int) == last_non_slug(p@, k as int),
        decreases j,
    {
        j = j - 1;
    }
    if j == 0 {
        None
    } else {
        Some(j - 1)
    }
}

/// Would the reference at `h` slice inside a multi-byte character?
fn ref_panics(p: &[u8], h: usize, id_end: usize) -> (r: bool)
    requires
        h < p.len(),
        hash_number(p@, h as int) is Some,
    ensures
        r == hash_ref_panics(p@, h as int),
{
    match last_non_slug_exec(p, h) {
        None => false,
        Some(q) => {
            if p[q] >= 0x80 {
                return true;
            }
            if p[q] == 0x2f && q + 1 < h {
                match last_non_slug_exec(p, q) {
                    None => false,
                    Some(q2) => p[q2] >= 0x80,
                }
            } else {
                false
            }
        },
    }
}

fn slug_before(p: &[u8], h: usize) -> (r: Option<usize>)
    requires
        h < p.len(),
    ensures
        r matches Some(s) ==> slug_start(p@, h as int) == Some(s as int),
        r is None ==> slug_start(p@, h as int) is None,
{
    match last_non_slug_exec(p, h) {
        None => None,
        Some(q) => {
            if q + 1 == h || p[q] != 0x2f {
                return None;
            }
            match last_non_slug_exec(p, q) {
                None => {
                    if q == 0 {
                        None
                    } else {
                        Some(0)
                    }
                },
                Some(q2) => {
                    if q2 + 1 == q {
                        None
                    } else if p[q2] == 0x2f || p[q2] == 0x7e || p[q2] == 0x23 {
                        None
                    } else {
                        Some(q2 + 1)
                    }
                },
            }
        },
    }
}

fn hash_number_exec(p: &[u8], h: usize) -> (r: Option<(u32, usize)>)
    requires
        h < p.len(),
    ensures
        r matches Some((id, end)) ==> hash_number(p@, h as int) == Some((id as nat, end as int))
            && end <= p.len() && h + 1 < end,
        r is None ==> hash_number(p@, h as int) is None,
{
    match read_number(p, h + 1) {
        None => None,
        Some((id, n)) => {
            let end = h + 1 + n;
            if end < p.len() && (alnum(p[end]) || p[end] == 0x23) {
                None
            } else {
                Some((id, end))
            }
        },
    }
}

fn is_bare_boundary(p: &[u8], h: usize) -> (r: bool)
    requires
        valid_utf8(p@),
        at_boundary(p@, h as int),
    ensures
        r == bare_boundary(p@, h as int),
{
    if h == 0 {
        return true;
    }
    let k = prev_char_start(p, h);
    let c = decode_at(p, k);
    space_code(c) || c == 0x28 || c == 0x5b || c == 0x7b || c == 0x3c || c == 0x2c || c == 0x3a
}

proof fn lemma_slug_ascii(p: Seq<u8>, h: int)
    requires
        0 <= h < p.len(),
        slug_start(p, h) is Some,
    ensures
        all_ascii(p.subrange(slug_start(p, h).unwrap(), h)),
        slug_start(p, h).unwrap() < h,
{
    let q = last_non_slug(p, h);
    lemma_last_non_slug(p, h);
    lemma_last_non_slug(p, q);
    let s = slug_start(p, h).unwrap();
    assert forall|m: int| 0 <= m < h - s implies is_ascii_byte(
        #[trigger] p.subrange(s, h)[m],
    ) by {
        assert(p.subrange(s, h)[m] == p[s + m]);
        if s + m != q {
        }
    }
}

fn hash_link_exec(p: &[u8], forge: &[u8], tpl: Option<&[u8]>, h: usize) -> (r: Option<Link>)
    requires
        valid_utf8(p@),
        valid_utf8(forge@),
        tpl matches Some(t) ==> valid_utf8(t@),
        h < p.len(),
        p@[h as int] == 0x23,
    ensures
        r matches Some(l) ==> hash_link(p@, forge@, opt_view(tpl), h as int) == Some(l@),
        r is None ==> hash_link(p@, forge@, opt_view(tpl), h as int) is None,
{
    let (id, end) = match hash_number_exec(p, h) {
        None => return None,
        Some(v) => v,
    };
    proof {
        lemma_decimal_ascii(id as nat);
        lemma_ascii_valid(decimal(id as nat));
    }
    if let Some(s) = slug_before(p, h) {
        let mut href: Vec<u8> = Vec::new();
        proof {
            lemma_ascii_valid(href@);
            lemma_slug_ascii(p@, h as int);
            lemma_ascii_valid(p@.subrange(s as int, h as int));
        }
        push_valid(&mut href, forge);
        push_str(&mut href, "/");
        let ghost before = href@;
        push_range(&mut href, p, s, h);
        proof {
            valid_utf8_concat(before, p@.subrange(s as int, h as int));
        }
        push_str(&mut href, "/issues/");
        push_number(&mut href, id as u64);
        proof {
            assert(href@ =~= forge@ + str_bytes("/") + p@.subrange(s as int, h as int) + str_bytes(
                "/issues/",
            ) + decimal(id as nat));
        }
        return Some(Link { start: s, end, kind: Kind::Issue, href: bytes_to_string(href) });
    }
    match tpl {
        None => None,
        Some(t) => {
            proof {
                lemma_hash_boundary(p@, h as int);
            }
            if is_bare_boundary(p, h) {
                let mut num: Vec<u8> = Vec::new();
                push_number(&mut num, id as u64);
                let pat = slice_bytes("{id}");
                proof {
                    assert(num@ =~= decimal(id as nat));
                    reveal_strlit("{id}");
                    is_ascii_chars_encode_utf8("{id}"@);
                    lemma_replace_valid(t@, pat@, num@);
                }
                let href = replace_bytes(t, pat, num.as_slice());
                Some(Link { start: h, end, kind: Kind::Issue, href: bytes_to_string(href) })
            } else {
                None
            }
        },
    }
}

proof fn lemma_hash_boundary(p: Seq<u8>, h: int)
    requires
        0 <= h < p.len(),
        p[h] == 0x23,
    ensures
        at_boundary(p, h),
{
}

/// The position after a well-formed number at `i` is a boundary.
proof fn lemma_number_end(p: Seq<u8>, i: int)
    requires
        valid_utf8(p),
        0 <= i <= p.len(),
        number_at(p, i) is Some,
    ensures
        at_boundary(p, i + number_at(p, i).unwrap().1),
        number_at(p, i).unwrap().1 >= 1,
{
    lemma_digit_run(p, i);
    let n = digit_run(p, i);
    assert(is_digit(p[i + n - 1]));
    lemma_after_ascii(p, i + n);
}

/// The link of a `#` reference fits the text.
proof fn lemma_hash_link_fits(p: Seq<u8>, forge: Seq<u8>, tpl: Option<Seq<u8>>, h: int)
    requires
        valid_utf8(p),
        refs_well_sliced(p),
        0 <= h < p.len(),
        p[h] == 0x23,
    ensures
        hash_link(p, forge, tpl, h) matches Some(l) ==> link_fits(p, l),
{
    if let Some((id, end)) = hash_number(p, h) {
        lemma_number_end(p, h + 1);
        assert(!hash_ref_panics(p, h));
        match slug_start(p, h) {
            Some(s) => {
                lemma_slug_ascii(p, h);
                lemma_last_non_slug(p, h);
                let q = last_non_slug(p, h);
                lemma_last_non_slug(p, q);
                let q2 = last_non_slug(p, q);
                if q2 >= 0 {
                    lemma_after_ascii(p, q2 + 1);
                } else if p.len() > 0 {
                    assert(valid_first_scalar(p));
                }
            },
            None => {},
        }
    }
}

proof fn lemma_hash_links_fit(p: Seq<u8>, forge: Seq<u8>, tpl: Option<Seq<u8>>, i: int)
    requires
        valid_utf8(p),
        refs_well_sliced(p),
        0 <= i,
    ensures
        all_fit(p, hash_links_from(p, forge, tpl, i)),
    decreases p.len() - i,
{
    if i < p.len() {
        lemma_hash_links_fit(p, forge, tpl, i + 1);
        let rest = hash_links_from(p, forge, tpl, i + 1);
        if p[i] == 0x23 {
            lemma_hash_link_fits(p, forge, tpl, i);
            if let Some(l) = hash_link(p, forge, tpl, i) {
                let r = seq![l] + rest;
                assert forall|k: int| 0 <= k < r.len() implies link_fits(p, #[trigger] r[k]) by {
                    if k > 0 {
                        assert(r[k] == rest[k - 1]);
                    }
                }
            }
        }
    }
}

proof fn lemma_jira_links_fit(p: Seq<u8>, base: Seq<u8>, i: int)
    requires
        valid_utf8(p),
        0 <= i,
    ensures
        all_fit(p, jira_links_from(p, base, i)),
    decreases p.len() - i,
{
    if 0 <= i < p.len() {
        if !is_upper(p[i]) {
            lemma_jira_links_fit(p, base, i + 1);
        } else if i > 0 && (is_alnum(p[i - 1]) || p[i - 1] == 0x2d || p[i - 1] == 0x5f || p[i - 1]
            == 0x2f || p[i - 1] == 0x2e) {
            lemma_jira_links_fit(p, base, i + 1);
        } else {
            lemma_key_run(p, i + 1);
            let j = i + 1 + key_run(p, i + 1);
            if !(2 <= j - i <= 10) || !(j < p.len() && p[j] == 0x2d) {
                lemma_jira_links_fit(p, base, j);
            } else {
                match number_at(p, j + 1) {
                    None => lemma_jira_links_fit(p, base, j + 1),
                    Some((_, n)) => {
                        lemma_number_end(p, j + 1);
                        let end = j + 1 + n;
                        lemma_jira_links_fit(p, base, end);
                        let rest = jira_links_from(p, base, end);
                        if !(end < p.len() && (is_alnum(p[end]) || p[end] == 0x2d || p[end]
                            == 0x5f)) {
                            let l = LinkSpec {
                                start: i,
                                end,
                                kind: Kind::Issue,
                                href: base + str_bytes("/browse/") + p.subrange(i, end),
                            };
                            let r = seq![l] + rest;
                            assert(link_fits(p, l));
                            assert forall|k: int| 0 <= k < r.len() implies link_fits(
                                p,
                                #[trigger] r[k],
                            ) by {
                                if k > 0 {
                                    assert(r[k] == rest[k - 1]);
                                }
                            }
                        }
                    },
                }
            }
        }
    }
}

/// `p[s..e)` is a Jira key reference: 2-10 upper-case letters and digits
/// led by a letter, `-`, then 1-7 digits; the byte before is not a letter,
/// digit, `-`, `_`, `/` or `.`, and the byte after is not a letter, digit,
/// `-` or `_`.
pub open spec fn jira_key_at(p: Seq<u8>, s: int, e: int) -> bool {
    exists|j: int|
        {
            &&& s + 2 <= j <= s + 10
            &&& j + 2 <= e <= j + 8
            &&& e <= p.len()
            &&& is_upper(p[s])
            &&& (forall|t: int| s <= t < j ==> is_upper(#[trigger] p[t]) || is_digit(p[t]))
            &&& #[trigger] p[j] == 0x2d
            &&& (forall|t: int| j < t < e ==> is_digit(#[trigger] p[t]))
            &&& (s == 0 || !(is_alnum(p[s - 1]) || p[s - 1] == 0x2d || p[s - 1] == 0x5f || p[s
                - 1] == 0x2f || p[s - 1] == 0x2e))
            &&& (e == p.len() || !(is_alnum(p[e]) || p[e] == 0x2d || p[e] == 0x5f))
        }
}

proof fn lemma_jira_shape(p: Seq<u8>, base: Seq<u8>, i: int)
    requires
        0 <= i,
    ensures
        forall|k: int|
            0 <= k < jira_links_from(p, base, i).len() ==> {
                let l = #[trigger] jira_links_from(p, base, i)[k];
                &&& i <= l.start
                &&& jira_key_at(p, l.start, l.end)
                &&& l.kind == Kind::Issue
                &&& l.href == base + str_bytes("/browse/") + p.subrange(l.start, l.end)
            },
        in_order(jira_links_from(p, base, i)),
    decreases p.len() - i,
{
    if 0 <= i < p.len() {
        if !is_upper(p[i]) {
            lemma_jira_shape(p, base, i + 1);
        } else if i > 0 && (is_alnum(p[i - 1]) || p[i - 1] == 0x2d || p[i - 1] == 0x5f || p[i - 1]
            == 0x2f || p[i - 1] == 0x2e) {
            lemma_jira_shape(p, base, i + 1);
        } else {
            lemma_key_run(p, i + 1);
            let j = i + 1 + key_run(p, i + 1);
            if !(2 <= j - i <= 10) || !(j < p.len() && p[j] == 0x2d) {
                lemma_jira_shape(p, base, j);
            } else {
                match number_at(p, j + 1) {
                    None => lemma_jira_shape(p, base, j + 1),
                    Some((_, n)) => {
                        lemma_digit_run(p, j + 1);
                        let end = j + 1 + n;
                        lemma_jira_shape(p, base, end);
                        let rest = jira_links_from(p, base, end);
                        if !(end < p.len() && (is_alnum(p[end]) || p[end] == 0x2d || p[end]
                            == 0x5f)) {
                            let l = LinkSpec {
                                start: i,
                                end,
                                kind: Kind::Issue,
                                href: base + str_bytes("/browse/") + p.subrange(i, end),
                            };
                            assert(jira_key_at(p, i, end)) by {
                                assert(p[j] == 0x2d);
                            }
                            let r = seq![l] + rest;
                            assert forall|k: int| 0 <= k < r.len() implies {
                                let m = #[trigger] r[k];
                                &&& i <= m.start
                                &&& jira_key_at(p, m.start, m.end)
                                &&& m.kind == Kind::Issue
                                &&& m.href == base + str_bytes("/browse/") + p.subrange(
                                    m.start,
                                    m.end,
                                )
                            } by {
                                if k > 0 {
                                    assert(r[k] == rest[k - 1]);
                                }
                            }
                            assert forall|a: int, b: int| 0 <= a < b < r.len() implies (
                            #[trigger] r[a]).end <= (#[trigger] r[b]).start by {
                                assert(r[b] == rest[b - 1]);
                                if a > 0 {
                                    assert(r[a] == rest[a - 1]);
                                }
                            }
                        }
                    },
                }
            }
        }
    }
}

/// Law: every Jira key reference from byte `i` on is linked, with its
/// target: nothing that [`jira_key_at`] describes is missed, at the start
/// of the line or anywhere else.
pub proof fn jira_keys_are_all_linked(p: Seq<u8>, base: Seq<u8>, i: int, s: int, e: int)
    requires
        0 <= i <= s,
        jira_key_at(p, s, e),
    ensures
        jira_links_from(p, base, i).contains(
            LinkSpec {
                start: s,
                end: e,
                kind: Kind::Issue,
                href: base + str_bytes("/browse/") + p.subrange(s, e),
            },
        ),
    decreases p.len() - i,
{
    let j0 = choose|j: int|
        {
            &&& s + 2 <= j <= s + 10
            &&& j + 2 <= e <= j + 8
            &&& e <= p.len()
            &&& is_upper(p[s])
            &&& (forall|t: int| s <= t < j ==> is_upper(#[trigger] p[t]) || is_digit(p[t]))
            &&& #[trigger] p[j] == 0x2d
            &&& (forall|t: int| j < t < e ==> is_digit(#[trigger] p[t]))
            &&& (s == 0 || !(is_alnum(p[s - 1]) || p[s - 1] == 0x2d || p[s - 1] == 0x5f || p[s
                - 1] == 0x2f || p[s - 1] == 0x2e))
            &&& (e == p.len() || !(is_alnum(p[e]) || p[e] == 0x2d || p[e] == 0x5f))
        };
    let target = LinkSpec {
        start: s,
        end: e,
        kind: Kind::Issue,
        href: base + str_bytes("/browse/") + p.subrange(s, e),
    };
    if i < p.len() {
        let r = jira_links_from(p, base, i);
        if i == s {
            // the key run ends at the dash, the digits at `e`
            lemma_key_run(p, i + 1);
            let j = i + 1 + key_run(p, i + 1);
            if j < j0 {
                assert(is_upper(p[j]) || is_digit(p[j]));
            }
            if j > j0 {
                assert(is_upper(p[j0]) || is_digit(p[j0]));
            }
            assert(j == j0);
            lemma_digit_run(p, j + 1);
            let n = digit_run(p, j + 1);
            if j + 1 + n < e {
                assert(is_digit(p[j + 1 + n]));
            }
            if j + 1 + n > e {
                assert(is_digit(p[e]));
            }
            assert(n == e - j - 1);
            assert(r == seq![target] + jira_links_from(p, base, e));
            assert(r[0] == target);
        } else {
            if !is_upper(p[i]) {
                jira_keys_are_all_linked(p, base, i + 1, s, e);
                assert(r == jira_links_from(p, base, i + 1));
            } else if i > 0 && (is_alnum(p[i - 1]) || p[i - 1] == 0x2d || p[i - 1] == 0x5f || p[i
                - 1] == 0x2f || p[i - 1] == 0x2e) {
                jira_keys_are_all_linked(p, base, i + 1, s, e);
                assert(r == jira_links_from(p, base, i + 1));
            } else {
                lemma_key_run(p, i + 1);
                let j = i + 1 + key_run(p, i + 1);
                if s < j {
                    assert(is_upper(p[s - 1]) || is_digit(p[s - 1]));
                }
                if !(2 <= j - i <= 10) || !(j < p.len() && p[j] == 0x2d) {
                    jira_keys_are_all_linked(p, base, j, s, e);
                    assert(r == jira_links_from(p, base, j));
                } else {
                    if s == j {
                        assert(p[s] == 0x2d);
                    }
                    match number_at(p, j + 1) {
                        None => {
                            jira_keys_are_all_linked(p, base, j + 1, s, e);
                            assert(r == jira_links_from(p, base, j + 1));
                        },
                        Some((_, n)) => {
                            lemma_digit_run(p, j + 1);
                            let end = j + 1 + n;
                            if s < end {
                                if s == j + 1 {
                                    assert(p[s - 1] == 0x2d);
                                } else {
                                    assert(is_digit(p[s - 1]));
                                }
                            }
                            jira_keys_are_all_linked(p, base, end, s, e);
                            let rest = jira_links_from(p, base, end);
                            if end < p.len() && (is_alnum(p[end]) || p[end] == 0x2d || p[end]
                                == 0x5f) {
                                assert(r == rest);
                            } else {
                                let l = LinkSpec {
                                    start: i,
                                    end,
                                    kind: Kind::Issue,
                                    href: base + str_bytes("/browse/") + p.subrange(i, end),
                                };
                                assert(r == seq![l] + rest);
                                let k = choose|k: int| 0 <= k < rest.len() && rest[k] == target;
                                assert(r[k + 1] == target);
                            }
                        },
                    }
                }
            }
        }
    }
}

/// Law: the Jira links come in order, and each is a Jira key reference
/// (see [`jira_key_at`]) linking to the base, `/browse/` and the key.
pub proof fn jira_links_shape(p: Seq<u8>, base: Seq<u8>)
    ensures
        in_order(jira_links_from(p, base, 0)),
        forall|k: int|
            0 <= k < jira_links_from(p, base, 0).len() ==> {
                let l = #[trigger] jira_links_from(p, base, 0)[k];
                &&& jira_key_at(p, l.start, l.end)
                &&& l.kind == Kind::Issue
                &&& l.href == base + str_bytes("/browse/") + p.subrange(l.start, l.end)
            },
{
    lemma_jira_shape(p, base, 0);
}

/// `p[s..e)` is the reference whose `#` is at `h`, and `href` is its
/// target: `h + 1..e` holds the 1-7 digits of `id` with no letter, digit
/// or `#` after them; it is either `owner/repo#id` (starting at the slug)
/// linking to the forge's issue `id`, or a bare `#id` after a clean
/// boundary linking to the template with `{id}` replaced.
pub open spec fn hash_ref_at(
    p: Seq<u8>,
    forge: Seq<u8>,
    tpl: Option<Seq<u8>>,
    h: int,
    s: int,
    e: int,
    href: Seq<u8>,
) -> bool {
    &&& 0 <= h < p.len()
    &&& p[h] == 0x23
    &&& match number_at(p, h + 1) {
        None => false,
        Some((id, n)) => {
            &&& e == h + 1 + n
            &&& e <= p.len()
            &&& (e == p.len() || !(is_alnum(p[e]) || p[e] == 0x23))
            &&& if s < h {
                slug_start(p, h) == Some(s) && href == forge + str_bytes("/") + p.subrange(s, h)
                    + str_bytes("/issues/") + decimal(id)
            } else {
                s == h && slug_start(p, h) is None && bare_boundary(p, h) && match tpl {
                    Some(t) => href == replace_all(t, str_bytes("{id}"), decimal(id)),
                    None => false,
                }
            }
        },
    }
}

proof fn lemma_hash_shape(p: Seq<u8>, forge: Seq<u8>, tpl: Option<Seq<u8>>, i: int)
    requires
        0 <= i,
    ensures
        forall|k: int|
            0 <= k < hash_links_from(p, forge, tpl, i).len() ==> {
                let l = #[trigger] hash_links_from(p, forge, tpl, i)[k];
                &&& l.kind == Kind::Issue
                &&& exists|h: int| i <= h && hash_ref_at(p, forge, tpl, h, l.start, l.end, l.href)
            },
    decreases p.len() - i,
{
    if i < p.len() {
        lemma_hash_shape(p, forge, tpl, i + 1);
        let rest = hash_links_from(p, forge, tpl, i + 1);
        if p[i] == 0x23 {
            if let Some(l) = hash_link(p, forge, tpl, i) {
                let (id, end) = hash_number(p, i).unwrap();
                let (id2, n) = number_at(p, i + 1).unwrap();
                lemma_digit_run(p, i + 1);
                assert(id2 == id && end == i + 1 + n);
                assert(end == l.end);
                if let Some(s) = slug_start(p, i) {
                    lemma_slug_ascii(p, i);
                    assert(l.start == s && s < i);
                    assert(l.href == forge + str_bytes("/") + p.subrange(s, i) + str_bytes(
                        "/issues/",
                    ) + decimal(id2));
                } else {
                    assert(l.start == i);
                    assert(bare_boundary(p, i));
                    let t = tpl->Some_0;
                    assert(l.href == replace_all(t, str_bytes("{id}"), decimal(id2)));
                }
                assert(end == i + 1 + n);
                assert(end == p.len() || !(is_alnum(p[end]) || p[end] == 0x23));
                assert(hash_ref_at(p, forge, tpl, i, l.start, l.end, l.href));
                let r = seq![l] + rest;
                assert forall|k: int| 0 <= k < r.len() implies {
                    let m = #[trigger] r[k];
                    &&& m.kind == Kind::Issue
                    &&& exists|h: int| i <= h && hash_ref_at(p, forge, tpl, h, m.start, m.end, m.href)
                } by {
                    if k > 0 {
                        assert(r[k] == rest[k - 1]);
                        let m = rest[k - 1];
                        let h = choose|h: int|
                            i + 1 <= h && hash_ref_at(p, forge, tpl, h, m.start, m.end, m.href);
                        assert(i <= h);
                    }
                }
            } else {
                assert forall|k: int| 0 <= k < rest.len() implies {
                    let m = #[trigger] rest[k];
                    &&& m.kind == Kind::Issue
                    &&& exists|h: int| i <= h && hash_ref_at(p, forge, tpl, h, m.start, m.end, m.href)
                } by {
                    let m = rest[k];
                    let h = choose|h: int|
                        i + 1 <= h && hash_ref_at(p, forge, tpl, h, m.start, m.end, m.href);
                }
            }
        } else {
            assert forall|k: int| 0 <= k < rest.len() implies {
                let m = #[trigger] rest[k];
                &&& m.kind == Kind::Issue
                &&& exists|h: int| i <= h && hash_ref_at(p, forge, tpl, h, m.start, m.end, m.href)
            } by {
                let m = rest[k];
                let h = choose|h: int|
                    i + 1 <= h && hash_ref_at(p, forge, tpl, h, m.start, m.end, m.href);
            }
        }
    }
}

/// Law: every well-formed `#` reference from byte `i` on (see
/// [`hash_ref_at`]) is linked, with its target.
pub proof fn hash_refs_are_all_linked(
    p: Seq<u8>,
    forge: Seq<u8>,
    tpl: Option<Seq<u8>>,
    i: int,
    h: int,
    s: int,
    e: int,
    href: Seq<u8>,
)
    requires
        0 <= i <= h,
        hash_ref_at(p, forge, tpl, h, s, e, href),
    ensures
        hash_links_from(p, forge, tpl, i).contains(
            LinkSpec { start: s, end: e, kind: Kind::Issue, href },
        ),
    decreases p.len() - i,
{
    let target = LinkSpec { start: s, end: e, kind: Kind::Issue, href };
    if i < p.len() {
        let r = hash_links_from(p, forge, tpl, i);
        if i == h {
            lemma_digit_run(p, h + 1);
            if s < h {
                lemma_slug_ascii(p, h);
            }
            assert(hash_link(p, forge, tpl, h) == Some(target));
            assert(r[0] == target);
        } else {
            hash_refs_are_all_linked(p, forge, tpl, i + 1, h, s, e, href);
            let rest = hash_links_from(p, forge, tpl, i + 1);
            let k = choose|k: int| 0 <= k < rest.len() && rest[k] == target;
            if p[i] == 0x23 && hash_link(p, forge, tpl, i) is Some {
                assert(r == seq![hash_link(p, forge, tpl, i)->Some_0] + rest);
                assert(r[k + 1] == target);
            } else {
                assert(r == rest);
            }
        }
    }
}

/// Law: every `#` link is a well-formed reference with its target (see
/// [`hash_ref_at`]): cross-repo ones link to the forge, bare ones (only
/// with a template) to the template with the parsed number.
pub proof fn hash_links_shape(p: Seq<u8>, forge: Seq<u8>, tpl: Option<Seq<u8>>)
    ensures
        forall|k: int|
            0 <= k < hash_links_from(p, forge, tpl, 0).len() ==> {
                let l = #[trigger] hash_links_from(p, forge, tpl, 0)[k];
                &&& l.kind == Kind::Issue
                &&& exists|h: int| hash_ref_at(p, forge, tpl, h, l.start, l.end, l.href)
            },
{
    lemma_hash_shape(p, forge, tpl, 0);
}

/// Every issue link is of kind `Issue`.
pub proof fn lemma_issue_links_kind(p: Seq<u8>, opts: Options)
    ensures
        forall|k: int|
            0 <= k < issue_links(p, opts).len() ==> (#[trigger] issue_links(p, opts)[k]).kind
                == Kind::Issue,
{
    let a = hash_links_from(p, string_bytes(opts.forge), opt_bytes(opts.issue_template), 0);
    hash_links_shape(p, string_bytes(opts.forge), opt_bytes(opts.issue_template));
    let b = match opts.jira {
        Some(base) => jira_links_from(p, string_bytes(base), 0),
        None => Seq::<LinkSpec>::empty(),
    };
    if let Some(base) = opts.jira {
        jira_links_shape(p, string_bytes(base));
    }
    assert forall|k: int| 0 <= k < (a + b).len() implies (#[trigger] (a + b)[k]).kind
        == Kind::Issue by {
        if k < a.len() {
            assert((a + b)[k] == a[k]);
        } else {
            assert((a + b)[k] == b[k - a.len()]);
        }
    }
}

/// The issue links of well-sliced text fit it.
pub proof fn lemma_issue_links_fit(p: Seq<u8>, opts: Options)
    requires
        valid_utf8(p),
        refs_well_sliced(p),
    ensures
        all_fit(p, issue_links(p, opts)),
{
    let a = hash_links_from(p, string_bytes(opts.forge), opt_bytes(opts.issue_template), 0);
    lemma_hash_links_fit(p, string_bytes(opts.forge), opt_bytes(opts.issue_template), 0);
    let b = match opts.jira {
        Some(base) => jira_links_from(p, string_bytes(base), 0),
        None => Seq::<LinkSpec>::empty(),
    };
    if let Some(base) = opts.jira {
        lemma_jira_links_fit(p, string_bytes(base), 0);
    }
    assert forall|k: int| 0 <= k < (a + b).len() implies link_fits(p, #[trigger] (a + b)[k]) by {
        if k >= a.len() {
            assert((a + b)[k] == b[k - a.len()]);
        } else {
            assert((a + b)[k] == a[k]);
        }
    }
}

/// The bytes an optional slice holds.
pub open spec fn opt_view(o: Option<&[u8]>) -> Option<Seq<u8>> {
    match o {
        Some(t) => Some(t@),
        None => None,
    }
}

fn hash_links_exec(p: &[u8], forge: &[u8], tpl: Option<&[u8]>, out: &mut Vec<Link>)
    requires
        valid_utf8(p@),
        valid_utf8(forge@),
        tpl matches Some(t) ==> valid_utf8(t@),
    ensures
        links_view(final(out)@) == links_view(old(out)@) + hash_links_from(
            p@,
            forge@,
            opt_view(tpl),
            0,
        ),
{
    let mut i: usize = 0;
    let ghost start = links_view(out@);
    while i < p.len()
        invariant
            valid_utf8(p@),
            valid_utf8(forge@),
            tpl matches Some(t) ==> valid_utf8(t@),
            i <= p.len(),
            start + hash_links_from(p@, forge@, opt_view(tpl), 0) == links_view(out@)
                + hash_links_from(p@, forge@, opt_view(tpl), i as int),
        decreases p.len() - i,
    {
        if p[i] == 0x23 {
            if let Some(l) = hash_link_exec(p, forge, tpl, i) {
                proof {
                    assert(links_view(out@.push(l)) =~= links_view(out@) + seq![l@]);
                    assert(links_view(out@) + hash_links_from(p@, forge@, opt_view(tpl), i as int)
                        =~= links_view(out@.push(l)) + hash_links_from(
                        p@,
                        forge@,
                        opt_view(tpl),
                        i + 1,
                    ));
                }
                out.push(l);
            }
        }
        i = i + 1;
    }
    proof {
        assert(links_view(out@) + Seq::<LinkSpec>::empty() =~= links_view(out@));
        assert(start + Seq::<LinkSpec>::empty() =~= start);
    }
}

pub proof fn lemma_key_run(p: Seq<u8>, i: int)
    requires
        0 <= i <= p.len(),
    ensures
        i + key_run(p, i) <= p.len(),
        forall|k: int| i <= k < i + key_run(p, i) ==> (is_upper(#[trigger] p[k]) || is_digit(p[k])),
        i + key_run(p, i) < p.len() ==> !(is_upper(p[i + key_run(p, i)]) || is_digit(
            p[i + key_run(p, i)],
        )),
    decreases p.len() - i,
{
    if i < p.len() && (is_upper(p[i]) || is_digit(p[i])) {
        lemma_key_run(p, i + 1);
    }
}

fn jira_links_exec(p: &[u8], base: &[u8], out: &mut Vec<Link>)
    requires
        valid_utf8(base@),
    ensures
        links_view(final(out)@) == links_view(old(out)@) + jira_links_from(p@, base@, 0),
{
    let mut i: usize = 0;
    let ghost start = links_view(out@);
    while i < p.len()
        invariant
            valid_utf8(base@),
            i <= p.len(),
            start + jira_links_from(p@, base@, 0) == links_view(out@) + jira_links_from(
                p@,
                base@,
                i as int,
            ),
        decreases p.len() - i,
    {
        if !upper(p[i]) {
            i = i + 1;
            continue;
        }
        if i > 0 {
            let prev = p[i - 1];
            if alnum(prev) || prev == 0x2d || prev == 0x5f || prev == 0x2f || prev == 0x2e {
                i = i + 1;
                continue;
            }
        }
        proof {
            lemma_key_run(p@, i + 1);
        }
        let mut j = i + 1;
        while j < p.len() && (upper(p[j]) || digit(p[j]))
            invariant
                i + 1 <= j <= i + 1 + key_run(p@, i + 1) <= p.len(),
                forall|k: int| i + 1 <= k < i + 1 + key_run(p@, i + 1) ==> (is_upper(
                    #[trigger] p@[k],
                ) || is_digit(p@[k])),
                i + 1 + key_run(p@, i + 1) < p.len() ==> !(is_upper(
                    p@[i + 1 + key_run(p@, i + 1)],
                ) || is_digit(p@[i + 1 + key_run(p@, i + 1)])),
            decreases p.len() - j,
        {
            j = j + 1;
        }
        let key_len = j - i;
        if key_len < 2 || key_len > 10 || j >= p.len() || p[j] != 0x2d {
            i = j;
            continue;
        }
        let digits = match read_number(p, j + 1) {
            None => {
                i = j + 1;
                continue;
            },
            Some((_, n)) => n,
        };
        let end = j + 1 + digits;
        if end < p.len() && (alnum(p[end]) || p[end] == 0x2d || p[end] == 0x5f) {
            i = end;
            continue;
        }
        let mut href: Vec<u8> = Vec::new();
        proof {
            lemma_ascii_valid(href@);
        }
        push_valid(&mut href, base);
        push_str(&mut href, "/browse/");
        let ghost before = href@;
        push_range(&mut href, p, i, end);
        proof {
            lemma_digit_run(p@, j + 1);
            assert forall|m: int| 0 <= m < end - i implies is_ascii_byte(
                #[trigger] p@.subrange(i as int, end as int)[m],
            ) by {
                assert(p@.subrange(i as int, end as int)[m] == p@[i + m]);
                if i + m < j {
                    if i + m > i {
                        assert(is_upper(p@[i + m]) || is_digit(p@[i + m]));
                    }
                } else if i + m > j {
                    assert(is_digit(p@[i + m]));
                }
            }
            lemma_ascii_valid(p@.subrange(i as int, end as int));
            valid_utf8_concat(before, p@.subrange(i as int, end as int));
            assert(href@ =~= base@ + str_bytes("/browse/") + p@.subrange(i as int, end as int));
        }
        let link = Link { start: i, end, kind: Kind::Issue, href: bytes_to_string(href) };
        proof {
            assert(links_view(out@.push(link)) =~= links_view(out@) + seq![link@]);
        }
        out.push(link);
        i = end;
    }
    proof {
        assert(links_view(out@) + Seq::<LinkSpec>::empty() =~= links_view(out@));
        assert(start + Seq::<LinkSpec>::empty() =~= start);
    }
}

pub(crate) fn find_in(p: &[u8], opts: &Options) -> (r: Vec<Link>)
    requires
        valid_utf8(p@),
        refs_well_sliced(p@),
    ensures
        links_view(r@) == issue_links(p@, *opts),
{
    let mut out: Vec<Link> = Vec::new();
    let forge = bytes_of(&opts.forge);
    let tpl: Option<&[u8]> = match &opts.issue_template {
        Some(t) => Some(bytes_of(t)),
        None => None,
    };
    proof {
        assert(opt_view(tpl) == opt_bytes(opts.issue_template));
        assert(links_view(out@) =~= Seq::<LinkSpec>::empty());
    }
    hash_links_exec(p, forge, tpl, &mut out);
    if let Some(base) = &opts.jira {
        jira_links_exec(p, bytes_of(base), &mut out);
    }
    proof {
        assert(links_view(out@) =~= issue_links(p@, *opts));
    }
    out
}

/// Find all issue-reference links in `plain`.
pub fn find(plain: &str, opts: &Options) -> (r: Vec<Link>)
    requires
        refs_well_sliced(str_bytes(plain)),
    ensures
        links_view(r@) == issue_links(str_bytes(plain), *opts),
{
    find_in(slice_bytes(plain), opts)
}

/// Whether `plain` holds a `#` reference whose slug lookup slices inside a
/// multi-byte character (where [`find`] cannot run).
pub fn has_missliced_ref(plain: &str) -> (r: bool)
    ensures
        r == !refs_well_sliced(str_bytes(plain)),
{
    let p = slice_bytes(plain);
    let mut i: usize = 0;
    while i < p.len()
        invariant
            i <= p.len(),
            p@ == str_bytes(plain),
            forall|h: int| 0 <= h < i && p@[h] == 0x23 ==> !#[trigger] hash_ref_panics(p@, h),
        decreases p.len() - i,
    {
        if p[i] == 0x23 {
            if let Some((_, end)) = hash_number_exec(p, i) {
                if ref_panics(p, i, end) {
                    proof {
                        assert(hash_ref_panics(p@, i as int));
                        assert(p@[i as int] == 0x23);
                        assert(!refs_well_sliced(p@));
                    }
                    return true;
                }
            }
        }
        i = i + 1;
    }
    false
}

} // verus!
