//! URL detection in plain text.
//!
//! Finds `http://`, `https://`, `file://` and bare `www.` targets, extends
//! them to the longest plausible span, then trims the punctuation that prose
//! and Markdown wrap around URLs, including the classic unbalanced-paren
//! problem: `(see https://example.test/a)` must not link the closing paren,
//! while `https://en.wikipedia.org/wiki/Pipe_(Unix)` must keep it.
use crate::scan::{all_fit, in_order, link_fits, links_view, Kind, Link, LinkSpec};
use crate::text::{
    alnum, all_ascii, at_boundary, bytes_to_string, char_width, code_at, control_code, copy_bytes,
    is_alpha, is_lower,
    decode_at, every_kept, is_alnum, is_ascii_byte, is_control_code, is_space_code,
    lemma_after_ascii, lemma_ascii_valid, lemma_encode_ascii, lemma_encode_kept, lemma_next_char,
    lower, percent_encode, percent_encode_bytes, push_range, push_str, slice_bytes, space_code,
    str_bytes, to_lower, width_of, Keep,
};
use vstd::prelude::*;
use vstd::utf8::*;

verus! {

/// The code points that end a URL span outright.
pub open spec fn is_terminator_code(c: u32) -> bool {
    is_space_code(c) || is_control_code(c) || c == 0x3c || c == 0x3e || c == 0x22 || c == 0x27
        || c == 0x60 || c == 0x7c
}

fn is_terminator(c: u32) -> (r: bool)
    ensures
        r == is_terminator_code(c),
{
    space_code(c) || control_code(c) || c == 0x3c || c == 0x3e || c == 0x22 || c == 0x27 || c
        == 0x60 || c == 0x7c
}

/// `pat` occurs at `i`, ignoring ASCII case.
pub open spec fn occurs_ci(p: Seq<u8>, i: int, pat: Seq<u8>) -> bool {
    0 <= i && i + pat.len() <= p.len() && forall|k: int|
        0 <= k < pat.len() ==> lower(#[trigger] p[i + k]) == lower(pat[k])
}

/// A URL marker at `i`: (marker length, is `www.`). Schemes are tried in
/// the order `https://`, `http://`, `file://`; `www.` needs an
/// alphanumeric byte right after it.
pub open spec fn marker_at(p: Seq<u8>, i: int) -> Option<(int, bool)> {
    if occurs_ci(p, i, str_bytes("https://")) {
        Some((8, false))
    } else if occurs_ci(p, i, str_bytes("http://")) {
        Some((7, false))
    } else if occurs_ci(p, i, str_bytes("file://")) {
        Some((7, false))
    } else if i + 5 <= p.len() && occurs_ci(p, i, str_bytes("www.")) && is_alnum(p[i + 4]) {
        Some((4, true))
    } else {
        None
    }
}

/// The byte before a marker glues it to a longer token (`xhttp://`,
/// `foo.www.`). A non-ASCII previous character never does.
pub open spec fn glued(p: Seq<u8>, i: int, www: bool) -> bool {
    i > 0 && {
        let prev = p[i - 1];
        if www {
            is_alnum(prev) || prev == 0x2e || prev == 0x40 || prev == 0x2f || prev == 0x2d
        } else {
            is_alnum(prev) || prev == 0x2b || prev == 0x2d || prev == 0x2e
        }
    }
}

/// End of the run of non-terminator characters starting at `j`.
pub open spec fn run_end(p: Seq<u8>, j: int) -> int
    decreases p.len() + 4 - j,
{
    if j < 0 || j >= p.len() || is_terminator_code(code_at(p, j)) {
        j
    } else {
        run_end(p, j + char_width(p[j]))
    }
}

/// How many times `b` occurs in `s`.
pub open spec fn count_byte(s: Seq<u8>, b: u8) -> nat
    decreases s.len(),
{
    if s.len() == 0 {
        0
    } else {
        count_byte(s.drop_last(), b) + if s.last() == b {
            1nat
        } else {
            0nat
        }
    }
}

/// Trailing sentence punctuation.
pub open spec fn is_prose_punct(b: u8) -> bool {
    b == 0x2e || b == 0x2c || b == 0x3b || b == 0x3a || b == 0x21 || b == 0x3f || b == 0x2a
}

/// The opening bracket matching a closing one.
pub open spec fn opener(b: u8) -> u8 {
    if b == 0x29 {
        0x28
    } else if b == 0x5d {
        0x5b
    } else {
        0x7b
    }
}

pub open spec fn is_closer(b: u8) -> bool {
    b == 0x29 || b == 0x5d || b == 0x7d
}

/// Trim trailing prose punctuation and unbalanced closing brackets from
/// the span `[start, end)`.
pub open spec fn trimmed_end(p: Seq<u8>, start: int, end: int) -> int
    decreases end - start,
{
    if end <= start {
        end
    } else {
        let last = p[end - 1];
        if is_prose_punct(last) {
            trimmed_end(p, start, end - 1)
        } else if is_closer(last) && count_byte(p.subrange(start, end), last) > count_byte(
            p.subrange(start, end),
            opener(last),
        ) {
            trimmed_end(p, start, end - 1)
        } else {
            end
        }
    }
}

/// Some ASCII letter or digit lies in `[from, to)`.
pub open spec fn has_alnum(p: Seq<u8>, from: int, to: int) -> bool {
    exists|k: int| from <= k < to && is_alnum(#[trigger] p[k])
}

/// The link target for the URL text `text`: `www.` targets get an
/// `https://` prefix, and non-ASCII bytes are percent-encoded.
pub open spec fn url_href(text: Seq<u8>, www: bool) -> Seq<u8> {
    percent_encode(
        if www {
            str_bytes("https://") + text
        } else {
            text
        },
        Keep::Ascii,
    )
}

/// The URL links found from byte `i` on, in order.
pub open spec fn urls_from(p: Seq<u8>, i: int) -> Seq<LinkSpec>
    decreases p.len() + 4 - i,
{
    if i < 0 || i >= p.len() {
        Seq::empty()
    } else {
        match marker_at(p, i) {
            None => urls_from(p, i + char_width(p[i])),
            Some((skip, www)) => if glued(p, i, www) {
                urls_from(p, i + char_width(p[i]))
            } else {
                let end = trimmed_end(p, i, run_end(p, i + skip));
                if has_alnum(p, i + skip, end) && end <= p.len() {
                    seq![
                        LinkSpec {
                            start: i,
                            end,
                            kind: Kind::Url,
                            href: url_href(p.subrange(i, end), www),
                        },
                    ] + urls_from(p, end)
                } else {
                    proof {
                        lemma_marker_lengths();
                    }
                    urls_from(p, i + skip)
                }
            },
        }
    }
}

pub proof fn lemma_marker_lengths()
    ensures
        str_bytes("https://").len() == 8,
        str_bytes("http://").len() == 7,
        str_bytes("file://").len() == 7,
        str_bytes("www.").len() == 4,
{
    reveal_strlit("https://");
    reveal_strlit("http://");
    reveal_strlit("file://");
    reveal_strlit("www.");
    is_ascii_chars_encode_utf8("https://"@);
    is_ascii_chars_encode_utf8("http://"@);
    is_ascii_chars_encode_utf8("file://"@);
    is_ascii_chars_encode_utf8("www."@);
}

/// Law: trimming a span removes only trailing prose punctuation and
/// closing brackets; what is kept ends neither in prose punctuation nor in
/// a closing bracket that has more closers than openers in the span.
pub proof fn trimming_removes_only_punctuation(p: Seq<u8>, start: int, end: int)
    requires
        0 <= start <= end <= p.len(),
    ensures
        start <= trimmed_end(p, start, end) <= end,
        forall|x: int|
            trimmed_end(p, start, end) <= x < end ==> is_prose_punct(#[trigger] p[x]) || is_closer(
                p[x],
            ),
        trimmed_end(p, start, end) > start ==> {
            let r = trimmed_end(p, start, end);
            let last = p[r - 1];
            &&& !is_prose_punct(last)
            &&& is_closer(last) ==> count_byte(p.subrange(start, r), last) <= count_byte(
                p.subrange(start, r),
                opener(last),
            )
        },
    decreases end - start,
{
    if end > start {
        let last = p[end - 1];
        if is_prose_punct(last) || (is_closer(last) && count_byte(p.subrange(start, end), last)
            > count_byte(p.subrange(start, end), opener(last))) {
            trimming_removes_only_punctuation(p, start, end - 1);
        }
    }
}

/// The URL links in `p`.
pub open spec fn url_links(p: Seq<u8>) -> Seq<LinkSpec> {
    urls_from(p, 0)
}

fn occurs_ci_exec(p: &[u8], i: usize, pat: &[u8]) -> (r: bool)
    ensures
        r == occurs_ci(p@, i as int, pat@),
{
    if i > p.len() || pat.len() > p.len() - i {
        return false;
    }
    let mut k: usize = 0;
    while k < pat.len()
        invariant
            i + pat.len() <= p.len(),
            k <= pat.len(),
            forall|m: int| 0 <= m < k ==> lower(#[trigger] p@[i + m]) == lower(pat@[m]),
        decreases pat.len() - k,
    {
        if to_lower(p[i + k]) != to_lower(pat[k]) {
            return false;
        }
        k = k + 1;
    }
    true
}

fn match_start(p: &[u8], i: usize) -> (r: Option<(usize, bool)>)
    requires
        i < p.len(),
    ensures
        r matches Some((n, w)) ==> marker_at(p@, i as int) == Some((n as int, w)),
        r is None ==> marker_at(p@, i as int) is None,
{
    let https = slice_bytes("https://");
    let http = slice_bytes("http://");
    let file = slice_bytes("file://");
    let www = slice_bytes("www.");
    if occurs_ci_exec(p, i, https) {
        return Some((8, false));
    }
    if occurs_ci_exec(p, i, http) {
        return Some((7, false));
    }
    if occurs_ci_exec(p, i, file) {
        return Some((7, false));
    }
    if p.len() - i >= 5 && occurs_ci_exec(p, i, www) && alnum(p[i + 4]) {
        return Some((4, true));
    }
    None
}

fn is_glued(p: &[u8], i: usize, www: bool) -> (r: bool)
    requires
        i <= p.len(),
    ensures
        r == glued(p@, i as int, www),
{
    if i == 0 {
        return false;
    }
    let prev = p[i - 1];
    if www {
        alnum(prev) || prev == 0x2e || prev == 0x40 || prev == 0x2f || prev == 0x2d
    } else {
        alnum(prev) || prev == 0x2b || prev == 0x2d || prev == 0x2e
    }
}

fn scan_run(p: &[u8], j0: usize) -> (r: usize)
    requires
        valid_utf8(p@),
        at_boundary(p@, j0 as int),
    ensures
        r == run_end(p@, j0 as int),
        at_boundary(p@, r as int),
        j0 <= r <= p.len(),
{
    let mut j = j0;
    while j < p.len() && !is_terminator(decode_at(p, j))
        invariant
            valid_utf8(p@),
            at_boundary(p@, j as int),
            j0 <= j <= p.len(),
            run_end(p@, j0 as int) == run_end(p@, j as int),
        decreases p.len() - j,
    {
        proof {
            lemma_next_char(p@, j as int);
        }
        j = j + width_of(p[j]);
    }
    j
}

fn count_in(p: &[u8], from: usize, to: usize, b: u8) -> (r: usize)
    requires
        from <= to <= p.len(),
    ensures
        r == count_byte(p@.subrange(from as int, to as int), b),
{
    let mut k = from;
    let mut n: usize = 0;
    while k < to
        invariant
            from <= k <= to <= p.len(),
            n == count_byte(p@.subrange(from as int, k as int), b),
            n <= k - from,
        decreases to - k,
    {
        proof {
            assert(p@.subrange(from as int, k + 1).drop_last() =~= p@.subrange(
                from as int,
                k as int,
            ));
        }
        if p[k] == b {
            n = n + 1;
        }
        k = k + 1;
    }
    n
}

fn trim_end(p: &[u8], start: usize, end0: usize) -> (r: usize)
    requires
        start <= end0 <= p.len(),
    ensures
        r == trimmed_end(p@, start as int, end0 as int),
        start <= r <= end0,
{
    let mut end = end0;
    loop
        invariant
            start <= end <= end0 <= p.len(),
            trimmed_end(p@, start as int, end as int) == trimmed_end(
                p@,
                start as int,
                end0 as int,
            ),
        decreases end - start,
    {
        if end <= start {
            return end;
        }
        let last = p[end - 1];
        if last == 0x2e || last == 0x2c || last == 0x3b || last == 0x3a || last == 0x21 || last
            == 0x3f || last == 0x2a {
            end = end - 1;
        } else if last == 0x29 || last == 0x5d || last == 0x7d {
            let open = if last == 0x29 {
                0x28
            } else if last == 0x5d {
                0x5b
            } else {
                0x7b
            };
            let opens = count_in(p, start, end, open);
            let closes = count_in(p, start, end, last);
            if closes > opens {
                end = end - 1;
            } else {
                return end;
            }
        } else {
            return end;
        }
    }
}

fn any_alnum(p: &[u8], from: usize, to: usize) -> (r: bool)
    requires
        to <= p.len(),
    ensures
        r == has_alnum(p@, from as int, to as int),
{
    let mut k = from;
    while k < to
        invariant
            from <= k,
            to <= p.len(),
            forall|m: int| from <= m < k ==> !is_alnum(#[trigger] p@[m]),
        decreases to - k,
    {
        if alnum(p[k]) {
            return true;
        }
        k = k + 1;
    }
    false
}

/// Percent-encode the bytes that cannot travel inside an OSC 8 payload
/// (spaces never appear here, but non-ASCII IRI characters do).
fn encode_href(href: &[u8]) -> (r: Vec<u8>)
    ensures
        r@ == percent_encode(href@, Keep::Ascii),
{
    if every_kept(href, Keep::Ascii) {
        proof {
            lemma_encode_kept(href@, Keep::Ascii);
        }
        return copy_bytes(href);
    }
    percent_encode_bytes(href, Keep::Ascii)
}

fn make_link(p: &[u8], i: usize, end: usize, www: bool) -> (l: Link)
    requires
        i <= end <= p.len(),
    ensures
        l@ == (LinkSpec {
            start: i as int,
            end: end as int,
            kind: Kind::Url,
            href: url_href(p@.subrange(i as int, end as int), www),
        }),
{
    let mut text: Vec<u8> = Vec::new();
    if www {
        push_str(&mut text, "https://");
    }
    push_range(&mut text, p, i, end);
    proof {
        if www {
            assert(text@ =~= str_bytes("https://") + p@.subrange(i as int, end as int));
        } else {
            assert(text@ =~= p@.subrange(i as int, end as int));
        }
    }
    let href = encode_href(text.as_slice());
    proof {
        lemma_encode_ascii(text@);
        lemma_ascii_valid(href@);
    }
    Link { start: i, end, kind: Kind::Url, href: bytes_to_string(href) }
}

pub(crate) fn find_in(p: &[u8]) -> (out: Vec<Link>)
    requires
        valid_utf8(p@),
    ensures
        links_view(out@) == url_links(p@),
{
    let mut out: Vec<Link> = Vec::new();
    let mut i: usize = 0;
    proof {
        lemma_boundary_at_zero(p@);
    }
    while i < p.len()
        invariant
            valid_utf8(p@),
            at_boundary(p@, i as int),
            url_links(p@) == links_view(out@) + urls_from(p@, i as int),
        decreases p.len() - i,
    {
        proof {
            lemma_next_char(p@, i as int);
        }
        let hit = match_start(p, i);
        if hit.is_none() {
            i = i + width_of(p[i]);
            continue;
        }
        let (skip, www) = hit.unwrap();
        if is_glued(p, i, www) {
            i = i + width_of(p[i]);
            continue;
        }
        proof {
            lemma_marker_boundary(p@, i as int);
        }
        let run = scan_run(p, i + skip);
        let end = trim_end(p, i, run);
        if end >= i + skip && any_alnum(p, i + skip, end) {
            let link = make_link(p, i, end, www);
            proof {
                lemma_trim_boundary(p@, i as int, run as int);
                assert(links_view(out@.push(link)) =~= links_view(out@) + seq![link@]);
            }
            out.push(link);
            i = end;
        } else {
            proof {
                if end < i + skip {
                    assert(!has_alnum(p@, i + skip, end as int));
                }
            }
            i = i + skip;
        }
    }
    proof {
        assert(links_view(out@) + Seq::<LinkSpec>::empty() =~= links_view(out@));
    }
    out
}

proof fn lemma_boundary_at_zero(p: Seq<u8>)
    requires
        valid_utf8(p),
    ensures
        at_boundary(p, 0),
{
    if p.len() > 0 {
        assert(valid_first_scalar(p));
    }
}

/// A marker is ASCII, so the byte after it is a boundary.
proof fn lemma_marker_boundary(p: Seq<u8>, i: int)
    requires
        valid_utf8(p),
        0 <= i < p.len(),
        marker_at(p, i) is Some,
    ensures
        at_boundary(p, i + marker_at(p, i).unwrap().0),
{
    let (skip, www) = marker_at(p, i).unwrap();
    reveal_strlit("https://");
    reveal_strlit("http://");
    reveal_strlit("file://");
    reveal_strlit("www.");
    is_ascii_chars_encode_utf8("https://"@);
    is_ascii_chars_encode_utf8("http://"@);
    is_ascii_chars_encode_utf8("file://"@);
    is_ascii_chars_encode_utf8("www."@);
    // the last marker byte is '/' or '.', matched case-insensitively
    let last = p[i + skip - 1];
    if www {
        assert(lower(p[i + 3]) == lower(str_bytes("www.")[3]));
    } else if occurs_ci(p, i, str_bytes("https://")) {
        assert(lower(p[i + 7]) == lower(str_bytes("https://")[7]));
    } else if occurs_ci(p, i, str_bytes("http://")) {
        assert(lower(p[i + 6]) == lower(str_bytes("http://")[6]));
    } else {
        assert(lower(p[i + 6]) == lower(str_bytes("file://")[6]));
    }
    assert(is_ascii_byte(last));
    lemma_after_ascii(p, i + skip);
}

/// A trimmed end is a boundary: trimming only removes ASCII bytes.
proof fn lemma_trim_boundary(p: Seq<u8>, i: int, e: int)
    requires
        0 <= i,
        at_boundary(p, e),
    ensures
        at_boundary(p, trimmed_end(p, i, e)),
    decreases e - i,
{
    if e > i {
        let last = p[e - 1];
        if is_prose_punct(last) || (is_closer(last) && count_byte(p.subrange(i, e), last)
            > count_byte(p.subrange(i, e), opener(last))) {
            lemma_trim_boundary(p, i, e - 1);
        }
    }
}

proof fn lemma_run_end(p: Seq<u8>, j: int)
    requires
        valid_utf8(p),
        at_boundary(p, j),
    ensures
        j <= run_end(p, j) <= p.len(),
        at_boundary(p, run_end(p, j)),
    decreases p.len() + 4 - j,
{
    if j < p.len() && !is_terminator_code(code_at(p, j)) {
        lemma_next_char(p, j);
        lemma_run_end(p, j + char_width(p[j]));
    }
}

proof fn lemma_trim_le(p: Seq<u8>, i: int, e: int)
    ensures
        trimmed_end(p, i, e) <= e,
    decreases e - i,
{
    if e > i {
        let last = p[e - 1];
        if is_prose_punct(last) || (is_closer(last) && count_byte(p.subrange(i, e), last)
            > count_byte(p.subrange(i, e), opener(last))) {
            lemma_trim_le(p, i, e - 1);
        }
    }
}

/// The URL links of valid text fit it.
pub proof fn lemma_url_links_fit(p: Seq<u8>, i: int)
    requires
        valid_utf8(p),
        at_boundary(p, i),
    ensures
        all_fit(p, urls_from(p, i)),
    decreases p.len() + 4 - i,
{
    if 0 <= i < p.len() {
        lemma_next_char(p, i);
        match marker_at(p, i) {
            None => lemma_url_links_fit(p, i + char_width(p[i])),
            Some((skip, www)) => if glued(p, i, www) {
                lemma_url_links_fit(p, i + char_width(p[i]))
            } else {
                lemma_marker_boundary(p, i);
                lemma_marker_lengths();
                let run = run_end(p, i + skip);
                lemma_run_end(p, i + skip);
                let end = trimmed_end(p, i, run);
                lemma_trim_boundary(p, i, run);
                lemma_trim_le(p, i, run);
                if has_alnum(p, i + skip, end) && end <= p.len() {
                    lemma_url_links_fit(p, end);
                    let rest = urls_from(p, end);
                    let l = LinkSpec {
                        start: i,
                        end,
                        kind: Kind::Url,
                        href: url_href(p.subrange(i, end), www),
                    };
                    let r = seq![l] + rest;
                    assert(link_fits(p, l));
                    assert forall|k: int| 0 <= k < r.len() implies link_fits(p, #[trigger] r[k]) by {
                        if k > 0 {
                            assert(r[k] == rest[k - 1]);
                        }
                    }
                } else {
                    lemma_url_links_fit(p, i + skip);
                }
            },
        }
    }
}

/// The characters that end URLs: white space, control characters, `<`,
/// `>`, `"`, `'`, backtick and `|`.
pub open spec fn url_stop(c: u32) -> bool {
    is_space_code(c) || is_control_code(c) || c == 0x3c || c == 0x3e || c == 0x22 || c == 0x27
        || c == 0x60 || c == 0x7c
}

/// No character that starts in `[from, to)` ends a URL span.
pub open spec fn no_terminator_in(p: Seq<u8>, from: int, to: int) -> bool {
    forall|x: int| from <= x < to && at_boundary(p, x) ==> !url_stop(#[trigger] code_at(p, x))
}

proof fn lemma_ascii_code(p: Seq<u8>, x: int)
    requires
        0 <= x < p.len(),
        p[x] <= 0x7f,
    ensures
        code_at(p, x) == p[x] as u32,
{
    let b = p[x];
    assert(p.subrange(x, p.len() as int)[0] == b);
    assert((b & 0x7f) == b) by (bit_vector)
        requires
            b <= 0x7f,
    ;
}

proof fn lemma_run_clean(p: Seq<u8>, j: int)
    requires
        valid_utf8(p),
        at_boundary(p, j),
    ensures
        no_terminator_in(p, j, run_end(p, j)),
    decreases p.len() + 4 - j,
{
    if j < p.len() && !is_terminator_code(code_at(p, j)) {
        lemma_next_char(p, j);
        let w = char_width(p[j]);
        lemma_run_clean(p, j + w);
        assert forall|x: int| j <= x < run_end(p, j) && at_boundary(p, x) implies !is_terminator_code(
            #[trigger] code_at(p, x),
        ) by {
            if j < x < j + w {
                assert(is_continuation_byte(p[x]));
            }
        }
    }
}

/// The bytes of a URL marker are letters, `:`, `/` or `.`.
proof fn lemma_marker_clean(p: Seq<u8>, i: int)
    requires
        0 <= i < p.len(),
        marker_at(p, i) is Some,
    ensures
        forall|x: int|
            i <= x < i + marker_at(p, i).unwrap().0 ==> is_alpha(#[trigger] p[x]) || p[x] == 0x3a
                || p[x] == 0x2f || p[x] == 0x2e,
{
    reveal_strlit("https://");
    reveal_strlit("http://");
    reveal_strlit("file://");
    reveal_strlit("www.");
    is_ascii_chars_encode_utf8("https://"@);
    is_ascii_chars_encode_utf8("http://"@);
    is_ascii_chars_encode_utf8("file://"@);
    is_ascii_chars_encode_utf8("www."@);
    let (skip, www) = marker_at(p, i).unwrap();
    let pat = if occurs_ci(p, i, str_bytes("https://")) {
        str_bytes("https://")
    } else if occurs_ci(p, i, str_bytes("http://")) {
        str_bytes("http://")
    } else if occurs_ci(p, i, str_bytes("file://")) {
        str_bytes("file://")
    } else {
        str_bytes("www.")
    };
    assert(pat.len() == skip);
    assert(occurs_ci(p, i, pat));
    assert forall|x: int| i <= x < i + skip implies is_alpha(#[trigger] p[x]) || p[x] == 0x3a
        || p[x] == 0x2f || p[x] == 0x2e by {
        assert(lower(p[i + (x - i)]) == lower(pat[x - i]));
        let c = pat[x - i];
        assert(is_lower(c) || c == 0x3a || c == 0x2f || c == 0x2e);
    }
}

proof fn lemma_urls_shape(p: Seq<u8>, i: int)
    requires
        valid_utf8(p),
        at_boundary(p, i),
    ensures
        forall|k: int|
            0 <= k < urls_from(p, i).len() ==> {
                let l = #[trigger] urls_from(p, i)[k];
                &&& i <= l.start < l.end
                &&& l.kind == Kind::Url
                &&& no_terminator_in(p, l.start, l.end)
                &&& all_ascii(l.href)
            },
        in_order(urls_from(p, i)),
    decreases p.len() + 4 - i,
{
    if 0 <= i < p.len() {
        lemma_next_char(p, i);
        match marker_at(p, i) {
            None => lemma_urls_shape(p, i + char_width(p[i])),
            Some((skip, www)) => if glued(p, i, www) {
                lemma_urls_shape(p, i + char_width(p[i]))
            } else {
                lemma_marker_boundary(p, i);
                lemma_marker_lengths();
                let run = run_end(p, i + skip);
                lemma_run_end(p, i + skip);
                let end = trimmed_end(p, i, run);
                lemma_trim_boundary(p, i, run);
                lemma_trim_le(p, i, run);
                if has_alnum(p, i + skip, end) && end <= p.len() {
                    lemma_urls_shape(p, end);
                    let rest = urls_from(p, end);
                    let text = p.subrange(i, end);
                    let l = LinkSpec {
                        start: i,
                        end,
                        kind: Kind::Url,
                        href: url_href(text, www),
                    };
                    let r = seq![l] + rest;
                    lemma_run_clean(p, i + skip);
                    lemma_marker_clean(p, i);
                    lemma_encode_ascii(if www {
                        str_bytes("https://") + text
                    } else {
                        text
                    });
                    assert(no_terminator_in(p, i, end)) by {
                        assert forall|x: int| i <= x < end && at_boundary(p, x) implies !is_terminator_code(
                            #[trigger] code_at(p, x),
                        ) by {
                            if x < i + skip {
                                lemma_ascii_code(p, x);
                            }
                        }
                    }
                    assert forall|k: int| 0 <= k < r.len() implies {
                        let m = #[trigger] r[k];
                        &&& i <= m.start < m.end
                        &&& m.kind == Kind::Url
                        &&& no_terminator_in(p, m.start, m.end)
                        &&& all_ascii(m.href)
                    } by {
                        if k > 0 {
                            assert(r[k] == rest[k - 1]);
                        }
                    }
                    assert forall|a: int, b: int| 0 <= a < b < r.len() implies (#[trigger] r[a]).end
                        <= (#[trigger] r[b]).start by {
                        assert(r[b] == rest[b - 1]);
                        if a > 0 {
                            assert(r[a] == rest[a - 1]);
                        }
                    }
                } else {
                    lemma_urls_shape(p, i + skip);
                }
            },
        }
    }
}

proof fn lemma_run_end_stops(p: Seq<u8>, j: int)
    requires
        valid_utf8(p),
        at_boundary(p, j),
    ensures
        run_end(p, j) < p.len() ==> is_terminator_code(code_at(p, run_end(p, j))),
    decreases p.len() + 4 - j,
{
    if 0 <= j < p.len() && !is_terminator_code(code_at(p, j)) {
        lemma_next_char(p, j);
        lemma_run_end_stops(p, j + char_width(p[j]));
    }
}

/// The byte right after a URL span: the end of the text, a character
/// that ends URLs (white space, a control character, `<`, `>`, `"`, `'`,
/// backtick, `|`), or trailing prose punctuation or a closing bracket that
/// was trimmed off.
pub open spec fn url_delimited(p: Seq<u8>, end: int) -> bool {
    ||| end == p.len()
    ||| url_stop(code_at(p, end))
    ||| is_prose_punct(p[end])
    ||| is_closer(p[end])
}

proof fn lemma_urls_delimited(p: Seq<u8>, i: int)
    requires
        valid_utf8(p),
        at_boundary(p, i),
    ensures
        forall|k: int|
            0 <= k < urls_from(p, i).len() ==> url_delimited(p, (#[trigger] urls_from(p, i)[k]).end),
    decreases p.len() + 4 - i,
{
    if 0 <= i < p.len() {
        lemma_next_char(p, i);
        match marker_at(p, i) {
            None => lemma_urls_delimited(p, i + char_width(p[i])),
            Some((skip, www)) => if glued(p, i, www) {
                lemma_urls_delimited(p, i + char_width(p[i]))
            } else {
                lemma_marker_boundary(p, i);
                lemma_marker_lengths();
                let run = run_end(p, i + skip);
                lemma_run_end(p, i + skip);
                let end = trimmed_end(p, i, run);
                lemma_trim_boundary(p, i, run);
                lemma_trim_le(p, i, run);
                if has_alnum(p, i + skip, end) && end <= p.len() {
                    lemma_urls_delimited(p, end);
                    let rest = urls_from(p, end);
                    let l = LinkSpec {
                        start: i,
                        end,
                        kind: Kind::Url,
                        href: url_href(p.subrange(i, end), www),
                    };
                    let r = seq![l] + rest;
                    assert(url_delimited(p, end)) by {
                        if end < run {
                            trimming_removes_only_punctuation(p, i, run);
                        } else {
                            lemma_run_end_stops(p, i + skip);
                        }
                    }
                    assert forall|k: int| 0 <= k < r.len() implies url_delimited(
                        p,
                        (#[trigger] r[k]).end,
                    ) by {
                        if k > 0 {
                            assert(r[k] == rest[k - 1]);
                        }
                    }
                } else {
                    lemma_urls_delimited(p, i + skip);
                }
            },
        }
    }
}

/// Law: a URL link runs as far as it can: the byte right after it ends
/// the text, is a character that ends URLs (white space, a control
/// character, `<`, `>`, `"`, `'`, backtick or `|`), or is trailing
/// punctuation or a closer that was trimmed off. Every other byte,
/// such as `%`, stays inside.
pub proof fn url_links_run_to_a_delimiter(p: Seq<u8>)
    requires
        valid_utf8(p),
    ensures
        forall|k: int| 0 <= k < url_links(p).len() ==> url_delimited(p, (#[trigger] url_links(p)[k]).end),
{
    lemma_boundary_at_zero(p);
    lemma_urls_delimited(p, 0);
}

/// The target a URL text gets: `https://` in front of a `www.` text (in
/// any case), then non-ASCII bytes percent-encoded.
pub open spec fn url_target(text: Seq<u8>) -> Seq<u8> {
    percent_encode(
        if occurs_ci(text, 0, str_bytes("www.")) {
            str_bytes("https://") + text
        } else {
            text
        },
        Keep::Ascii,
    )
}

proof fn lemma_marker_www(p: Seq<u8>, i: int, end: int)
    requires
        0 <= i < p.len(),
        marker_at(p, i) is Some,
        i + marker_at(p, i).unwrap().0 <= end <= p.len(),
    ensures
        marker_at(p, i).unwrap().1 == occurs_ci(p.subrange(i, end), 0, str_bytes("www.")),
{
    reveal_strlit("https://");
    reveal_strlit("http://");
    reveal_strlit("file://");
    reveal_strlit("www.");
    is_ascii_chars_encode_utf8("https://"@);
    is_ascii_chars_encode_utf8("http://"@);
    is_ascii_chars_encode_utf8("file://"@);
    is_ascii_chars_encode_utf8("www."@);
    let t = p.subrange(i, end);
    let w = str_bytes("www.");
    let (skip, www) = marker_at(p, i).unwrap();
    if www {
        assert forall|k: int| 0 <= k < w.len() implies lower(#[trigger] t[0 + k]) == lower(w[k]) by {
            assert(t[k] == p[i + k]);
        }
    } else {
        assert(lower(p[i + 0]) == 0x68 || lower(p[i + 0]) == 0x66) by {
            if occurs_ci(p, i, str_bytes("https://")) {
                assert(lower(p[i + 0]) == lower(str_bytes("https://")[0]));
            } else if occurs_ci(p, i, str_bytes("http://")) {
                assert(lower(p[i + 0]) == lower(str_bytes("http://")[0]));
            } else {
                assert(lower(p[i + 0]) == lower(str_bytes("file://")[0]));
            }
        }
        if occurs_ci(t, 0, w) {
            assert(lower(t[0int + 0int]) == lower(w[0]));
            assert(t[0] == p[i]);
        }
    }
}

proof fn lemma_urls_target(p: Seq<u8>, i: int)
    requires
        valid_utf8(p),
        at_boundary(p, i),
    ensures
        forall|k: int|
            0 <= k < urls_from(p, i).len() ==> (#[trigger] urls_from(p, i)[k]).href == url_target(
                p.subrange(urls_from(p, i)[k].start, urls_from(p, i)[k].end),
            ),
    decreases p.len() + 4 - i,
{
    if 0 <= i < p.len() {
        lemma_next_char(p, i);
        match marker_at(p, i) {
            None => lemma_urls_target(p, i + char_width(p[i])),
            Some((skip, www)) => if glued(p, i, www) {
                lemma_urls_target(p, i + char_width(p[i]))
            } else {
                lemma_marker_boundary(p, i);
                lemma_marker_lengths();
                let run = run_end(p, i + skip);
                lemma_run_end(p, i + skip);
                let end = trimmed_end(p, i, run);
                lemma_trim_boundary(p, i, run);
                lemma_trim_le(p, i, run);
                if has_alnum(p, i + skip, end) && end <= p.len() {
                    lemma_urls_target(p, end);
                    let rest = urls_from(p, end);
                    let text = p.subrange(i, end);
                    let l = LinkSpec { start: i, end, kind: Kind::Url, href: url_href(text, www) };
                    lemma_marker_www(p, i, end);
                    let r = seq![l] + rest;
                    assert forall|k: int| 0 <= k < r.len() implies (#[trigger] r[k]).href
                        == url_target(p.subrange(r[k].start, r[k].end)) by {
                        if k > 0 {
                            assert(r[k] == rest[k - 1]);
                        }
                    }
                } else {
                    lemma_urls_target(p, i + skip);
                }
            },
        }
    }
}

/// Law: a URL link's target is its text, with `https://` in front of a
/// `www.` text, and non-ASCII bytes percent-encoded.
pub proof fn url_links_target_their_text(p: Seq<u8>)
    requires
        valid_utf8(p),
    ensures
        forall|k: int|
            0 <= k < url_links(p).len() ==> (#[trigger] url_links(p)[k]).href == url_target(
                p.subrange(url_links(p)[k].start, url_links(p)[k].end),
            ),
{
    lemma_boundary_at_zero(p);
    lemma_urls_target(p, 0);
}

/// Law: the URL links of valid text come in order without overlapping;
/// each is a URL link holding no white space, control character, `<`,
/// `>`, quote, backtick or `|`, and its target is ASCII.
pub proof fn url_links_shape(p: Seq<u8>)
    requires
        valid_utf8(p),
    ensures
        in_order(url_links(p)),
        forall|k: int|
            0 <= k < url_links(p).len() ==> {
                let l = #[trigger] url_links(p)[k];
                &&& l.start < l.end
                &&& l.kind == Kind::Url
                &&& no_terminator_in(p, l.start, l.end)
                &&& all_ascii(l.href)
            },
{
    lemma_boundary_at_zero(p);
    lemma_urls_shape(p, 0);
}

/// Find all URL links in `plain`.
pub fn find(plain: &str) -> (r: Vec<Link>)
    ensures
        links_view(r@) == url_links(str_bytes(plain)),
{
    find_in(slice_bytes(plain))
}

} // verus!
