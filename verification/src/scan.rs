//! Detection orchestrator: runs the URL, file-path and issue-ID detectors
//! over the visible text of one line, then resolves overlaps so the output
//! never contains nested or interleaved hyperlinks.
//!
//! Overlap policy: leftmost span wins; at the same start the longest span
//! wins (so `owner/repo#123` beats the `owner/repo` path candidate); at the
//! same start and length, URLs beat paths beat issues.
use crate::issues::{issue_links, refs_well_sliced};
use crate::paths::path_links;
use crate::text::{at_boundary, slice_bytes, str_bytes, string_bytes, to_owned_string};
use crate::uri::Editor;
use crate::urls::url_links;
use crate::{issues, paths, urls};
use vstd::prelude::*;

verus! {

/// What kind of thing a link points at (also the `--dump` label).
#[derive(Debug, Clone, Copy, PartialEq, Eq, Structural)]
pub enum Kind {
    Url,
    Path,
    Issue,
}

/// Tie-break rank at equal spans: URLs first, then paths, then issues.
pub open spec fn rank(k: Kind) -> int {
    match k {
        Kind::Url => 0,
        Kind::Path => 1,
        Kind::Issue => 2,
    }
}

impl Kind {
    /// The `--dump` label of this kind.
    pub fn label(self) -> (r: &'static str)
        ensures
            r@ == match self {
                Kind::Url => "url"@,
                Kind::Path => "path"@,
                Kind::Issue => "issue"@,
            },
    {
        match self {
            Kind::Url => "url",
            Kind::Path => "path",
            Kind::Issue => "issue",
        }
    }

    pub fn priority(self) -> (r: u8)
        ensures
            r == rank(self),
    {
        match self {
            Kind::Url => 0,
            Kind::Path => 1,
            Kind::Issue => 2,
        }
    }
}

/// One detected link: a byte span in the plain text plus its target.
#[derive(Debug, Clone, PartialEq, Eq)]
pub struct Link {
    pub start: usize,
    pub end: usize,
    pub kind: Kind,
    pub href: String,
}

/// The mathematical value of a link.
pub struct LinkSpec {
    pub start: int,
    pub end: int,
    pub kind: Kind,
    pub href: Seq<u8>,
}

impl View for Link {
    type V = LinkSpec;

    open spec fn view(&self) -> LinkSpec {
        LinkSpec {
            start: self.start as int,
            end: self.end as int,
            kind: self.kind,
            href: string_bytes(self.href),
        }
    }
}

/// The values of a list of links.
pub open spec fn links_view(v: Seq<Link>) -> Seq<LinkSpec> {
    v.map_values(|l: Link| l@)
}

/// Detection settings, fully explicit so tests are deterministic.
#[derive(Debug, Clone)]
pub struct Options {
    /// Enable the file-path detector.
    pub files: bool,
    /// Enable the URL detector.
    pub urls: bool,
    /// Enable the issue-ID detector.
    pub issues: bool,
    /// Require path candidates to exist on disk (kills false positives;
    /// `--no-check` disables it for logs produced on another machine).
    pub check: bool,
    /// Base directory for resolving relative paths.
    pub cwd: String,
    /// Home directory for `~/` expansion (None disables it).
    pub home: Option<String>,
    /// Hostname embedded in `file://` URIs ("" for the bare form).
    pub host: String,
    /// Where file links open; None means plain `file://` URIs.
    pub editor: Option<Editor>,
    /// Template with `{id}` for bare `#123` references; None disables them.
    pub issue_template: Option<String>,
    /// Base URL for `owner/repo#123` cross-repo references.
    pub forge: String,
    /// Base URL that turns `KEY-123` into `<base>/browse/KEY-123`; opt-in.
    pub jira: Option<String>,
}

impl Default for Options {
    fn default() -> (o: Options)
        ensures
            o.files && o.urls && o.issues && o.check,
            string_bytes(o.cwd) == crate::text::str_bytes("."),
            o.home is None,
            string_bytes(o.host) == Seq::<u8>::empty(),
            o.editor is None,
            o.issue_template is None,
            string_bytes(o.forge) == crate::text::str_bytes("https://github.com"),
            o.jira is None,
    {
        let host = to_owned_string("");
        proof {
            reveal_strlit("");
        }
        Options {
            files: true,
            urls: true,
            issues: true,
            check: true,
            cwd: to_owned_string("."),
            home: None,
            host,
            editor: None,
            issue_template: None,
            forge: to_owned_string("https://github.com"),
            jira: None,
        }
    }
}

// ---------------------------------------------------------------------------
// Overlap resolution
// ---------------------------------------------------------------------------

/// `a` goes before `b`: further left, or longer at the same start, or of a
/// preferred kind at the same span.
pub open spec fn before(a: LinkSpec, b: LinkSpec) -> bool {
    a.start < b.start || (a.start == b.start && (a.end > b.end || (a.end == b.end && rank(a.kind)
        < rank(b.kind))))
}

/// Where a stable insertion puts `x` into the ordered `s`: after every
/// element it does not go before.
pub open spec fn insert_pos(s: Seq<LinkSpec>, x: LinkSpec) -> int
    decreases s.len(),
{
    if s.len() == 0 {
        0
    } else if before(x, s.last()) {
        insert_pos(s.drop_last(), x)
    } else {
        s.len() as int
    }
}

/// Stable sort by [`before`] (the order `sort_by` produces).
pub open spec fn sort_links(s: Seq<LinkSpec>) -> Seq<LinkSpec>
    decreases s.len(),
{
    if s.len() == 0 {
        Seq::empty()
    } else {
        let t = sort_links(s.drop_last());
        t.insert(insert_pos(t, s.last()), s.last())
    }
}

/// Keep each link that starts at or after the end of the last kept one.
pub open spec fn keep_leftmost(s: Seq<LinkSpec>) -> Seq<LinkSpec>
    decreases s.len(),
{
    if s.len() == 0 {
        Seq::empty()
    } else {
        let g = keep_leftmost(s.drop_last());
        if g.len() == 0 || s.last().start >= g.last().end {
            g.push(s.last())
        } else {
            g
        }
    }
}

/// The winners among overlapping candidates.
pub open spec fn resolved(c: Seq<LinkSpec>) -> Seq<LinkSpec> {
    keep_leftmost(sort_links(c))
}

fn goes_before(a: &Link, b: &Link) -> (r: bool)
    ensures
        r == before(a@, b@),
{
    a.start < b.start || (a.start == b.start && (a.end > b.end || (a.end == b.end
        && a.kind.priority() < b.kind.priority())))
}

proof fn lemma_view_tail(s: Seq<Link>)
    requires
        s.len() > 0,
    ensures
        links_view(s.subrange(1, s.len() as int)) == links_view(s).subrange(1, s.len() as int),
{
    assert(links_view(s.subrange(1, s.len() as int)) =~= links_view(s).subrange(
        1,
        s.len() as int,
    ));
}

proof fn lemma_insert_pos(s: Seq<LinkSpec>, x: LinkSpec)
    ensures
        0 <= insert_pos(s, x) <= s.len(),
    decreases s.len(),
{
    if s.len() > 0 && before(x, s.last()) {
        lemma_insert_pos(s.drop_last(), x);
    }
}

/// Sort candidates leftmost-longest and drop everything that overlaps an
/// earlier winner.
pub fn resolve(candidates: Vec<Link>) -> (r: Vec<Link>)
    ensures
        links_view(r@) == resolved(links_view(candidates@)),
{
    let ghost c0 = links_view(candidates@);
    assert(c0.len() == candidates.len());
    let mut rest = candidates;
    let mut sorted: Vec<Link> = Vec::new();
    let mut k: usize = 0;
    proof {
        assert(c0.take(0) =~= Seq::<LinkSpec>::empty());
        assert(links_view(sorted@) =~= sort_links(c0.take(0)));
        assert(links_view(rest@) =~= c0.skip(0));
    }
    while rest.len() > 0
        invariant
            k <= c0.len(),
            c0.len() <= usize::MAX,
            links_view(sorted@) == sort_links(c0.take(k as int)),
            links_view(rest@) == c0.skip(k as int),
        decreases rest.len(),
    {
        let ghost before_rest = links_view(rest@);
        let ghost rest_seq = rest@;
        let x = rest.remove(0);
        let ghost sv = links_view(sorted@);
        proof {
            assert(before_rest.len() > 0);
            assert(k < c0.len());
            assert(before_rest[0] == x@);
            assert(c0.skip(k as int)[0] == c0[k as int]);
        }
        let mut pos = sorted.len();
        proof {
            lemma_insert_pos(sv, x@);
            assert(sv.take(pos as int) =~= sv);
        }
        while pos > 0 && goes_before(&x, &sorted[pos - 1])
            invariant
                pos <= sorted.len(),
                sv == links_view(sorted@),
                insert_pos(sv, x@) == insert_pos(sv.take(pos as int), x@),
                forall|m: int| pos <= m < sv.len() ==> before(x@, #[trigger] sv[m]),
            decreases pos,
        {
            proof {
                assert(sv.take(pos as int).drop_last() =~= sv.take(pos - 1));
                assert(sv.take(pos as int).last() == sv[pos - 1]);
            }
            pos = pos - 1;
        }
        proof {
            if pos > 0 {
                assert(sv.take(pos as int).last() == sv[pos - 1]);
            }
            assert(insert_pos(sv.take(pos as int), x@) == pos);
        }
        sorted.insert(pos, x);
        proof {
            assert(c0.take(k + 1).drop_last() =~= c0.take(k as int));
            assert(c0.take(k + 1).last() == c0[k as int]);
            assert(links_view(sorted@) =~= sv.insert(pos as int, x@));
            assert(rest@ =~= rest_seq.subrange(1, rest_seq.len() as int));
            lemma_view_tail(rest_seq);
            assert(links_view(rest@) =~= c0.skip(k + 1));
        }
        k = k + 1;
    }
    proof {
        assert(c0.skip(k as int).len() == 0);
        assert(c0.take(k as int) =~= c0);
    }
    let ghost so = links_view(sorted@);
    assert(so.len() == sorted.len());
    let mut out: Vec<Link> = Vec::with_capacity(sorted.len());
    let mut j: usize = 0;
    proof {
        assert(so.take(0) =~= Seq::<LinkSpec>::empty());
        assert(links_view(out@) =~= keep_leftmost(so.take(0)));
        assert(links_view(sorted@) =~= so.skip(0));
    }
    while sorted.len() > 0
        invariant
            j <= so.len(),
            so.len() <= usize::MAX,
            links_view(out@) == keep_leftmost(so.take(j as int)),
            links_view(sorted@) == so.skip(j as int),
        decreases sorted.len(),
    {
        let ghost before_sorted = links_view(sorted@);
        let ghost sorted_seq = sorted@;
        let c = sorted.remove(0);
        proof {
            assert(before_sorted.len() > 0);
            assert(j < so.len());
            assert(before_sorted[0] == c@);
            assert(so.skip(j as int)[0] == so[j as int]);
            assert(so.take(j + 1).drop_last() =~= so.take(j as int));
            assert(so.take(j + 1).last() == so[j as int]);
        }
        let keep = out.len() == 0 || c.start >= out[out.len() - 1].end;
        if keep {
            let ghost ov = links_view(out@);
            out.push(c);
            proof {
                assert(links_view(out@) =~= ov.push(c@));
            }
        }
        proof {
            assert(sorted@ =~= sorted_seq.subrange(1, sorted_seq.len() as int));
            lemma_view_tail(sorted_seq);
            assert(links_view(sorted@) =~= so.skip(j + 1));
        }
        j = j + 1;
    }
    proof {
        assert(so.take(j as int) =~= so);
    }
    out
}

// ---------------------------------------------------------------------------
// Shape of a link list
// ---------------------------------------------------------------------------

/// `l` fits the text `p`: a non-empty span between character boundaries.
pub open spec fn link_fits(p: Seq<u8>, l: LinkSpec) -> bool {
    &&& l.start < l.end
    &&& at_boundary(p, l.start)
    &&& at_boundary(p, l.end)
}

/// Every link fits the text `p`.
pub open spec fn all_fit(p: Seq<u8>, ls: Seq<LinkSpec>) -> bool {
    forall|k: int| 0 <= k < ls.len() ==> link_fits(p, #[trigger] ls[k])
}

/// Each link ends before the next one starts.
pub open spec fn in_order(ls: Seq<LinkSpec>) -> bool {
    forall|i: int, j: int| 0 <= i < j < ls.len() ==> (#[trigger] ls[i]).end <= (#[trigger] ls[j]).start
}

/// Every link of `ls` is one of `c`.
pub open spec fn drawn_from(ls: Seq<LinkSpec>, c: Seq<LinkSpec>) -> bool {
    forall|k: int| 0 <= k < ls.len() ==> c.contains(#[trigger] ls[k])
}

proof fn lemma_sort_contents(s: Seq<LinkSpec>)
    ensures
        sort_links(s).len() == s.len(),
        drawn_from(sort_links(s), s),
        drawn_from(s, sort_links(s)),
    decreases s.len(),
{
    if s.len() > 0 {
        let t = sort_links(s.drop_last());
        lemma_sort_contents(s.drop_last());
        lemma_insert_pos(t, s.last());
        let pos = insert_pos(t, s.last());
        let r = t.insert(pos, s.last());
        assert forall|k: int| 0 <= k < r.len() implies s.contains(#[trigger] r[k]) by {
            if k < pos {
                assert(r[k] == t[k]);
                assert(s.drop_last().contains(t[k]));
                let m = choose|m: int| 0 <= m < s.drop_last().len() && s.drop_last()[m] == t[k];
                assert(s[m] == t[k]);
            } else if k == pos {
                assert(s[s.len() - 1] == r[k]);
            } else {
                assert(r[k] == t[k - 1]);
                assert(s.drop_last().contains(t[k - 1]));
                let m = choose|m: int|
                    0 <= m < s.drop_last().len() && s.drop_last()[m] == t[k - 1];
                assert(s[m] == t[k - 1]);
            }
        }
        assert forall|k: int| 0 <= k < s.len() implies r.contains(#[trigger] s[k]) by {
            if k == s.len() - 1 {
                assert(r[pos] == s[k]);
            } else {
                assert(s.drop_last()[k] == s[k]);
                assert(t.contains(s[k]));
                let m = choose|m: int| 0 <= m < t.len() && t[m] == s[k];
                if m < pos {
                    assert(r[m] == s[k]);
                } else {
                    assert(r[m + 1] == s[k]);
                }
            }
        }
    }
}

proof fn lemma_keep_leftmost(s: Seq<LinkSpec>, p: Seq<u8>)
    requires
        all_fit(p, s),
    ensures
        all_fit(p, keep_leftmost(s)),
        in_order(keep_leftmost(s)),
        drawn_from(keep_leftmost(s), s),
    decreases s.len(),
{
    if s.len() > 0 {
        let d = s.drop_last();
        assert forall|k: int| 0 <= k < d.len() implies link_fits(p, #[trigger] d[k]) by {
            assert(d[k] == s[k]);
        }
        lemma_keep_leftmost(d, p);
        let g = keep_leftmost(d);
        assert forall|k: int| 0 <= k < g.len() implies s.contains(#[trigger] g[k]) by {
            assert(d.contains(g[k]));
            let m = choose|m: int| 0 <= m < d.len() && d[m] == g[k];
            assert(s[m] == g[k]);
        }
        if g.len() == 0 || s.last().start >= g.last().end {
            let r = g.push(s.last());
            assert(link_fits(p, s[s.len() - 1]));
            assert forall|i: int, j: int| 0 <= i < j < r.len() implies (#[trigger] r[i]).end <= (
            #[trigger] r[j]).start by {
                if j == r.len() - 1 {
                    assert(r[i] == g[i]);
                    if i < g.len() - 1 {
                        assert(g[i].end <= g[g.len() - 1].start);
                        assert(link_fits(p, g[g.len() - 1]));
                    }
                } else {
                    assert(r[i] == g[i]);
                    assert(r[j] == g[j]);
                }
            }
            assert forall|k: int| 0 <= k < r.len() implies s.contains(#[trigger] r[k]) by {
                if k == r.len() - 1 {
                    assert(s[s.len() - 1] == r[k]);
                } else {
                    assert(r[k] == g[k]);
                }
            }
            assert forall|k: int| 0 <= k < r.len() implies link_fits(p, #[trigger] r[k]) by {
                if k < g.len() {
                    assert(r[k] == g[k]);
                }
            }
        }
    }
}

/// Links that fit, put together, fit.
pub proof fn lemma_fit_concat(p: Seq<u8>, a: Seq<LinkSpec>, b: Seq<LinkSpec>)
    requires
        all_fit(p, a),
        all_fit(p, b),
    ensures
        all_fit(p, a + b),
{
    assert forall|k: int| 0 <= k < (a + b).len() implies link_fits(p, #[trigger] (a + b)[k]) by {
        if k < a.len() {
            assert((a + b)[k] == a[k]);
        } else {
            assert((a + b)[k] == b[k - a.len()]);
        }
    }
}

proof fn lemma_insert_pos_split(s: Seq<LinkSpec>, x: LinkSpec)
    ensures
        forall|m: int| insert_pos(s, x) <= m < s.len() ==> before(x, #[trigger] s[m]),
        insert_pos(s, x) > 0 ==> !before(x, s[insert_pos(s, x) - 1]),
    decreases s.len(),
{
    if s.len() > 0 && before(x, s.last()) {
        let d = s.drop_last();
        lemma_insert_pos_split(d, x);
        lemma_insert_pos(d, x);
        assert forall|m: int| insert_pos(s, x) <= m < s.len() implies before(x, #[trigger] s[m]) by {
            if m < d.len() {
                assert(d[m] == s[m]);
            }
        }
        if insert_pos(s, x) > 0 {
            assert(d[insert_pos(s, x) - 1] == s[insert_pos(s, x) - 1]);
        }
    }
}

proof fn lemma_keep_covers(s: Seq<LinkSpec>, p: Seq<u8>)
    requires
        all_fit(p, s),
        in_before_order(s),
    ensures
        keep_leftmost(s).len() <= s.len(),
        forall|m: int|
            0 <= m < s.len() ==> keep_leftmost(s).contains(#[trigger] s[m]) || exists|j: int|
                0 <= j < keep_leftmost(s).len() && overlaps(
                    keep_leftmost(s)[j],
                    s[m].start,
                    s[m].end,
                ) && !before(s[m], keep_leftmost(s)[j]),
    decreases s.len(),
{
    if s.len() > 0 {
        let d = s.drop_last();
        assert forall|k: int| 0 <= k < d.len() implies link_fits(p, #[trigger] d[k]) by {
            assert(d[k] == s[k]);
        }
        assert forall|i: int, j: int| 0 <= i < j < d.len() implies !before(
            #[trigger] d[j],
            #[trigger] d[i],
        ) by {
            assert(d[i] == s[i] && d[j] == s[j]);
        }
        lemma_keep_covers(d, p);
        lemma_keep_leftmost(d, p);
        let g = keep_leftmost(d);
        let r = keep_leftmost(s);
        assert forall|k: int| 0 <= k < g.len() implies r[k] == g[k] by {}
        assert forall|m: int| 0 <= m < s.len() implies r.contains(#[trigger] s[m]) || exists|j: int|
            0 <= j < r.len() && overlaps(r[j], s[m].start, s[m].end) && !before(s[m], r[j]) by {
            if m < d.len() {
                assert(d[m] == s[m]);
                if g.contains(d[m]) {
                    let j = choose|j: int| 0 <= j < g.len() && g[j] == d[m];
                    assert(r[j] == s[m]);
                } else {
                    let j = choose|j: int|
                        0 <= j < g.len() && overlaps(g[j], d[m].start, d[m].end) && !before(
                            d[m],
                            g[j],
                        );
                    assert(r[j] == g[j]);
                }
            } else if g.len() == 0 || s.last().start >= g.last().end {
                assert(r[r.len() - 1] == s[m]);
            } else {
                let j = g.len() - 1;
                assert(d.contains(g[j]));
                let q = choose|q: int| 0 <= q < d.len() && d[q] == g[j];
                assert(s[q] == g[j]);
                assert(!before(s[m], s[q]));
                assert(s[q].start <= s[m].start);
                assert(link_fits(p, s[m]));
                assert(r[j] == g[j]);
                assert(overlaps(r[j], s[m].start, s[m].end));
            }
        }
    }
}

proof fn lemma_sort_multiset(s: Seq<LinkSpec>)
    ensures
        sort_links(s).to_multiset() == s.to_multiset(),
    decreases s.len(),
{
    if s.len() > 0 {
        let d = s.drop_last();
        lemma_sort_multiset(d);
        let t = sort_links(d);
        lemma_insert_pos(t, s.last());
        vstd::seq_lib::to_multiset_insert(t, insert_pos(t, s.last()), s.last());
        assert(s =~= d.push(s.last()));
        vstd::seq_lib::to_multiset_build(d, s.last());
        assert(sort_links(s) == t.insert(insert_pos(t, s.last()), s.last()));
    } else {
        assert(s =~= Seq::<LinkSpec>::empty());
        assert(sort_links(s) =~= s);
    }
}

proof fn lemma_keep_submultiset(s: Seq<LinkSpec>)
    ensures
        keep_leftmost(s).to_multiset().subset_of(s.to_multiset()),
    decreases s.len(),
{
    if s.len() > 0 {
        let d = s.drop_last();
        let x = s.last();
        lemma_keep_submultiset(d);
        let g = keep_leftmost(d);
        assert(s =~= d.push(x));
        vstd::seq_lib::to_multiset_build(d, x);
        if g.len() == 0 || x.start >= g.last().end {
            vstd::seq_lib::to_multiset_build(g, x);
        }
        assert forall|v: LinkSpec| #[trigger] keep_leftmost(s).to_multiset().count(v)
            <= s.to_multiset().count(v) by {
            vstd::multiset::lemma_insert_increases_count_by_1(d.to_multiset(), x);
            vstd::multiset::lemma_insert_other_elements_unchanged(d.to_multiset(), x, v);
            vstd::multiset::lemma_insert_increases_count_by_1(g.to_multiset(), x);
            vstd::multiset::lemma_insert_other_elements_unchanged(g.to_multiset(), x, v);
            assert(g.to_multiset().count(v) <= d.to_multiset().count(v));
        }
    } else {
        assert(keep_leftmost(s) =~= s);
    }
}

/// Law: the resolved links are a sub-multiset of the candidates.
pub proof fn resolve_keeps_a_sub_multiset(c: Seq<LinkSpec>)
    ensures
        resolved(c).to_multiset().subset_of(c.to_multiset()),
{
    lemma_sort_multiset(c);
    lemma_keep_submultiset(sort_links(c));
}

/// No link of `s` comes before an earlier one in the overlap order.
pub open spec fn in_before_order(s: Seq<LinkSpec>) -> bool {
    forall|i: int, j: int| 0 <= i < j < s.len() ==> !before(#[trigger] s[j], #[trigger] s[i])
}

proof fn lemma_sort_in_order(s: Seq<LinkSpec>)
    ensures
        in_before_order(sort_links(s)),
    decreases s.len(),
{
    if s.len() > 0 {
        let t = sort_links(s.drop_last());
        lemma_sort_in_order(s.drop_last());
        let x = s.last();
        lemma_insert_pos(t, x);
        lemma_insert_pos_split(t, x);
        let pos = insert_pos(t, x);
        let r = t.insert(pos, x);
        assert forall|i: int, j: int| 0 <= i < j < r.len() implies !before(
            #[trigger] r[j],
            #[trigger] r[i],
        ) by {
            if j < pos {
                assert(r[i] == t[i] && r[j] == t[j]);
            } else if j == pos {
                assert(r[i] == t[i]);
                assert(!before(x, t[pos - 1]));
                if i < pos - 1 {
                    assert(!before(t[pos - 1], t[i]));
                }
            } else if i == pos {
                assert(r[j] == t[j - 1]);
                assert(before(x, t[j - 1]));
            } else if i < pos {
                assert(r[i] == t[i] && r[j] == t[j - 1]);
            } else {
                assert(r[i] == t[i - 1] && r[j] == t[j - 1]);
            }
        }
    }
}

/// Law: the first resolved link is a candidate that no other candidate
/// comes before: leftmost, then longest, then URL before path before
/// issue.
pub proof fn resolve_starts_with_the_first_candidate(c: Seq<LinkSpec>)
    requires
        c.len() > 0,
    ensures
        resolved(c).len() > 0,
        c.contains(resolved(c)[0]),
        forall|k: int| 0 <= k < c.len() ==> !before(#[trigger] c[k], resolved(c)[0]),
{
    lemma_sort_contents(c);
    lemma_sort_in_order(c);
    let t = sort_links(c);
    lemma_keep_first(t);
    assert(t.contains(resolved(c)[0]));
    assert(c.contains(t[0]));
    assert forall|k: int| 0 <= k < c.len() implies !before(#[trigger] c[k], resolved(c)[0]) by {
        assert(t.contains(c[k]));
        let m = choose|m: int| 0 <= m < t.len() && t[m] == c[k];
        if m > 0 {
            assert(!before(t[m], t[0]));
        }
    }
}

proof fn lemma_keep_first(s: Seq<LinkSpec>)
    requires
        s.len() > 0,
    ensures
        keep_leftmost(s).len() > 0,
        keep_leftmost(s)[0] == s[0],
    decreases s.len(),
{
    let d = s.drop_last();
    if s.len() > 1 {
        lemma_keep_first(d);
        assert(d[0] == s[0]);
        let g = keep_leftmost(d);
        assert(g.push(s.last())[0] == g[0]);
    } else {
        assert(keep_leftmost(d) =~= Seq::<LinkSpec>::empty());
        assert(Seq::<LinkSpec>::empty().push(s.last())[0] == s.last());
    }
}

/// Law: resolving drops a candidate only where it overlaps a kept link
/// that comes no later in the overlap order (leftmost, then longest, then
/// URL before path before issue).
pub proof fn resolve_drops_only_overlapped(p: Seq<u8>, c: Seq<LinkSpec>)
    requires
        all_fit(p, c),
    ensures
        forall|k: int|
            0 <= k < c.len() ==> resolved(c).contains(#[trigger] c[k]) || exists|j: int|
                0 <= j < resolved(c).len() && overlaps(resolved(c)[j], c[k].start, c[k].end)
                    && !before(c[k], resolved(c)[j]),
{
    lemma_sort_contents(c);
    lemma_sort_in_order(c);
    let t = sort_links(c);
    assert forall|k: int| 0 <= k < t.len() implies link_fits(p, #[trigger] t[k]) by {
        assert(c.contains(t[k]));
        let m = choose|m: int| 0 <= m < c.len() && c[m] == t[k];
    }
    lemma_keep_covers(t, p);
    assert forall|k: int| 0 <= k < c.len() implies resolved(c).contains(#[trigger] c[k]) || exists|
        j: int,
    |
        0 <= j < resolved(c).len() && overlaps(resolved(c)[j], c[k].start, c[k].end) && !before(
            c[k],
            resolved(c)[j],
        ) by {
        assert(t.contains(c[k]));
        let m = choose|m: int| 0 <= m < t.len() && t[m] == c[k];
        assert(t[m] == c[k]);
    }
}

/// Law: every link that scanning keeps is a link of an enabled detector
/// (with `paths` the path links), and nothing is found when every
/// detector is off, or in empty text without path links.
pub proof fn scan_links_come_from_enabled_detectors(p: Seq<u8>, opts: Options, paths: Seq<LinkSpec>)
    ensures
        forall|k: int|
            0 <= k < resolved(candidates(p, opts, paths)).len() ==> {
                let l = #[trigger] resolved(candidates(p, opts, paths))[k];
                ||| opts.urls && url_links(p).contains(l)
                ||| opts.files && paths.contains(l)
                ||| opts.issues && issue_links(p, opts).contains(l)
            },
        !opts.urls && !opts.files && !opts.issues ==> resolved(candidates(p, opts, paths)).len()
            == 0,
        p.len() == 0 && paths.len() == 0 ==> resolved(candidates(p, opts, paths)).len() == 0,
{
    let c = candidates(p, opts, paths);
    let r = resolved(c);
    resolve_keeps_a_sub_multiset(c);
    let u = if opts.urls {
        url_links(p)
    } else {
        Seq::<LinkSpec>::empty()
    };
    let f = if opts.files {
        paths
    } else {
        Seq::<LinkSpec>::empty()
    };
    let i = if opts.issues {
        issue_links(p, opts)
    } else {
        Seq::<LinkSpec>::empty()
    };
    assert(c == u + f + i);
    assert forall|k: int| 0 <= k < r.len() implies {
        let l = #[trigger] r[k];
        ||| opts.urls && url_links(p).contains(l)
        ||| opts.files && paths.contains(l)
        ||| opts.issues && issue_links(p, opts).contains(l)
    } by {
        let l = r[k];
        vstd::seq_lib::to_multiset_contains(r, l);
        vstd::seq_lib::to_multiset_contains(c, l);
        assert(r.contains(l));
        assert(c.contains(l));
        let m = choose|m: int| 0 <= m < c.len() && c[m] == l;
        if m < u.len() {
            assert(c[m] == u[m]);
        } else if m < u.len() + f.len() {
            assert(c[m] == f[m - u.len()]);
        } else {
            assert(c[m] == i[m - u.len() - f.len()]);
        }
    }
    if (!opts.urls && !opts.files && !opts.issues) || (p.len() == 0 && paths.len() == 0) {
        assert(c.len() == 0) by {
            if p.len() == 0 {
                assert(url_links(p).len() == 0);
                assert(issue_links(p, opts).len() == 0);
            }
        }
        assert(c =~= Seq::<LinkSpec>::empty());
        assert(sort_links(c) =~= Seq::<LinkSpec>::empty());
    }
}

/// Law: the resolved links of candidates that fit the text fit it too,
/// are each one of the candidates, and come in order without overlapping.
pub proof fn resolve_gives_ordered_links(p: Seq<u8>, c: Seq<LinkSpec>)
    requires
        all_fit(p, c),
    ensures
        all_fit(p, resolved(c)),
        in_order(resolved(c)),
        drawn_from(resolved(c), c),
{
    lemma_sort_contents(c);
    let t = sort_links(c);
    assert forall|k: int| 0 <= k < t.len() implies link_fits(p, #[trigger] t[k]) by {
        assert(c.contains(t[k]));
        let m = choose|m: int| 0 <= m < c.len() && c[m] == t[k];
    }
    lemma_keep_leftmost(t, p);
    let r = resolved(c);
    assert forall|k: int| 0 <= k < r.len() implies c.contains(#[trigger] r[k]) by {
        assert(t.contains(r[k]));
        let m = choose|m: int| 0 <= m < t.len() && t[m] == r[k];
        assert(c.contains(t[m]));
    }
}

/// `[s, e)` overlaps the link.
pub open spec fn overlaps(l: LinkSpec, s: int, e: int) -> bool {
    l.start < e && l.end > s
}

/// The values of a list of byte ranges.
pub open spec fn spans_view(v: Seq<(usize, usize)>) -> Seq<(int, int)> {
    v.map_values(|t: (usize, usize)| (t.0 as int, t.1 as int))
}

/// The link overlaps one of the `taken` ranges.
pub open spec fn hits_taken(l: LinkSpec, taken: Seq<(int, int)>) -> bool {
    exists|k: int| 0 <= k < taken.len() && overlaps(l, taken[k].0, taken[k].1)
}

/// The links that overlap none of the `taken` ranges, in order.
pub open spec fn untaken(ls: Seq<LinkSpec>, taken: Seq<(int, int)>) -> Seq<LinkSpec>
    decreases ls.len(),
{
    if ls.len() == 0 {
        Seq::empty()
    } else if hits_taken(ls.last(), taken) {
        untaken(ls.drop_last(), taken)
    } else {
        untaken(ls.drop_last(), taken).push(ls.last())
    }
}

/// Drop links that overlap ranges already hyperlinked in the input.
pub fn drop_taken(links: Vec<Link>, taken: &[(usize, usize)]) -> (r: Vec<Link>)
    ensures
        links_view(r@) == untaken(links_view(links@), spans_view(taken@)),
{
    let ghost l0 = links_view(links@);
    if taken.len() == 0 {
        proof {
            lemma_untaken_none(l0, spans_view(taken@));
        }
        return links;
    }
    assert(l0.len() == links.len());
    let mut rest = links;
    let mut out: Vec<Link> = Vec::new();
    let mut k: usize = 0;
    proof {
        assert(l0.take(0) =~= Seq::<LinkSpec>::empty());
        assert(links_view(out@) =~= untaken(l0.take(0), spans_view(taken@)));
        assert(links_view(rest@) =~= l0.skip(0));
    }
    while rest.len() > 0
        invariant
            k <= l0.len(),
            l0.len() <= usize::MAX,
            links_view(out@) == untaken(l0.take(k as int), spans_view(taken@)),
            links_view(rest@) == l0.skip(k as int),
        decreases rest.len(),
    {
        let ghost before_rest = links_view(rest@);
        let ghost rest_seq = rest@;
        let l = rest.remove(0);
        proof {
            assert(before_rest.len() > 0);
            assert(k < l0.len());
            assert(before_rest[0] == l@);
            assert(l0.skip(k as int)[0] == l0[k as int]);
            assert(l0.take(k + 1).drop_last() =~= l0.take(k as int));
            assert(l0.take(k + 1).last() == l0[k as int]);
        }
        let mut hit = false;
        let mut t: usize = 0;
        while t < taken.len()
            invariant
                t <= taken.len(),
                hit == exists|m: int|
                    0 <= m < t && overlaps(l@, spans_view(taken@)[m].0, spans_view(taken@)[m].1),
            decreases taken.len() - t,
        {
            let (s, e) = taken[t];
            proof {
                assert(spans_view(taken@)[t as int] == (s as int, e as int));
            }
            if l.start < e && l.end > s {
                hit = true;
            }
            t = t + 1;
        }
        if !hit {
            let ghost ov = links_view(out@);
            out.push(l);
            proof {
                assert(links_view(out@) =~= ov.push(l@));
            }
        }
        proof {
            assert(rest@ =~= rest_seq.subrange(1, rest_seq.len() as int));
            lemma_view_tail(rest_seq);
            assert(links_view(rest@) =~= l0.skip(k + 1));
        }
        k = k + 1;
    }
    proof {
        assert(l0.take(k as int) =~= l0);
    }
    out
}

/// Law: dropping the links that touch taken regions keeps the rest in
/// order and fitting, and none of them overlaps a taken region.
pub proof fn drop_taken_leaves_clear_links(p: Seq<u8>, ls: Seq<LinkSpec>, taken: Seq<(int, int)>)
    requires
        all_fit(p, ls),
        in_order(ls),
    ensures
        all_fit(p, untaken(ls, taken)),
        in_order(untaken(ls, taken)),
        drawn_from(untaken(ls, taken), ls),
        forall|k: int, t: int|
            0 <= k < untaken(ls, taken).len() && 0 <= t < taken.len() ==> !overlaps(
                #[trigger] untaken(ls, taken)[k],
                #[trigger] taken[t].0,
                taken[t].1,
            ),
    decreases ls.len(),
{
    if ls.len() > 0 {
        let d = ls.drop_last();
        assert forall|k: int| 0 <= k < d.len() implies link_fits(p, #[trigger] d[k]) by {
            assert(d[k] == ls[k]);
        }
        assert forall|i: int, j: int| 0 <= i < j < d.len() implies (#[trigger] d[i]).end <= (
        #[trigger] d[j]).start by {
            assert(d[i] == ls[i] && d[j] == ls[j]);
        }
        drop_taken_leaves_clear_links(p, d, taken);
        let u = untaken(d, taken);
        let r = untaken(ls, taken);
        assert forall|k: int| 0 <= k < u.len() implies ls.contains(#[trigger] u[k]) by {
            assert(d.contains(u[k]));
            let m = choose|m: int| 0 <= m < d.len() && d[m] == u[k];
            assert(ls[m] == u[k]);
        }
        if !hits_taken(ls.last(), taken) {
            let x = ls.last();
            assert(link_fits(p, ls[ls.len() - 1]));
            assert forall|i: int, j: int| 0 <= i < j < r.len() implies (#[trigger] r[i]).end <= (
            #[trigger] r[j]).start by {
                assert(r[i] == u[i]);
                if j == r.len() - 1 {
                    assert(d.contains(u[i]));
                    let m = choose|m: int| 0 <= m < d.len() && d[m] == u[i];
                    assert(ls[m] == u[i]);
                    assert(ls[m].end <= ls[ls.len() - 1].start);
                } else {
                    assert(r[j] == u[j]);
                }
            }
            assert forall|k: int| 0 <= k < r.len() implies ls.contains(#[trigger] r[k]) by {
                if k == r.len() - 1 {
                    assert(ls[ls.len() - 1] == r[k]);
                } else {
                    assert(r[k] == u[k]);
                }
            }
            assert forall|k: int| 0 <= k < r.len() implies link_fits(p, #[trigger] r[k]) by {
                if k < u.len() {
                    assert(r[k] == u[k]);
                }
            }
            assert forall|k: int, t: int|
                0 <= k < r.len() && 0 <= t < taken.len() implies !overlaps(
                #[trigger] r[k],
                #[trigger] taken[t].0,
                taken[t].1,
            ) by {
                if k < u.len() {
                    assert(r[k] == u[k]);
                } else {
                    assert(r[k] == x);
                    if overlaps(x, taken[t].0, taken[t].1) {
                        assert(hits_taken(x, taken));
                    }
                }
            }
        }
    }
}

proof fn lemma_untaken_none(ls: Seq<LinkSpec>, taken: Seq<(int, int)>)
    requires
        taken.len() == 0,
    ensures
        untaken(ls, taken) == ls,
    decreases ls.len(),
{
    if ls.len() > 0 {
        lemma_untaken_none(ls.drop_last(), taken);
        assert(ls.drop_last().push(ls.last()) =~= ls);
    }
}

/// The candidates of all enabled detectors, in detector order (URLs,
/// paths, issues), with `paths` standing for the path detector's output.
pub open spec fn candidates(p: Seq<u8>, opts: Options, paths: Seq<LinkSpec>) -> Seq<LinkSpec> {
    (if opts.urls {
        url_links(p)
    } else {
        Seq::empty()
    }) + (if opts.files {
        paths
    } else {
        Seq::empty()
    }) + (if opts.issues {
        issue_links(p, opts)
    } else {
        Seq::empty()
    })
}

/// Run the URL and issue detectors over `plain`, add the path links the
/// caller found (whose existence checks need the filesystem), and resolve
/// overlaps.
pub fn scan_with(plain: &str, opts: &Options, path_links: Vec<Link>) -> (r: Vec<Link>)
    requires
        opts.issues ==> refs_well_sliced(str_bytes(plain)),
    ensures
        links_view(r@) == resolved(candidates(str_bytes(plain), *opts, links_view(path_links@))),
{
    let p = slice_bytes(plain);
    let mut all: Vec<Link> = Vec::new();
    let ghost pv = links_view(path_links@);
    if opts.urls {
        let mut u = urls::find_in(p);
        all.append(&mut u);
    }
    let ghost a1 = links_view(all@);
    if opts.files {
        let mut pl = path_links;
        all.append(&mut pl);
    }
    let ghost a2 = links_view(all@);
    if opts.issues {
        let mut il = issues::find_in(p, opts);
        all.append(&mut il);
    }
    proof {
        assert(a1 =~= if opts.urls {
            url_links(p@)
        } else {
            Seq::<LinkSpec>::empty()
        });
        assert(a2 =~= a1 + if opts.files {
            pv
        } else {
            Seq::<LinkSpec>::empty()
        });
        assert(links_view(all@) =~= candidates(p@, *opts, pv));
    }
    resolve(all)
}

/// Run all enabled detectors over `plain` and resolve overlaps. Text with
/// a path candidate that needs an existence answer (see
/// [`paths::needs_existence_answers`]) goes through
/// [`crate::cli::LineScan`] and [`scan_with`] instead.
pub fn scan(plain: &str, opts: &Options) -> (r: Vec<Link>)
    requires
        opts.issues ==> refs_well_sliced(str_bytes(plain)),
        opts.files && opts.check ==> crate::paths::next_cand(str_bytes(plain), *opts, 0) is None,
    ensures
        links_view(r@) == resolved(
            candidates(str_bytes(plain), *opts, path_links(str_bytes(plain), *opts)),
        ),
        all_fit(str_bytes(plain), links_view(r@)),
        in_order(links_view(r@)),
        (!opts.urls && !opts.files && !opts.issues) || str_bytes(plain).len() == 0 ==> r@.len()
            == 0,
{
    proof {
        let p = str_bytes(plain);
        scan_links_come_from_enabled_detectors(p, *opts, path_links(p, *opts));
        if p.len() == 0 {
            assert(path_links(p, *opts).len() == 0);
        }
        crate::text::lemma_str_valid(plain);
        crate::urls::lemma_url_links_fit(p, 0);
        if opts.issues {
            crate::issues::lemma_issue_links_fit(p, *opts);
        }
        crate::paths::lemma_path_links_fit(p, *opts, 0);
        let u = if opts.urls {
            url_links(p)
        } else {
            Seq::<LinkSpec>::empty()
        };
        let f = if opts.files {
            path_links(p, *opts)
        } else {
            Seq::<LinkSpec>::empty()
        };
        let i = if opts.issues {
            issue_links(p, *opts)
        } else {
            Seq::<LinkSpec>::empty()
        };
        lemma_fit_concat(p, u, f);
        lemma_fit_concat(p, u + f, i);
        resolve_gives_ordered_links(p, candidates(p, *opts, path_links(p, *opts)));
    }
    let pl = if opts.files {
        paths::find(plain, opts)
    } else {
        Vec::new()
    };
    proof {
        if !opts.files {
            assert(candidates(str_bytes(plain), *opts, links_view(pl@)) =~= candidates(
                str_bytes(plain),
                *opts,
                path_links(str_bytes(plain), *opts),
            ));
        }
    }
    scan_with(plain, opts, pl)
}

} // verus!
