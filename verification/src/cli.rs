//! The command-line filter's decisions: flag parsing, configuration, the
//! per-line pipeline and the stats summary.
//!
//! The program around this module reads input, asks the file system and
//! the environment, and writes output; everything it decides on the way
//! is here. For one line, [`LineScan`] runs the path detector and asks the
//! caller, one candidate at a time, whether the candidate's path exists;
//! [`filter_line`] then produces exactly the bytes to write.
use crate::ansi::{line_model, renderable, rendered, AnsiLine, LineModel};
use crate::giturl::{first_index, index_from, lemma_index_from, trail_run, trail_run_exec};
use crate::issues::{lemma_issue_links_fit, opt_bytes, refs_well_sliced};
use crate::osc8::sanitized;
use crate::paths::{
    has_byte, lemma_candidate_boundary, lemma_next_cand, next_cand, next_candidate_in,
    asked_by, path_links_by, path_links_need_a_yes, question_by, Candidate, CandidateSpec,
};
use crate::scan::{
    all_fit, candidates, drop_taken, drop_taken_leaves_clear_links, in_order, lemma_fit_concat,
    link_fits,
    links_view, overlaps, resolve_gives_ordered_links, resolved, scan_with, spans_view, untaken,
    Kind, Link, LinkSpec, Options,
};
use crate::text::{
    at_boundary, bytes_to_string, contains, contains_bytes, decimal, ends_with, has_prefix,
    has_suffix, lemma_ascii_edge, lemma_ascii_lit, lemma_ascii_valid, same, slice_bytes,
    starts_with, str_bytes, str_from_utf8, string_bytes, sub_bytes, sub_str,
};
use crate::uri::{editor_matches, is_preset, unknown_editor_message, Editor};
use crate::urls::{lemma_url_links_fit, url_links};
use vstd::prelude::*;
use vstd::utf8::*;

verus! {

// ---------------------------------------------------------------------------
// Path detection with existence answers
// ---------------------------------------------------------------------------

/// The path detector's progress through a line: the links found so far,
/// where it stands, and the candidate whose path it is asking about.
pub open spec fn scan_ok(
    p: Seq<u8>,
    opts: Options,
    pos: int,
    pending: Option<CandidateSpec>,
    links: Seq<LinkSpec>,
    answers: Seq<bool>,
) -> bool {
    &&& valid_utf8(p)
    &&& at_boundary(p, pos)
    &&& all_fit(p, links)
    &&& opts.files ==> forall|more: Seq<bool>|
        #[trigger] path_links_by(p, opts, answers + more, 0) == links + path_links_by(
            p,
            opts,
            more,
            pos,
        )
    &&& opts.files ==> forall|more: Seq<bool>|
        #[trigger] question_by(p, opts, answers + more, 0) == question_by(p, opts, more, pos)
    &&& !opts.files ==> links.len() == 0 && pending is None
    &&& pending matches Some(c) ==> opts.check && next_cand(p, opts, pos) == Some(c)
    &&& (opts.files && pending is None) ==> next_cand(p, opts, pos) is None
}

/// What a [`LineScan`] stands for: the line, the options, the existence
/// answers given so far, and the path it is asking about, if any.
pub struct LineScanView {
    pub line: LineModel,
    pub opts: Options,
    pub answers: Seq<bool>,
    pub asking: Option<Seq<u8>>,
}

/// The path a scan with these answers asks about next: that of the first
/// candidate left unanswered (only with the path detector and the
/// existence check on).
pub open spec fn next_question(v: LineScanView) -> Option<Seq<u8>> {
    if v.opts.files {
        question_by(v.line.plain, v.opts, v.answers, 0)
    } else {
        None
    }
}

proof fn lemma_scan_asking(
    p: Seq<u8>,
    opts: Options,
    pos: int,
    pending: Option<CandidateSpec>,
    links: Seq<LinkSpec>,
    answers: Seq<bool>,
)
    requires
        scan_ok(p, opts, pos, pending, links, answers),
    ensures
        (match pending {
            Some(c) => Some(c.path),
            None => None,
        }) == (if opts.files {
            question_by(p, opts, answers, 0)
        } else {
            None
        }),
{
    if opts.files {
        assert(answers + Seq::<bool>::empty() =~= answers);
        assert(question_by(p, opts, answers + Seq::<bool>::empty(), 0) == question_by(
            p,
            opts,
            Seq::<bool>::empty(),
            pos,
        ));
    }
}

/// The path detector run over one line, stopping at each candidate whose
/// path must be checked on disk (only with `check` on) until the caller
/// answers whether it exists.
pub struct LineScan<'a, 'b> {
    line: &'a AnsiLine<'b>,
    opts: &'a Options,
    pos: usize,
    pending: Option<Candidate>,
    links: Vec<Link>,
    answers: Ghost<Seq<bool>>,
}

pub open spec fn opt_cand(c: Option<Candidate>) -> Option<CandidateSpec> {
    match c {
        Some(x) => Some(x@),
        None => None,
    }
}

impl<'a, 'b> View for LineScan<'a, 'b> {
    type V = LineScanView;

    closed spec fn view(&self) -> LineScanView {
        LineScanView {
            line: self.line@,
            opts: *self.opts,
            answers: self.answers@,
            asking: match self.pending {
                Some(c) => Some(string_bytes(c.path)),
                None => None,
            },
        }
    }
}

/// Run the detector from `pos` until a candidate needs an existence answer
/// or the line ends. Returns the new position and that candidate.
fn run_to_question(
    p: &[u8],
    opts: &Options,
    pos: usize,
    links: &mut Vec<Link>,
    answers: Ghost<Seq<bool>>,
) -> (r: (usize, Option<Candidate>))
    requires
        opts.files,
        valid_utf8(p@),
        at_boundary(p@, pos as int),
        all_fit(p@, links_view(old(links)@)),
        forall|more: Seq<bool>|
            #[trigger] path_links_by(p@, *opts, answers@ + more, 0) == links_view(old(links)@)
                + path_links_by(p@, *opts, more, pos as int),
        forall|more: Seq<bool>|
            #[trigger] question_by(p@, *opts, answers@ + more, 0) == question_by(
                p@,
                *opts,
                more,
                pos as int,
            ),
    ensures
        scan_ok(p@, *opts, r.0 as int, opt_cand(r.1), links_view(final(links)@), answers@),
{
    let mut pos = pos;
    loop
        invariant
            opts.files,
            valid_utf8(p@),
            at_boundary(p@, pos as int),
            all_fit(p@, links_view(links@)),
            forall|more: Seq<bool>|
                #[trigger] path_links_by(p@, *opts, answers@ + more, 0) == links_view(links@)
                    + path_links_by(p@, *opts, more, pos as int),
            forall|more: Seq<bool>|
                #[trigger] question_by(p@, *opts, answers@ + more, 0) == question_by(
                    p@,
                    *opts,
                    more,
                    pos as int,
                ),
        decreases p.len() - pos,
    {
        proof {
            lemma_next_cand(p@, *opts, pos as int);
            lemma_candidate_boundary(p@, *opts, pos as int);
        }
        match next_candidate_in(p, opts, pos) {
            None => {
                return (pos, None);
            },
            Some(c) => {
                if opts.check {
                    return (pos, Some(c));
                }
                let ghost l0 = links_view(links@);
                let ghost cv = c@;
                let ghost p0 = pos as int;
                let end = c.link.end;
                links.push(c.link);
                proof {
                    assert(links_view(links@) =~= l0.push(cv.link));
                    assert forall|more: Seq<bool>|
                        #[trigger] path_links_by(p@, *opts, answers@ + more, 0) == links_view(
                            links@,
                        ) + path_links_by(p@, *opts, more, end as int) by {
                        assert(path_links_by(p@, *opts, answers@ + more, 0) == l0 + path_links_by(
                            p@,
                            *opts,
                            more,
                            p0,
                        ));
                        assert(path_links_by(p@, *opts, more, p0) == seq![cv.link] + path_links_by(
                            p@,
                            *opts,
                            more,
                            end as int,
                        ));
                        assert(l0 + (seq![cv.link] + path_links_by(p@, *opts, more, end as int))
                            =~= links_view(links@) + path_links_by(p@, *opts, more, end as int));
                    }
                    assert forall|k: int| 0 <= k < links_view(links@).len() implies link_fits(
                        p@,
                        #[trigger] links_view(links@)[k],
                    ) by {
                        if k < l0.len() {
                            assert(links_view(links@)[k] == l0[k]);
                        }
                    }
                    assert forall|more: Seq<bool>|
                        #[trigger] question_by(p@, *opts, answers@ + more, 0) == question_by(
                            p@,
                            *opts,
                            more,
                            end as int,
                        ) by {
                        assert(question_by(p@, *opts, answers@ + more, 0) == question_by(
                            p@,
                            *opts,
                            more,
                            p0,
                        ));
                    }
                }
                pos = end;
            },
        }
    }
}

/// Answering the question about candidate `c` at `p0` with `found` moves the
/// bookkeeping of links and questions to `next`.
proof fn lemma_answer_step(
    p: Seq<u8>,
    opts: Options,
    a0: Seq<bool>,
    l0: Seq<LinkSpec>,
    p0: int,
    c: CandidateSpec,
    found: bool,
    next: int,
    l1: Seq<LinkSpec>,
)
    requires
        opts.check,
        0 <= p0 <= p.len(),
        next_cand(p, opts, p0) == Some(c),
        next == if found {
            c.link.end
        } else {
            c.skip
        },
        l1 == if found {
            l0.push(c.link)
        } else {
            l0
        },
        forall|more: Seq<bool>|
            #[trigger] path_links_by(p, opts, a0 + more, 0) == l0 + path_links_by(
                p,
                opts,
                more,
                p0,
            ),
        forall|more: Seq<bool>|
            #[trigger] question_by(p, opts, a0 + more, 0) == question_by(p, opts, more, p0),
    ensures
        forall|more: Seq<bool>|
            #[trigger] path_links_by(p, opts, a0.push(found) + more, 0) == l1 + path_links_by(
                p,
                opts,
                more,
                next,
            ),
        forall|more: Seq<bool>|
            #[trigger] question_by(p, opts, a0.push(found) + more, 0) == question_by(
                p,
                opts,
                more,
                next,
            ),
{
    let a1 = a0.push(found);
    assert forall|more: Seq<bool>|
        #[trigger] path_links_by(p, opts, a1 + more, 0) == l1 + path_links_by(
            p,
            opts,
            more,
            next,
        ) by {
        let m2 = seq![found] + more;
        assert(a1 + more =~= a0 + m2);
        assert(path_links_by(p, opts, a0 + m2, 0) == l0 + path_links_by(p, opts, m2, p0));
        assert(m2[0] == found);
        assert(m2.drop_first() =~= more);
        if found {
            assert(path_links_by(p, opts, m2, p0) == seq![c.link] + path_links_by(
                p,
                opts,
                more,
                next,
            ));
            assert(l0 + (seq![c.link] + path_links_by(p, opts, more, next)) =~= l1
                + path_links_by(p, opts, more, next));
        } else {
            assert(path_links_by(p, opts, m2, p0) == path_links_by(p, opts, more, next));
        }
    }
    assert forall|more: Seq<bool>|
        #[trigger] question_by(p, opts, a1 + more, 0) == question_by(p, opts, more, next) by {
        let m2 = seq![found] + more;
        assert(a1 + more =~= a0 + m2);
        assert(question_by(p, opts, a0 + m2, 0) == question_by(p, opts, m2, p0));
        assert(m2[0] == found);
        assert(m2.drop_first() =~= more);
    }
}

impl<'a, 'b> LineScan<'a, 'b> {
    #[verifier::type_invariant]
    spec fn well_formed(self) -> bool {
        scan_ok(
            self.line@.plain,
            *self.opts,
            self.pos as int,
            opt_cand(self.pending),
            links_view(self.links@),
            self.answers@,
        )
    }

    proof fn lemma_asking(&self)
        requires
            self.well_formed(),
        ensures
            self@.asking == next_question(self@),
    {
        lemma_scan_asking(
            self.line@.plain,
            *self.opts,
            self.pos as int,
            opt_cand(self.pending),
            links_view(self.links@),
            self.answers@,
        );
    }

    /// Start the path detector on the visible text of `line`.
    pub fn new(line: &'a AnsiLine<'b>, opts: &'a Options) -> (r: LineScan<'a, 'b>)
        ensures
            r@.line == line@,
            r@.opts == *opts,
            r@.answers == Seq::<bool>::empty(),
            r@.asking == next_question(r@),
    {
        let p = slice_bytes(line.plain());
        let mut links: Vec<Link> = Vec::new();
        let ghost answers = Seq::<bool>::empty();
        proof {
            if p@.len() > 0 {
                assert(valid_first_scalar(p@));
            }
            assert forall|more: Seq<bool>|
                #[trigger] path_links_by(p@, *opts, answers + more, 0) == links_view(links@)
                    + path_links_by(p@, *opts, more, 0) by {
                assert(answers + more =~= more);
                assert(links_view(links@) + path_links_by(p@, *opts, more, 0) =~= path_links_by(
                    p@,
                    *opts,
                    more,
                    0,
                ));
            }
            assert(links_view(links@) =~= Seq::<LinkSpec>::empty());
            assert forall|more: Seq<bool>|
                #[trigger] question_by(p@, *opts, answers + more, 0) == question_by(
                    p@,
                    *opts,
                    more,
                    0,
                ) by {
                assert(answers + more =~= more);
            }
        }
        if !opts.files {
            let r = LineScan { line, opts, pos: 0, pending: None, links, answers: Ghost(answers) };
            proof {
                use_type_invariant(&r);
                r.lemma_asking();
            }
            return r;
        }
        let (pos, pending) = run_to_question(p, opts, 0, &mut links, Ghost(answers));
        let r = LineScan { line, opts, pos, pending, links, answers: Ghost(answers) };
        proof {
            use_type_invariant(&r);
            r.lemma_asking();
        }
        r
    }

    /// The path whose existence the detector is asking about, if any.
    pub fn question(&self) -> (r: Option<String>)
        ensures
            opt_bytes(r) == self@.asking,
            self@.asking == next_question(self@),
    {
        proof {
            use_type_invariant(self);
            self.lemma_asking();
        }
        match &self.pending {
            Some(c) => Some(crate::text::copy_string(&c.path)),
            None => None,
        }
    }

    /// Answer the pending question: does the path exist?
    pub fn answer(self, found: bool) -> (r: LineScan<'a, 'b>)
        requires
            self@.asking is Some,
        ensures
            r@.line == self@.line,
            r@.opts == self@.opts,
            r@.answers == self@.answers.push(found),
            r@.asking == next_question(r@),
    {
        proof {
            use_type_invariant(&self);
        }
        let ghost a0 = self.answers@;
        let ghost l0 = links_view(self.links@);
        let ghost p0 = self.pos as int;
        let LineScan { line, opts, pos, pending, links, answers } = self;
        let mut links = links;
        let p = slice_bytes(line.plain());
        let c = match pending {
            Some(c) => c,
            None => {
                return LineScan { line, opts, pos, pending: None, links, answers };
            },
        };
        let ghost cv = c@;
        let ghost a1 = a0.push(found);
        proof {
            lemma_next_cand(p@, *opts, p0);
            lemma_candidate_boundary(p@, *opts, p0);
        }
        let next = if found {
            let end = c.link.end;
            links.push(c.link);
            end
        } else {
            c.skip_to
        };
        proof {
            let l1 = links_view(links@);
            if found {
                assert(l1 =~= l0.push(cv.link));
                assert forall|k: int| 0 <= k < l1.len() implies link_fits(p@, #[trigger] l1[k]) by {
                    if k < l0.len() {
                        assert(l1[k] == l0[k]);
                    }
                }
            } else {
                assert(l1 == l0);
            }
            lemma_answer_step(p@, *opts, a0, l0, p0, cv, found, next as int, l1);
        }
        let (pos2, pending2) = run_to_question(p, opts, next, &mut links, Ghost(a1));
        let r = LineScan { line, opts, pos: pos2, pending: pending2, links, answers: Ghost(a1) };
        proof {
            use_type_invariant(&r);
            r.lemma_asking();
        }
        r
    }
}

/// The path links of a finished line scan.
pub open spec fn scan_paths(v: LineScanView) -> Seq<LinkSpec> {
    if v.opts.files {
        path_links_by(v.line.plain, v.opts, v.answers, 0)
    } else {
        Seq::empty()
    }
}

/// The links to wrap on a scanned line: the URL, path and issue
/// candidates resolved, then those over regions already linked dropped.
pub open spec fn line_links_spec(v: LineScanView) -> Seq<LinkSpec> {
    untaken(resolved(candidates(v.line.plain, v.opts, scan_paths(v))), v.line.taken)
}

impl<'a, 'b> LineScan<'a, 'b> {
    /// The links to wrap on the line, once every question is answered:
    /// sorted, apart, on character boundaries, and clear of the regions
    /// that already are hyperlinks.
    pub fn links(self) -> (r: Vec<Link>)
        requires
            self@.asking is None,
            self@.opts.issues ==> refs_well_sliced(self@.line.plain),
        ensures
            links_view(r@) == line_links_spec(self@),
            renderable(self@.line.plain, links_view(r@)),
            forall|k: int, t: int|
                0 <= k < r@.len() && 0 <= t < self@.line.taken.len() ==> !overlaps(
                    #[trigger] links_view(r@)[k],
                    #[trigger] self@.line.taken[t].0,
                    self@.line.taken[t].1,
                ),
    {
        proof {
            use_type_invariant(&self);
        }
        let ghost v = self@;
        let line = self.line;
        let opts = self.opts;
        let plain = line.plain();
        let ghost p = str_bytes(plain);
        let paths = self.links;
        proof {
            if opts.files {
                assert(v.answers + Seq::<bool>::empty() =~= v.answers);
                assert(path_links_by(p, *opts, Seq::<bool>::empty(), self.pos as int)
                    =~= Seq::<LinkSpec>::empty());
                assert(links_view(paths@) + Seq::<LinkSpec>::empty() =~= links_view(paths@));
            }
            assert(candidates(p, *opts, links_view(paths@)) =~= candidates(p, *opts, scan_paths(v)));
            if p.len() > 0 {
                assert(valid_first_scalar(p));
            }
            lemma_url_links_fit(p, 0);
            if opts.issues {
                lemma_issue_links_fit(p, *opts);
            }
            let u = if opts.urls {
                crate::urls::url_links(p)
            } else {
                Seq::<LinkSpec>::empty()
            };
            let f = if opts.files {
                links_view(paths@)
            } else {
                Seq::<LinkSpec>::empty()
            };
            let i = if opts.issues {
                crate::issues::issue_links(p, *opts)
            } else {
                Seq::<LinkSpec>::empty()
            };
            lemma_fit_concat(p, u, f);
            lemma_fit_concat(p, u + f, i);
            let c = candidates(p, *opts, links_view(paths@));
            resolve_gives_ordered_links(p, c);
            drop_taken_leaves_clear_links(p, resolved(c), v.line.taken);
        }
        let found = scan_with(plain, opts, paths);
        drop_taken(found, line.taken())
    }
}

proof fn lemma_untaken_drawn(ls: Seq<LinkSpec>, taken: Seq<(int, int)>)
    ensures
        forall|k: int|
            0 <= k < untaken(ls, taken).len() ==> ls.contains(#[trigger] untaken(ls, taken)[k]),
    decreases ls.len(),
{
    if ls.len() > 0 {
        let d = ls.drop_last();
        lemma_untaken_drawn(d, taken);
        let u = untaken(d, taken);
        assert forall|k: int| 0 <= k < untaken(ls, taken).len() implies ls.contains(
            #[trigger] untaken(ls, taken)[k],
        ) by {
            let x = untaken(ls, taken)[k];
            if k < u.len() {
                assert(untaken(ls, taken)[k] == u[k]);
                assert(d.contains(x));
                let m = choose|m: int| 0 <= m < d.len() && d[m] == x;
                assert(ls[m] == x);
            } else {
                assert(ls[ls.len() - 1] == x);
            }
        }
    }
}

/// Law: with the existence check on, every path link a line scan ends
/// with is the link of a candidate the caller was asked about, by its
/// path, and answered yes.
pub proof fn checked_path_links_were_answered_yes(v: LineScanView)
    requires
        valid_utf8(v.line.plain),
        v.opts.files,
        v.opts.check,
    ensures
        forall|k: int|
            0 <= k < line_links_spec(v).len() && (#[trigger] line_links_spec(v)[k]).kind
                == Kind::Path ==> exists|j: int|
                0 <= j < asked_by(v.line.plain, v.opts, v.answers, 0).len() && v.answers[j]
                    && asked_by(v.line.plain, v.opts, v.answers, 0)[j].link == line_links_spec(
                    v,
                )[k] && question_by(v.line.plain, v.opts, v.answers.take(j), 0) == Some(
                    asked_by(v.line.plain, v.opts, v.answers, 0)[j].path,
                ),
{
    let p = v.line.plain;
    let paths = scan_paths(v);
    let c = candidates(p, v.opts, paths);
    let r = resolved(c);
    crate::scan::scan_links_come_from_enabled_detectors(p, v.opts, paths);
    lemma_untaken_drawn(r, v.line.taken);
    crate::urls::url_links_shape(p);
    crate::issues::lemma_issue_links_kind(p, v.opts);
    path_links_need_a_yes(p, v.opts, v.answers, 0);
    let asked = asked_by(p, v.opts, v.answers, 0);
    assert forall|k: int|
        0 <= k < line_links_spec(v).len() && (#[trigger] line_links_spec(v)[k]).kind
            == Kind::Path implies exists|j: int|
        0 <= j < asked.len() && v.answers[j] && asked[j].link == line_links_spec(v)[k]
            && question_by(p, v.opts, v.answers.take(j), 0) == Some(asked[j].path) by {
        let l = line_links_spec(v)[k];
        assert(r.contains(l));
        let m = choose|m: int| 0 <= m < r.len() && r[m] == l;
        if url_links(p).contains(l) {
            let u = choose|u: int| 0 <= u < url_links(p).len() && url_links(p)[u] == l;
            assert(url_links(p)[u].kind == Kind::Url);
        } else if crate::issues::issue_links(p, v.opts).contains(l) {
            let u = choose|u: int|
                0 <= u < crate::issues::issue_links(p, v.opts).len() && crate::issues::issue_links(
                    p,
                    v.opts,
                )[u] == l;
            assert(crate::issues::issue_links(p, v.opts)[u].kind == Kind::Issue);
        } else {
            assert(paths.contains(l));
            let u = choose|u: int| 0 <= u < paths.len() && paths[u] == l;
            let j = choose|j: int|
                0 <= j < asked.len() && v.answers[j] && asked[j].link == #[trigger] paths[u];
            assert(question_by(p, v.opts, v.answers.take(j), 0) == Some(asked[j].path));
        }
    }
}

/// The `--dump` label of a kind.
pub open spec fn kind_label(k: Kind) -> Seq<u8> {
    match k {
        Kind::Url => str_bytes("url"),
        Kind::Path => str_bytes("path"),
        Kind::Issue => str_bytes("issue"),
    }
}

/// The `--dump` lines for `links` of the text `p`: kind, linked text and
/// sanitized target, tab-separated, one line each.
pub open spec fn dump_bytes(p: Seq<u8>, links: Seq<LinkSpec>) -> Seq<u8>
    decreases links.len(),
{
    if links.len() == 0 {
        Seq::empty()
    } else {
        let l = links.last();
        dump_bytes(p, links.drop_last()) + kind_label(l.kind) + seq![0x09u8] + p.subrange(
            l.start,
            l.end,
        ) + seq![0x09u8] + sanitized(l.href) + seq![0x0au8]
    }
}

/// The bytes the filter writes for a line it linkifies: the line with its
/// links wrapped, then its terminator; with `dump`, one
/// `kind<TAB>text<TAB>href` line per link instead. The links come back too,
/// for the stats.
pub fn filter_line(ls: LineScan, dump: bool, terminator: &[u8]) -> (r: (Vec<u8>, Vec<Link>))
    requires
        ls@.asking is None,
        ls@.opts.issues ==> refs_well_sliced(ls@.line.plain),
    ensures
        links_view(r.1@) == line_links_spec(ls@),
        r.0@ == if dump {
            dump_bytes(ls@.line.plain, links_view(r.1@))
        } else {
            rendered(ls@.line, links_view(r.1@)) + terminator@
        },
{
    let line = ls.line;
    let links = ls.links();
    let mut out: Vec<u8> = Vec::new();
    if dump {
        let p = slice_bytes(line.plain());
        let mut k: usize = 0;
        while k < links.len()
            invariant
                k <= links.len(),
                p@ == line@.plain,
                renderable(p@, links_view(links@)),
                out@ == dump_bytes(p@, links_view(links@).take(k as int)),
            decreases links.len() - k,
        {
            let l = &links[k];
            let ghost lv = links_view(links@);
            proof {
                assert(lv[k as int] == l@);
                assert(crate::ansi::link_within(p@, lv[k as int]));
                assert(lv.take(k + 1).drop_last() =~= lv.take(k as int));
                assert(lv.take(k + 1).last() == l@);
            }
            let label = l.kind.label();
            proof {
                assert(str_bytes(label) == kind_label(l.kind));
            }
            crate::text::push_all(&mut out, slice_bytes(label));
            out.push(0x09);
            crate::text::push_range(&mut out, p, l.start, l.end);
            out.push(0x09);
            let h = crate::osc8::sanitize_bytes(crate::text::bytes_of(&l.href));
            crate::text::push_all(&mut out, h.as_slice());
            out.push(0x0a);
            k = k + 1;
            proof {
                assert(out@ =~= dump_bytes(p@, lv.take(k as int)));
            }
        }
        proof {
            assert(links_view(links@).take(links.len() as int) =~= links_view(links@));
        }
    } else {
        let s = line.render(links.as_slice());
        crate::text::push_all(&mut out, crate::text::bytes_of(&s));
        crate::text::push_all(&mut out, terminator);
    }
    (out, links)
}

// ---------------------------------------------------------------------------
// The filter over a stream of lines
// ---------------------------------------------------------------------------

/// The body of a raw line, without its terminator.
pub open spec fn body_of(buf: Seq<u8>) -> Seq<u8> {
    buf.subrange(0, buf.len() - terminator_of(buf).len())
}

/// The line is linkified: the filter is active and the body is UTF-8.
pub open spec fn linkified(buf: Seq<u8>, active: bool) -> bool {
    active && valid_utf8(body_of(buf))
}

/// The scan of a line body with these existence answers, all asked.
pub open spec fn scan_view(body: Seq<u8>, opts: Options, answers: Seq<bool>) -> LineScanView {
    LineScanView { line: line_model(body), opts, answers, asking: None }
}

/// The links the filter wraps on a raw line.
pub open spec fn links_of_line(buf: Seq<u8>, active: bool, opts: Options, answers: Seq<bool>) -> Seq<
    LinkSpec,
> {
    if linkified(buf, active) {
        line_links_spec(scan_view(body_of(buf), opts, answers))
    } else {
        Seq::empty()
    }
}

/// What the filter writes for a raw line: the line as read when it is not
/// linkified (nothing with `dump`); otherwise the line with its links
/// wrapped and its terminator, or with `dump` one row per link.
pub open spec fn line_output(
    buf: Seq<u8>,
    active: bool,
    dump: bool,
    opts: Options,
    answers: Seq<bool>,
) -> Seq<u8> {
    if !linkified(buf, active) {
        if dump {
            Seq::empty()
        } else {
            buf
        }
    } else {
        let m = line_model(body_of(buf));
        let links = links_of_line(buf, active, opts, answers);
        if dump {
            dump_bytes(m.plain, links)
        } else {
            rendered(m, links) + terminator_of(buf)
        }
    }
}

/// One line the filter has read, with the existence answers given for it.
pub struct LineRecord {
    pub input: Seq<u8>,
    pub answers: Seq<bool>,
}

/// What the filter writes for a stream of lines: each line's output, in
/// order.
pub open spec fn stream_output(recs: Seq<LineRecord>, active: bool, dump: bool, opts: Options) -> Seq<
    u8,
>
    decreases recs.len(),
{
    if recs.len() == 0 {
        Seq::empty()
    } else {
        stream_output(recs.drop_last(), active, dump, opts) + line_output(
            recs.last().input,
            active,
            dump,
            opts,
            recs.last().answers,
        )
    }
}

/// How many links of kind `k` the filter wraps over a stream of lines.
pub open spec fn stream_count(recs: Seq<LineRecord>, active: bool, opts: Options, k: Kind) -> nat
    decreases recs.len(),
{
    if recs.len() == 0 {
        0
    } else {
        stream_count(recs.drop_last(), active, opts, k) + count_kind(
            links_of_line(recs.last().input, active, opts, recs.last().answers),
            k,
        )
    }
}

/// What the filter has done so far: the lines read, the bytes written and
/// the counts.
pub struct FilterView {
    pub active: bool,
    pub dump: bool,
    pub opts: Options,
    pub lines: Seq<LineRecord>,
    pub written: Seq<u8>,
    pub stats: Stats,
}

/// The streaming filter: it takes lines one at a time and gives back the
/// bytes to write for each, keeping the stats.
pub struct Filter {
    active: bool,
    dump: bool,
    stats: Stats,
    opts: Ghost<Options>,
    lines: Ghost<Seq<LineRecord>>,
    written: Ghost<Seq<u8>>,
}

impl View for Filter {
    type V = FilterView;

    closed spec fn view(&self) -> FilterView {
        FilterView {
            active: self.active,
            dump: self.dump,
            opts: self.opts@,
            lines: self.lines@,
            written: self.written@,
            stats: self.stats,
        }
    }
}

/// Law (the filter's invariant): what has been written is the output of
/// the lines read, in order, and the stats count those lines and the
/// links of each kind wrapped on them.
pub open spec fn filter_ok(v: FilterView) -> bool {
    &&& v.written == stream_output(v.lines, v.active, v.dump, v.opts)
    &&& v.stats.lines == v.lines.len()
    &&& v.stats.paths == stream_count(v.lines, v.active, v.opts, Kind::Path)
    &&& v.stats.urls == stream_count(v.lines, v.active, v.opts, Kind::Url)
    &&& v.stats.issues == stream_count(v.lines, v.active, v.opts, Kind::Issue)
}

impl LineScan<'_, '_> {
    /// The scan runs over the line with these bytes.
    pub fn reads(&self, body: &[u8]) -> (r: bool)
        ensures
            r == (self@.line.line == body@),
    {
        let t = slice_bytes(self.line.text());
        crate::text::same_bytes(t, body)
    }
}

impl Filter {
    #[verifier::type_invariant]
    spec fn well_formed(self) -> bool {
        filter_ok(self@)
    }

    /// A filter that has read nothing yet.
    pub fn new(active: bool, dump: bool, opts: &Options) -> (r: Filter)
        ensures
            r@.active == active,
            r@.dump == dump,
            r@.opts == *opts,
            r@.lines.len() == 0,
            r@.written.len() == 0,
    {
        Filter {
            active,
            dump,
            stats: Stats { lines: 0, paths: 0, urls: 0, issues: 0 },
            opts: Ghost(*opts),
            lines: Ghost(Seq::empty()),
            written: Ghost(Seq::empty()),
        }
    }

    /// The counts so far.
    pub fn stats(&self) -> (r: &Stats)
        ensures
            *r == self@.stats,
            filter_ok(self@),
    {
        proof {
            use_type_invariant(self);
        }
        &self.stats
    }

    /// Take a line that is not linkified; gives what to write, or `None`
    /// when the line count would overflow.
    pub fn pass_line(&mut self, buf: &[u8]) -> (r: Option<Vec<u8>>)
        requires
            !linkified(buf@, old(self)@.active),
        ensures
            old(self)@.stats.lines == u64::MAX <==> r is None,
            r is None ==> final(self)@ == old(self)@,
            r matches Some(out) ==> {
                &&& out@ == line_output(buf@, old(self)@.active, old(self)@.dump, old(self)@.opts, Seq::empty())
                &&& final(self)@.lines == old(self)@.lines.push(
                    LineRecord { input: buf@, answers: Seq::empty() },
                )
                &&& final(self)@.written == old(self)@.written + out@
                &&& final(self)@.active == old(self)@.active && final(self)@.dump == old(self)@.dump
                    && final(self)@.opts == old(self)@.opts
            },
    {
        proof {
            use_type_invariant(&*self);
        }
        if self.stats.lines == u64::MAX {
            return None;
        }
        let out = crate::text::copy_bytes(passthrough(buf, self.dump));
        let ghost rec = LineRecord { input: buf@, answers: Seq::empty() };
        let ghost lines2 = self.lines@.push(rec);
        let ghost w2 = self.written@ + out@;
        proof {
            let v = self@;
            assert(lines2.drop_last() == v.lines);
            assert(lines2.last() == rec);
            assert(links_of_line(buf@, v.active, v.opts, Seq::empty()) == Seq::<LinkSpec>::empty());
        }
        let stats = Stats {
            lines: self.stats.lines + 1,
            paths: self.stats.paths,
            urls: self.stats.urls,
            issues: self.stats.issues,
        };
        *self = Filter {
            active: self.active,
            dump: self.dump,
            stats,
            opts: self.opts,
            lines: Ghost(lines2),
            written: Ghost(w2),
        };
        Some(out)
    }

    /// Take a linkified line, scanned with all its existence questions
    /// answered; gives what to write, or `None` when a count would
    /// overflow.
    pub fn linked_line(&mut self, buf: &[u8], ls: LineScan) -> (r: Option<Vec<u8>>)
        requires
            linkified(buf@, old(self)@.active),
            ls@.line.line == body_of(buf@),
            ls@.opts == old(self)@.opts,
            ls@.asking is None,
            ls@.opts.issues ==> refs_well_sliced(ls@.line.plain),
        ensures
            r is None ==> final(self)@ == old(self)@,
            r is None <==> !(old(self)@.stats.lines < u64::MAX && old(self)@.stats.has_room(
                links_of_line(buf@, old(self)@.active, old(self)@.opts, ls@.answers),
            )),
            r matches Some(out) ==> {
                &&& out@ == line_output(buf@, old(self)@.active, old(self)@.dump, old(self)@.opts, ls@.answers)
                &&& final(self)@.lines == old(self)@.lines.push(
                    LineRecord { input: buf@, answers: ls@.answers },
                )
                &&& final(self)@.written == old(self)@.written + out@
                &&& final(self)@.active == old(self)@.active && final(self)@.dump == old(self)@.dump
                    && final(self)@.opts == old(self)@.opts
            },
    {
        proof {
            use_type_invariant(&*self);
        }
        let _ = ls.line.text();
        let ghost answers = ls@.answers;
        let ghost v = self@;
        let (split_body, term) = split_terminator(buf);
        proof {
            assert(split_body@ =~= body_of(buf@));
            assert(ls@.line == line_model(body_of(buf@)));
            assert(ls@ == LineScanView { asking: None, ..scan_view(body_of(buf@), v.opts, answers) });
            assert(line_links_spec(ls@) == line_links_spec(scan_view(body_of(buf@), v.opts, answers)));
        }
        let (out, links) = filter_line(ls, self.dump, term);
        if self.stats.lines == u64::MAX || !self.stats.room_for(links.as_slice()) {
            return None;
        }
        let mut stats = Stats {
            lines: self.stats.lines + 1,
            paths: self.stats.paths,
            urls: self.stats.urls,
            issues: self.stats.issues,
        };
        stats.count_links(links.as_slice());
        let ghost rec = LineRecord { input: buf@, answers };
        let ghost lines2 = self.lines@.push(rec);
        let ghost w2 = self.written@ + out@;
        proof {
            assert(lines2.drop_last() == v.lines);
            assert(lines2.last() == rec);
        }
        *self = Filter {
            active: self.active,
            dump: self.dump,
            stats,
            opts: self.opts,
            lines: Ghost(lines2),
            written: Ghost(w2),
        };
        Some(out)
    }
}

// ---------------------------------------------------------------------------
// Lines in, lines out
// ---------------------------------------------------------------------------

/// The terminator a raw line ends with: `\r\n`, `\n`, or none (at the end
/// of input).
pub open spec fn terminator_of(buf: Seq<u8>) -> Seq<u8> {
    if ends_with(buf, seq![0x0du8, 0x0a]) {
        seq![0x0du8, 0x0a]
    } else if ends_with(buf, seq![0x0au8]) {
        seq![0x0au8]
    } else {
        Seq::empty()
    }
}

/// Split a raw line into its body and terminator (`\n`, `\r\n`, or none at
/// EOF), preserving whichever the input used.
pub fn split_terminator(buf: &[u8]) -> (r: (&[u8], &[u8]))
    ensures
        r.1@ == terminator_of(buf@),
        r.0@ + r.1@ == buf@,
{
    let n = buf.len();
    let cut = if n >= 2 && buf[n - 2] == 0x0d && buf[n - 1] == 0x0a {
        n - 2
    } else if n >= 1 && buf[n - 1] == 0x0a {
        n - 1
    } else {
        n
    };
    let body = sub_bytes(buf, 0, cut);
    let term = sub_bytes(buf, cut, n);
    proof {
        if n >= 2 && buf@[n - 2] == 0x0d && buf@[n - 1] == 0x0a {
            assert(term@ =~= seq![0x0du8, 0x0a]);
            assert(ends_with(buf@, seq![0x0du8, 0x0a]));
        } else {
            if ends_with(buf@, seq![0x0du8, 0x0a]) {
                assert(buf@.subrange(n - 2, n as int)[0] == buf@[n - 2]);
                assert(buf@.subrange(n - 2, n as int)[1] == buf@[n - 1]);
            }
            if n >= 1 && buf@[n - 1] == 0x0a {
                assert(term@ =~= seq![0x0au8]);
                assert(ends_with(buf@, seq![0x0au8]));
            } else {
                if ends_with(buf@, seq![0x0au8]) {
                    assert(buf@.subrange(n - 1, n as int)[0] == buf@[n - 1]);
                }
                assert(term@ =~= Seq::<u8>::empty());
            }
        }
        assert(body@ + term@ =~= buf@);
    }
    (body, term)
}

/// How a raw line is handled: when linkifying is on and its body is valid
/// UTF-8, its text and terminator; otherwise it passes through untouched.
pub fn line_plan(buf: &[u8], active: bool) -> (r: Option<(&str, &[u8])>)
    ensures
        r is Some <==> active && valid_utf8(buf@.subrange(
            0,
            buf@.len() - terminator_of(buf@).len(),
        )),
        r matches Some(tt) ==> str_bytes(tt.0) + tt.1@ == buf@ && tt.1@ == terminator_of(buf@),
{
    let (body, term) = split_terminator(buf);
    proof {
        assert(body@ =~= buf@.subrange(0, buf@.len() - terminator_of(buf@).len()));
    }
    if !active {
        return None;
    }
    match str_from_utf8(body) {
        Some(text) => Some((text, term)),
        None => None,
    }
}

/// What a line that is not linkified turns into: the raw bytes as read, or
/// nothing with `dump`.
pub fn passthrough(buf: &[u8], dump: bool) -> (r: &[u8])
    ensures
        r@ == if dump {
            Seq::<u8>::empty()
        } else {
            buf@
        },
{
    if dump {
        sub_bytes(buf, 0, 0)
    } else {
        buf
    }
}

// ---------------------------------------------------------------------------
// Output mode
// ---------------------------------------------------------------------------

/// How output mode is decided.
#[derive(Debug, Clone, Copy, PartialEq, Eq, Structural)]
pub enum When {
    Auto,
    Always,
    Never,
}

/// Should this run rewrite lines with hyperlinks? `auto` does so when
/// stdout is a terminal whose `TERM` (if set) is not `dumb`.
pub fn linkify_enabled(when: When, stdout_is_terminal: bool, term: Option<&str>) -> (r: bool)
    ensures
        r == match when {
            When::Always => true,
            When::Never => false,
            When::Auto => stdout_is_terminal && !(term matches Some(t) && str_bytes(t) == str_bytes(
                "dumb",
            )),
        },
{
    match when {
        When::Always => true,
        When::Never => false,
        When::Auto => {
            let dumb = match term {
                Some(t) => same(slice_bytes(t), "dumb"),
                None => false,
            };
            stdout_is_terminal && !dumb
        },
    }
}

// ---------------------------------------------------------------------------
// Stats
// ---------------------------------------------------------------------------

/// How many links of kind `k` there are.
pub open spec fn count_kind(ls: Seq<LinkSpec>, k: Kind) -> nat
    decreases ls.len(),
{
    if ls.len() == 0 {
        0
    } else {
        count_kind(ls.drop_last(), k) + if ls.last().kind == k {
            1nat
        } else {
            0nat
        }
    }
}

/// Counts for the `--stats` summary.
pub struct Stats {
    pub lines: u64,
    pub paths: u64,
    pub urls: u64,
    pub issues: u64,
}

impl Default for Stats {
    fn default() -> (s: Stats)
        ensures
            s.lines == 0 && s.paths == 0 && s.urls == 0 && s.issues == 0,
    {
        Stats { lines: 0, paths: 0, urls: 0, issues: 0 }
    }
}

/// `1 line`, `2 lines`: every noun the stats summary uses pluralizes with
/// a plain `s`.
pub open spec fn plural_bytes(n: nat, noun: Seq<u8>) -> Seq<u8> {
    decimal(n) + seq![0x20u8] + noun + if n == 1 {
        Seq::<u8>::empty()
    } else {
        seq![0x73u8]
    }
}

/// The `--stats` summary line.
pub open spec fn summary_bytes(s: Stats) -> Seq<u8> {
    str_bytes("clickpipe: ") + plural_bytes(s.lines as nat, str_bytes("line")) + str_bytes(", ")
        + plural_bytes((s.paths + s.urls + s.issues) as nat, str_bytes("link")) + str_bytes(" (")
        + plural_bytes(s.paths as nat, str_bytes("path")) + str_bytes(", ") + plural_bytes(
        s.urls as nat,
        str_bytes("url"),
    ) + str_bytes(", ") + plural_bytes(s.issues as nat, str_bytes("issue")) + str_bytes(")")
}

fn push_plural(out: &mut Vec<u8>, n: u64, noun: &str)
    ensures
        final(out)@ == old(out)@ + plural_bytes(n as nat, str_bytes(noun)),
        valid_utf8(old(out)@) ==> valid_utf8(final(out)@),
{
    crate::text::push_number(out, n);
    crate::text::push_str(out, " ");
    crate::text::push_str(out, noun);
    if n != 1 {
        crate::text::push_str(out, "s");
    }
    proof {
        reveal_strlit(" ");
        reveal_strlit("s");
        lemma_ascii_lit(" ");
        lemma_ascii_lit("s");
        assert(str_bytes(" ") =~= seq![0x20u8]);
        assert(str_bytes("s") =~= seq![0x73u8]);
        assert(final(out)@ =~= old(out)@ + plural_bytes(n as nat, str_bytes(noun)));
    }
}

/// `1 line`, `2 lines`.
pub fn plural(n: u64, noun: &str) -> (r: String)
    ensures
        string_bytes(r) == plural_bytes(n as nat, str_bytes(noun)),
{
    let mut out: Vec<u8> = Vec::new();
    proof {
        lemma_ascii_valid(out@);
    }
    push_plural(&mut out, n, noun);
    bytes_to_string(out)
}

impl Stats {
    /// Count one more line.
    pub fn count_line(&mut self)
        requires
            old(self).lines < u64::MAX,
        ensures
            final(self).lines == old(self).lines + 1,
            final(self).paths == old(self).paths,
            final(self).urls == old(self).urls,
            final(self).issues == old(self).issues,
    {
        self.lines = self.lines + 1;
    }

    /// There is room to count `links` without overflow.
    pub open spec fn has_room(&self, links: Seq<LinkSpec>) -> bool {
        &&& self.paths + count_kind(links, Kind::Path) <= u64::MAX
        &&& self.urls + count_kind(links, Kind::Url) <= u64::MAX
        &&& self.issues + count_kind(links, Kind::Issue) <= u64::MAX
    }

    /// Whether [`Stats::count_links`] can count `links`.
    pub fn room_for(&self, links: &[Link]) -> (r: bool)
        ensures
            r == self.has_room(links_view(links@)),
    {
        let mut p: u64 = 0;
        let mut u: u64 = 0;
        let mut i: u64 = 0;
        let mut k: usize = 0;
        let ghost lv = links_view(links@);
        while k < links.len()
            invariant
                k <= links.len(),
                lv == links_view(links@),
                p == count_kind(lv.take(k as int), Kind::Path),
                u == count_kind(lv.take(k as int), Kind::Url),
                i == count_kind(lv.take(k as int), Kind::Issue),
                self.paths + p <= u64::MAX,
                self.urls + u <= u64::MAX,
                self.issues + i <= u64::MAX,
            decreases links.len() - k,
        {
            proof {
                assert(lv.take(k + 1).drop_last() =~= lv.take(k as int));
                assert(lv.take(k + 1).last() == links@[k as int]@);
            }
            match links[k].kind {
                Kind::Path => {
                    if self.paths == u64::MAX - p {
                        proof {
                            lemma_count_grows(lv, k + 1, Kind::Path);
                        }
                        return false;
                    }
                    p = p + 1;
                },
                Kind::Url => {
                    if self.urls == u64::MAX - u {
                        proof {
                            lemma_count_grows(lv, k + 1, Kind::Url);
                        }
                        return false;
                    }
                    u = u + 1;
                },
                Kind::Issue => {
                    if self.issues == u64::MAX - i {
                        proof {
                            lemma_count_grows(lv, k + 1, Kind::Issue);
                        }
                        return false;
                    }
                    i = i + 1;
                },
            }
            k = k + 1;
        }
        proof {
            assert(lv.take(links.len() as int) =~= lv);
        }
        true
    }

    /// Count the links of one line by kind.
    pub fn count_links(&mut self, links: &[Link])
        requires
            old(self).has_room(links_view(links@)),
        ensures
            final(self).lines == old(self).lines,
            final(self).paths == old(self).paths + count_kind(links_view(links@), Kind::Path),
            final(self).urls == old(self).urls + count_kind(links_view(links@), Kind::Url),
            final(self).issues == old(self).issues + count_kind(links_view(links@), Kind::Issue),
    {
        let ghost lv = links_view(links@);
        let mut k: usize = 0;
        while k < links.len()
            invariant
                k <= links.len(),
                lv == links_view(links@),
                self.lines == old(self).lines,
                self.paths == old(self).paths + count_kind(lv.take(k as int), Kind::Path),
                self.urls == old(self).urls + count_kind(lv.take(k as int), Kind::Url),
                self.issues == old(self).issues + count_kind(lv.take(k as int), Kind::Issue),
                old(self).has_room(lv),
            decreases links.len() - k,
        {
            proof {
                assert(lv.take(k + 1).drop_last() =~= lv.take(k as int));
                assert(lv.take(k + 1).last() == links@[k as int]@);
                lemma_count_grows(lv, k + 1, Kind::Path);
                lemma_count_grows(lv, k + 1, Kind::Url);
                lemma_count_grows(lv, k + 1, Kind::Issue);
            }
            match links[k].kind {
                Kind::Path => self.paths = self.paths + 1,
                Kind::Url => self.urls = self.urls + 1,
                Kind::Issue => self.issues = self.issues + 1,
            }
            k = k + 1;
        }
        proof {
            assert(lv.take(links.len() as int) =~= lv);
        }
    }

    /// The `--stats` line: `clickpipe: 2 lines, 3 links (1 path, 1 url,
    /// 1 issue)`.
    pub fn summary(&self) -> (r: String)
        requires
            self.paths + self.urls + self.issues <= u64::MAX,
        ensures
            string_bytes(r) == summary_bytes(*self),
    {
        let total = self.paths + self.urls + self.issues;
        let mut out: Vec<u8> = Vec::new();
        proof {
            lemma_ascii_valid(out@);
        }
        crate::text::push_str(&mut out, "clickpipe: ");
        push_plural(&mut out, self.lines, "line");
        crate::text::push_str(&mut out, ", ");
        push_plural(&mut out, total, "link");
        crate::text::push_str(&mut out, " (");
        push_plural(&mut out, self.paths, "path");
        crate::text::push_str(&mut out, ", ");
        push_plural(&mut out, self.urls, "url");
        crate::text::push_str(&mut out, ", ");
        push_plural(&mut out, self.issues, "issue");
        crate::text::push_str(&mut out, ")");
        proof {
            assert(out@ =~= summary_bytes(*self));
        }
        bytes_to_string(out)
    }
}

/// Counts only grow along a list.
proof fn lemma_count_grows(ls: Seq<LinkSpec>, n: int, k: Kind)
    requires
        0 <= n <= ls.len(),
    ensures
        count_kind(ls.take(n), k) <= count_kind(ls, k),
    decreases ls.len() - n,
{
    if n < ls.len() {
        lemma_count_grows(ls, n + 1, k);
        assert(ls.take(n + 1).drop_last() =~= ls.take(n));
    } else {
        assert(ls.take(n) =~= ls);
    }
}

// ---------------------------------------------------------------------------
// Flags
// ---------------------------------------------------------------------------

/// The settings the flags have given so far; `editor` is the `--editor`
/// argument as given.
pub struct ArgState {
    pub when: When,
    pub dump: bool,
    pub stats: bool,
    pub no_git: bool,
    pub check: bool,
    pub files: bool,
    pub urls: bool,
    pub issues: bool,
    pub cwd: Option<Seq<u8>>,
    pub host: Option<Seq<u8>>,
    pub issue_tpl: Option<Seq<u8>>,
    pub repo: Option<Seq<u8>>,
    pub editor: Option<Seq<u8>>,
    pub jira: Option<Seq<u8>>,
    pub forge: Seq<u8>,
    pub inputs: Seq<Seq<u8>>,
}

/// What a command line asks for.
pub enum ArgOutcome {
    Help,
    Version,
    Run(ArgState),
    Fail(Seq<u8>),
}

/// The settings before any flag.
pub open spec fn start_state() -> ArgState {
    ArgState {
        when: When::Auto,
        dump: false,
        stats: false,
        no_git: false,
        check: true,
        files: true,
        urls: true,
        issues: true,
        cwd: None,
        host: None,
        issue_tpl: None,
        repo: None,
        editor: None,
        jira: None,
        forge: str_bytes("https://github.com"),
        inputs: Seq::empty(),
    }
}

/// `--name=value` splits into the flag and its inline value; anything else
/// is a flag (or input) of its own.
#[verifier::opaque]
pub open spec fn split_flag(arg: Seq<u8>) -> (Seq<u8>, Option<Seq<u8>>) {
    match first_index(arg, 0x3d) {
        Some(k) => if starts_with(arg.subrange(0, k), str_bytes("--")) {
            (arg.subrange(0, k), Some(arg.subrange(k + 1, arg.len() as int)))
        } else {
            (arg, None)
        },
        None => (arg, None),
    }
}

/// The flags that take a value.
#[verifier::opaque]
pub open spec fn value_flag(f: Seq<u8>) -> bool {
    ||| f == str_bytes("--when")
    ||| f == str_bytes("--editor")
    ||| f == str_bytes("--cwd")
    ||| f == str_bytes("--host")
    ||| f == str_bytes("--issues")
    ||| f == str_bytes("--repo")
    ||| f == str_bytes("--jira")
    ||| f == str_bytes("--forge")
}

/// The flags that take no value.
#[verifier::opaque]
pub open spec fn switch_flag(f: Seq<u8>) -> bool {
    ||| f == str_bytes("--no-git")
    ||| f == str_bytes("--no-check")
    ||| f == str_bytes("--no-files")
    ||| f == str_bytes("--no-urls")
    ||| f == str_bytes("--no-issues")
    ||| f == str_bytes("--dump")
    ||| f == str_bytes("--stats")
}

#[verifier::opaque]
pub open spec fn with_switch(st: ArgState, f: Seq<u8>) -> ArgState {
    if f == str_bytes("--no-git") {
        ArgState { no_git: true, ..st }
    } else if f == str_bytes("--no-check") {
        ArgState { check: false, ..st }
    } else if f == str_bytes("--no-files") {
        ArgState { files: false, ..st }
    } else if f == str_bytes("--no-urls") {
        ArgState { urls: false, ..st }
    } else if f == str_bytes("--no-issues") {
        ArgState { issues: false, ..st }
    } else if f == str_bytes("--dump") {
        ArgState { dump: true, ..st }
    } else {
        ArgState { stats: true, ..st }
    }
}

/// `v` without its trailing `/` characters.
pub open spec fn without_trailing_slash(v: Seq<u8>) -> Seq<u8> {
    v.subrange(0, trail_run(v, 0x2f, 0, v.len() as int))
}

/// An `OWNER/NAME` shape: a `/` inside, not at either end.
pub open spec fn repo_shaped(r: Seq<u8>) -> bool {
    has_byte(r, 0x2f) && !starts_with(r, str_bytes("/")) && !ends_with(r, str_bytes("/"))
}

pub open spec fn requires_value_message(f: Seq<u8>) -> Seq<u8> {
    f + str_bytes(" requires a value")
}

pub open spec fn no_value_message(f: Seq<u8>) -> Seq<u8> {
    f + str_bytes(" does not take a value")
}

pub open spec fn invalid_when_message(v: Seq<u8>) -> Seq<u8> {
    str_bytes("invalid --when '") + v + str_bytes("' (auto|always|never)")
}

pub open spec fn bad_repo_message(v: Seq<u8>) -> Seq<u8> {
    str_bytes("--repo '") + v + str_bytes("' must look like OWNER/NAME")
}

pub open spec fn unknown_option_message(f: Seq<u8>) -> Seq<u8> {
    str_bytes("unknown option '") + f + str_bytes("'")
}

/// The effect of value flag `f` with value `v`.
#[verifier::opaque]
pub open spec fn with_value(st: ArgState, f: Seq<u8>, v: Seq<u8>) -> Result<ArgState, Seq<u8>> {
    if f == str_bytes("--when") {
        if v == str_bytes("auto") {
            Ok(ArgState { when: When::Auto, ..st })
        } else if v == str_bytes("always") {
            Ok(ArgState { when: When::Always, ..st })
        } else if v == str_bytes("never") {
            Ok(ArgState { when: When::Never, ..st })
        } else {
            Err(invalid_when_message(v))
        }
    } else if f == str_bytes("--editor") {
        if is_preset(v) || contains(v, str_bytes("{path}")) {
            Ok(ArgState { editor: Some(v), ..st })
        } else {
            Err(unknown_editor_message(v))
        }
    } else if f == str_bytes("--cwd") {
        Ok(ArgState { cwd: Some(v), ..st })
    } else if f == str_bytes("--host") {
        Ok(ArgState { host: Some(v), ..st })
    } else if f == str_bytes("--issues") {
        if contains(v, str_bytes("{id}")) {
            Ok(ArgState { issue_tpl: Some(v), ..st })
        } else {
            Err(str_bytes("--issues template must contain {id}"))
        }
    } else if f == str_bytes("--repo") {
        if repo_shaped(v) {
            Ok(ArgState { repo: Some(v), ..st })
        } else {
            Err(bad_repo_message(v))
        }
    } else if f == str_bytes("--jira") {
        Ok(ArgState { jira: Some(without_trailing_slash(v)), ..st })
    } else {
        Ok(ArgState { forge: without_trailing_slash(v), ..st })
    }
}

/// What reading argument `i` does: stop with an outcome, or go on at a
/// later argument with new settings.
pub enum ArgStep {
    Stop(ArgOutcome),
    Go(int, ArgState),
}

/// Read argument `i` of `args` with settings `st`: `-h`/`--help` and
/// `-V`/`--version` stop at once; a value flag takes its inline value or
/// the next argument; `-` and anything not starting with `-` are inputs.
pub open spec fn arg_step(args: Seq<Seq<u8>>, i: int, st: ArgState) -> ArgStep {
    let arg = args[i];
    let f = split_flag(arg).0;
    let inline = split_flag(arg).1;
    if f == str_bytes("-h") || f == str_bytes("--help") {
        ArgStep::Stop(
            if inline is Some {
                ArgOutcome::Fail(no_value_message(str_bytes("--help")))
            } else {
                ArgOutcome::Help
            },
        )
    } else if f == str_bytes("-V") || f == str_bytes("--version") {
        ArgStep::Stop(
            if inline is Some {
                ArgOutcome::Fail(no_value_message(str_bytes("--version")))
            } else {
                ArgOutcome::Version
            },
        )
    } else if value_flag(f) {
        match inline {
            Some(v) => match with_value(st, f, v) {
                Ok(st2) => ArgStep::Go(i + 1, st2),
                Err(m) => ArgStep::Stop(ArgOutcome::Fail(m)),
            },
            None => if i + 1 < args.len() {
                match with_value(st, f, args[i + 1]) {
                    Ok(st2) => ArgStep::Go(i + 2, st2),
                    Err(m) => ArgStep::Stop(ArgOutcome::Fail(m)),
                }
            } else {
                ArgStep::Stop(ArgOutcome::Fail(requires_value_message(f)))
            },
        }
    } else if switch_flag(f) {
        if inline is Some {
            ArgStep::Stop(ArgOutcome::Fail(no_value_message(f)))
        } else {
            ArgStep::Go(i + 1, with_switch(st, f))
        }
    } else if f == str_bytes("-") {
        ArgStep::Go(i + 1, ArgState { inputs: st.inputs.push(str_bytes("-")), ..st })
    } else if starts_with(f, str_bytes("-")) {
        ArgStep::Stop(ArgOutcome::Fail(unknown_option_message(f)))
    } else {
        ArgStep::Go(i + 1, ArgState { inputs: st.inputs.push(arg), ..st })
    }
}

/// The command line `args` from argument `i` on, with settings `st` so
/// far.
pub open spec fn parse_from(args: Seq<Seq<u8>>, i: int, st: ArgState) -> ArgOutcome
    decreases args.len() - i,
{
    if i < 0 || i >= args.len() {
        ArgOutcome::Run(st)
    } else {
        match arg_step(args, i, st) {
            ArgStep::Stop(o) => o,
            ArgStep::Go(n, st2) => if n > i {
                parse_from(args, n, st2)
            } else {
                ArgOutcome::Run(st2)
            },
        }
    }
}

/// Argument `i` is a value flag without an inline value, and nothing
/// follows it.
pub open spec fn lacks_its_value(args: Seq<Seq<u8>>, i: int) -> bool {
    &&& value_flag(split_flag(args[i]).0)
    &&& split_flag(args[i]).1 is None
    &&& i + 1 >= args.len()
}

/// Reading `args` from argument `i` stops at help, version or an error
/// before the end, and not for a value flag that lacks its value.
pub open spec fn decided_within(args: Seq<Seq<u8>>, i: int, st: ArgState) -> bool
    decreases args.len() - i,
{
    if i < 0 || i >= args.len() || lacks_its_value(args, i) {
        false
    } else {
        match arg_step(args, i, st) {
            ArgStep::Stop(_) => true,
            ArgStep::Go(n, st2) => n > i && decided_within(args, n, st2),
        }
    }
}

/// Law: help, version or an error decides at the first argument that
/// calls for it; the arguments after it play no part (unless that
/// argument is a value flag still waiting for its value).
pub proof fn first_deciding_argument_wins(
    args: Seq<Seq<u8>>,
    more: Seq<Seq<u8>>,
    i: int,
    st: ArgState,
)
    requires
        decided_within(args, i, st),
    ensures
        !(parse_from(args, i, st) is Run),
        parse_from(args + more, i, st) == parse_from(args, i, st),
    decreases args.len() - i,
{
    let all = args + more;
    assert(all[i] == args[i]);
    if i + 1 < args.len() {
        assert(all[i + 1] == args[i + 1]);
    }
    assert(arg_step(all, i, st) == arg_step(args, i, st));
    match arg_step(args, i, st) {
        ArgStep::Stop(_) => {},
        ArgStep::Go(n, st2) => {
            first_deciding_argument_wins(args, more, n, st2);
        },
    }
}

/// The flags of a command line that runs the filter.
pub struct Flags {
    pub when: When,
    pub dump: bool,
    pub stats: bool,
    pub no_git: bool,
    pub cwd: Option<String>,
    pub host: Option<String>,
    pub issue_tpl: Option<String>,
    pub repo: Option<String>,
    pub inputs: Vec<String>,
    pub opts: Options,
}

/// What the command line asks for.
pub enum Parsed {
    Help,
    Version,
    Run(Flags),
}

/// The bytes of a list of strings.
pub open spec fn strings_view(v: Seq<String>) -> Seq<Seq<u8>> {
    v.map_values(|s: String| string_bytes(s))
}

/// The editor matches the `--editor` argument given, if any.
pub open spec fn editor_agrees(arg: Option<Seq<u8>>, e: Option<Editor>) -> bool {
    match (arg, e) {
        (None, None) => true,
        (Some(a), Some(x)) => editor_matches(a, x),
        _ => false,
    }
}

/// `f` holds the settings `st`; the options the flags do not set keep
/// their defaults.
pub open spec fn agrees(st: ArgState, f: Flags) -> bool {
    &&& st.when == f.when
    &&& st.dump == f.dump
    &&& st.stats == f.stats
    &&& st.no_git == f.no_git
    &&& st.check == f.opts.check
    &&& st.files == f.opts.files
    &&& st.urls == f.opts.urls
    &&& st.issues == f.opts.issues
    &&& st.cwd == opt_bytes(f.cwd)
    &&& st.host == opt_bytes(f.host)
    &&& st.issue_tpl == opt_bytes(f.issue_tpl)
    &&& st.repo == opt_bytes(f.repo)
    &&& editor_agrees(st.editor, f.opts.editor)
    &&& st.jira == opt_bytes(f.opts.jira)
    &&& st.forge == string_bytes(f.opts.forge)
    &&& st.inputs == strings_view(f.inputs@)
    &&& string_bytes(f.opts.cwd) == str_bytes(".")
    &&& f.opts.home is None
    &&& string_bytes(f.opts.host) == Seq::<u8>::empty()
    &&& f.opts.issue_template is None
}

fn message(a: &str, b: &str, c: &str) -> (r: String)
    ensures
        string_bytes(r) == str_bytes(a) + str_bytes(b) + str_bytes(c),
{
    let mut out: Vec<u8> = Vec::new();
    proof {
        lemma_ascii_valid(out@);
    }
    crate::text::push_str(&mut out, a);
    crate::text::push_str(&mut out, b);
    crate::text::push_str(&mut out, c);
    bytes_to_string(out)
}

fn trim_trailing_slash(v: &str) -> (r: String)
    ensures
        string_bytes(r) == without_trailing_slash(str_bytes(v)),
{
    let b = slice_bytes(v);
    let e = trail_run_exec(b, 0x2f, 0);
    proof {
        lemma_ascii_edge(b@, e as int);
        lemma_ascii_edge(b@, 0);
    }
    crate::text::to_owned_string(sub_str(v, 0, e))
}

fn is_value_flag(f: &[u8]) -> (r: bool)
    ensures
        r == value_flag(f@),
{
    proof {
        reveal(value_flag);
    }
    same(f, "--when") || same(f, "--editor") || same(f, "--cwd") || same(f, "--host") || same(
        f,
        "--issues",
    ) || same(f, "--repo") || same(f, "--jira") || same(f, "--forge")
}

fn is_switch_flag(f: &[u8]) -> (r: bool)
    ensures
        r == switch_flag(f@),
{
    proof {
        reveal(switch_flag);
    }
    same(f, "--no-git") || same(f, "--no-check") || same(f, "--no-files") || same(f, "--no-urls")
        || same(f, "--no-issues") || same(f, "--dump") || same(f, "--stats")
}

fn set_switch(f: &mut Flags, flag: &[u8], st: Ghost<ArgState>)
    requires
        switch_flag(flag@),
        agrees(st@, *old(f)),
    ensures
        agrees(with_switch(st@, flag@), *final(f)),
{
    proof {
        reveal(with_switch);
        reveal(switch_flag);
    }
    if same(flag, "--no-git") {
        f.no_git = true;
    } else if same(flag, "--no-check") {
        f.opts.check = false;
    } else if same(flag, "--no-files") {
        f.opts.files = false;
    } else if same(flag, "--no-urls") {
        f.opts.urls = false;
    } else if same(flag, "--no-issues") {
        f.opts.issues = false;
    } else if same(flag, "--dump") {
        f.dump = true;
    } else {
        f.stats = true;
    }
}

fn set_value(f: &mut Flags, flag: &[u8], v: &str, st: Ghost<ArgState>) -> (r: Result<(), String>)
    requires
        value_flag(flag@),
        agrees(st@, *old(f)),
    ensures
        match with_value(st@, flag@, str_bytes(v)) {
            Ok(st2) => r is Ok && agrees(st2, *final(f)),
            Err(m) => r matches Err(e) && string_bytes(e) == m,
        },
{
    proof {
        reveal(with_value);
        reveal(value_flag);
    }
    let vb = slice_bytes(v);
    if same(flag, "--when") {
        if same(vb, "auto") {
            f.when = When::Auto;
        } else if same(vb, "always") {
            f.when = When::Always;
        } else if same(vb, "never") {
            f.when = When::Never;
        } else {
            return Err(message("invalid --when '", v, "' (auto|always|never)"));
        }
    } else if same(flag, "--editor") {
        match Editor::from_arg(v) {
            Ok(e) => {
                f.opts.editor = Some(e);
            },
            Err(m) => {
                return Err(m);
            },
        }
    } else if same(flag, "--cwd") {
        f.cwd = Some(crate::text::to_owned_string(v));
    } else if same(flag, "--host") {
        f.host = Some(crate::text::to_owned_string(v));
    } else if same(flag, "--issues") {
        if contains_bytes(vb, slice_bytes("{id}")) {
            f.issue_tpl = Some(crate::text::to_owned_string(v));
        } else {
            return Err(crate::text::to_owned_string("--issues template must contain {id}"));
        }
    } else if same(flag, "--repo") {
        let has_slash = find_slash(vb);
        if has_slash && !has_prefix(vb, slice_bytes("/")) && !has_suffix(vb, slice_bytes("/")) {
            f.repo = Some(crate::text::to_owned_string(v));
        } else {
            return Err(message("--repo '", v, "' must look like OWNER/NAME"));
        }
    } else if same(flag, "--jira") {
        f.opts.jira = Some(trim_trailing_slash(v));
    } else {
        f.opts.forge = trim_trailing_slash(v);
    }
    Ok(())
}

fn find_slash(b: &[u8]) -> (r: bool)
    ensures
        r == has_byte(b@, 0x2f),
{
    let mut k: usize = 0;
    while k < b.len()
        invariant
            k <= b.len(),
            forall|m: int| 0 <= m < k ==> b@[m] != 0x2f,
        decreases b.len() - k,
    {
        if b[k] == 0x2f {
            return true;
        }
        k = k + 1;
    }
    false
}

/// Where the flag part of an argument ends, and where its inline value
/// starts.
fn split_flag_exec(a: &[u8]) -> (r: (usize, Option<usize>))
    requires
        valid_utf8(a@),
    ensures
        r.0 <= a.len(),
        at_boundary(a@, r.0 as int),
        split_flag(a@).0 == a@.subrange(0, r.0 as int),
        match r.1 {
            Some(s) => s <= a.len() && at_boundary(a@, s as int) && split_flag(a@).1 == Some(
                a@.subrange(s as int, a@.len() as int),
            ),
            None => split_flag(a@).1 is None && r.0 == a.len(),
        },
{
    proof {
        reveal(split_flag);
        lemma_ascii_edge(a@, a@.len() as int);
        lemma_index_from(a@, 0x3d, 0);
    }
    let mut k: usize = 0;
    while k < a.len() && a[k] != 0x3d
        invariant
            k <= a.len(),
            index_from(a@, 0x3d, k as int) == first_index(a@, 0x3d),
        decreases a.len() - k,
    {
        k = k + 1;
    }
    if k < a.len() && has_prefix(sub_bytes(a, 0, k), slice_bytes("--")) {
        proof {
            lemma_ascii_edge(a@, k as int);
            lemma_ascii_edge(a@, k + 1);
        }
        (k, Some(k + 1))
    } else {
        proof {
            assert(a@.subrange(0, a@.len() as int) =~= a@);
        }
        (a.len(), None)
    }
}

/// One step of reading the command line.
enum Step {
    Next(usize),
    Help,
    Version,
    Fail(String),
}

/// Read argument `i` (and its value, where it takes the next argument).
#[verifier::rlimit(50)]
fn parse_step(argv: &Vec<String>, i: usize, flags: &mut Flags, st: Ghost<ArgState>) -> (r: (
    Step,
    Ghost<ArgState>,
))
    requires
        i < argv.len(),
        agrees(st@, *old(flags)),
    ensures
        match r.0 {
            Step::Next(n) => i < n <= argv.len() && agrees(r.1@, *final(flags)) && arg_step(
                strings_view(argv@),
                i as int,
                st@,
            ) == ArgStep::Go(n as int, r.1@),
            Step::Help => arg_step(strings_view(argv@), i as int, st@) == ArgStep::Stop(
                ArgOutcome::Help,
            ),
            Step::Version => arg_step(strings_view(argv@), i as int, st@) == ArgStep::Stop(
                ArgOutcome::Version,
            ),
            Step::Fail(m) => arg_step(strings_view(argv@), i as int, st@) == ArgStep::Stop(
                ArgOutcome::Fail(string_bytes(m)),
            ),
        },
{
    let ghost args = strings_view(argv@);
    proof {
        reveal_strlit("");
        lemma_ascii_lit("");
        assert(str_bytes("") =~= Seq::<u8>::empty());
    }
    let arg: &str = argv[i].as_str();
    let a = slice_bytes(arg);
    proof {
        assert(args[i as int] == str_bytes(arg));
    }
    let (fe, vs) = split_flag_exec(a);
    proof {
        lemma_ascii_edge(a@, 0);
    }
    let flag = sub_str(arg, 0, fe);
    let fb = slice_bytes(flag);
    let inline: Option<&str> = match vs {
        Some(s) => Some(sub_str(arg, s, a.len())),
        None => None,
    };
    if same(fb, "-h") || same(fb, "--help") {
        if inline.is_some() {
            return (Step::Fail(message("--help", " does not take a value", "")), st);
        }
        return (Step::Help, st);
    }
    if same(fb, "-V") || same(fb, "--version") {
        if inline.is_some() {
            return (Step::Fail(message("--version", " does not take a value", "")), st);
        }
        return (Step::Version, st);
    }
    if is_value_flag(fb) {
        let (v, next): (&str, usize) = match inline {
            Some(v) => (v, i + 1),
            None => {
                if i + 1 < argv.len() {
                    (argv[i + 1].as_str(), i + 2)
                } else {
                    return (Step::Fail(message(flag, " requires a value", "")), st);
                }
            },
        };
        proof {
            if inline is None {
                assert(args[i + 1] == str_bytes(v));
            }
        }
        match set_value(flags, fb, v, st) {
            Ok(()) => {},
            Err(m) => {
                return (Step::Fail(m), st);
            },
        }
        let ghost st2 = with_value(st@, fb@, str_bytes(v))->Ok_0;
        return (Step::Next(next), Ghost(st2));
    }
    if is_switch_flag(fb) {
        if inline.is_some() {
            return (Step::Fail(message(flag, " does not take a value", "")), st);
        }
        set_switch(flags, fb, st);
        return (Step::Next(i + 1), Ghost(with_switch(st@, fb@)));
    }
    if same(fb, "-") {
        let ghost before = flags.inputs@;
        flags.inputs.push(crate::text::to_owned_string("-"));
        let ghost st2 = ArgState { inputs: st@.inputs.push(str_bytes("-")), ..st@ };
        proof {
            assert(strings_view(flags.inputs@) =~= strings_view(before).push(str_bytes("-")));
        }
        return (Step::Next(i + 1), Ghost(st2));
    }
    proof {
        reveal_strlit("-");
        lemma_ascii_lit("-");
    }
    if fb.len() > 0 && fb[0] == 0x2d {
        proof {
            assert(fb@.subrange(0, 1) =~= str_bytes("-"));
        }
        return (Step::Fail(message("unknown option '", flag, "'")), st);
    }
    proof {
        if starts_with(fb@, str_bytes("-")) {
            assert(fb@.subrange(0, 1)[0] == fb@[0]);
        }
    }
    let ghost before = flags.inputs@;
    flags.inputs.push(crate::text::to_owned_string(arg));
    let ghost st2 = ArgState { inputs: st@.inputs.push(str_bytes(arg)), ..st@ };
    proof {
        assert(strings_view(flags.inputs@) =~= strings_view(before).push(str_bytes(arg)));
    }
    (Step::Next(i + 1), Ghost(st2))
}

/// Read the command line (without the program name).
pub fn parse_args(argv: Vec<String>) -> (r: Result<Parsed, String>)
    ensures
        match parse_from(strings_view(argv@), 0, start_state()) {
            ArgOutcome::Help => r matches Ok(Parsed::Help),
            ArgOutcome::Version => r matches Ok(Parsed::Version),
            ArgOutcome::Run(st) => r matches Ok(Parsed::Run(f)) && agrees(st, f),
            ArgOutcome::Fail(m) => r matches Err(e) && string_bytes(e) == m,
        },
{
    let ghost args = strings_view(argv@);
    let mut flags = Flags {
        when: When::Auto,
        dump: false,
        stats: false,
        no_git: false,
        cwd: None,
        host: None,
        issue_tpl: None,
        repo: None,
        inputs: Vec::new(),
        opts: Options::default(),
    };
    let mut st: Ghost<ArgState> = Ghost(start_state());
    proof {
        assert(strings_view(flags.inputs@) =~= Seq::<Seq<u8>>::empty());
    }
    let mut i: usize = 0;
    while i < argv.len()
        invariant
            args == strings_view(argv@),
            i <= argv.len(),
            agrees(st@, flags),
            parse_from(args, 0, start_state()) == parse_from(args, i as int, st@),
        decreases argv.len() - i,
    {
        let (step, st2) = parse_step(&argv, i, &mut flags, st);
        match step {
            Step::Next(n) => {
                i = n;
                st = st2;
            },
            Step::Help => {
                return Ok(Parsed::Help);
            },
            Step::Version => {
                return Ok(Parsed::Version);
            },
            Step::Fail(m) => {
                return Err(m);
            },
        }
    }
    Ok(Parsed::Run(flags))
}

// ---------------------------------------------------------------------------
// Configuration
// ---------------------------------------------------------------------------

/// The GitHub issue template for `--repo OWNER/NAME`.
pub open spec fn repo_template_bytes(repo: Seq<u8>) -> Seq<u8> {
    str_bytes("https://github.com/") + repo + str_bytes("/issues/{id}")
}

/// The GitHub issue template for `--repo OWNER/NAME`.
pub fn repo_template(repo: &str) -> (r: String)
    ensures
        string_bytes(r) == repo_template_bytes(str_bytes(repo)),
{
    message("https://github.com/", repo, "/issues/{id}")
}

/// The issue template of a run: `--issues`, else the one `--repo` names,
/// else (without `--no-git`) the one discovered from the git remote.
pub open spec fn chosen_template(
    issue_tpl: Option<Seq<u8>>,
    repo: Option<Seq<u8>>,
    no_git: bool,
    discovered: Option<Seq<u8>>,
) -> Option<Seq<u8>> {
    match issue_tpl {
        Some(t) => Some(t),
        None => match repo {
            Some(r) => Some(repo_template_bytes(r)),
            None => if no_git {
                None
            } else {
                discovered
            },
        },
    }
}

/// Whether the issue template has to be discovered from the git remote.
pub fn needs_discovery(f: &Flags) -> (r: bool)
    ensures
        r == (f.issue_tpl is None && f.repo is None && !f.no_git),
{
    f.issue_tpl.is_none() && f.repo.is_none() && !f.no_git
}

/// A run's configuration.
pub struct Config {
    pub when: When,
    pub dump: bool,
    pub stats: bool,
    pub inputs: Vec<String>,
    pub opts: Options,
}

fn either(a: Option<String>, b: Option<String>) -> (r: String)
    requires
        a is Some || b is Some,
    ensures
        string_bytes(r) == match a {
            Some(x) => string_bytes(x),
            None => string_bytes(b->Some_0),
        },
{
    match a {
        Some(x) => x,
        None => match b {
            Some(y) => y,
            None => String::new(),
        },
    }
}

/// Complete the flags with what the environment gave: the current
/// directory (needed without `--cwd`), the home directory, the machine's
/// name (needed without `--host`) and the discovered issue template.
pub fn configure(
    f: Flags,
    current_dir: Option<String>,
    home: Option<String>,
    machine_host: Option<String>,
    discovered: Option<String>,
) -> (c: Config)
    requires
        f.cwd is Some || current_dir is Some,
        f.host is Some || machine_host is Some,
    ensures
        c.when == f.when,
        c.dump == f.dump,
        c.stats == f.stats,
        c.inputs@ == f.inputs@,
        c.opts.files == f.opts.files,
        c.opts.urls == f.opts.urls,
        c.opts.issues == f.opts.issues,
        c.opts.check == f.opts.check,
        c.opts.editor == f.opts.editor,
        c.opts.jira == f.opts.jira,
        c.opts.forge == f.opts.forge,
        string_bytes(c.opts.cwd) == match f.cwd {
            Some(d) => string_bytes(d),
            None => string_bytes(current_dir->Some_0),
        },
        opt_bytes(c.opts.home) == opt_bytes(home),
        string_bytes(c.opts.host) == match f.host {
            Some(h) => string_bytes(h),
            None => string_bytes(machine_host->Some_0),
        },
        opt_bytes(c.opts.issue_template) == chosen_template(
            opt_bytes(f.issue_tpl),
            opt_bytes(f.repo),
            f.no_git,
            opt_bytes(discovered),
        ),
{
    let issue_template = match f.issue_tpl {
        Some(t) => Some(t),
        None => match &f.repo {
            Some(r) => Some(repo_template(r.as_str())),
            None => if f.no_git {
                None
            } else {
                discovered
            },
        },
    };
    let opts = Options {
        files: f.opts.files,
        urls: f.opts.urls,
        issues: f.opts.issues,
        check: f.opts.check,
        cwd: either(f.cwd, current_dir),
        home,
        host: either(f.host, machine_host),
        editor: f.opts.editor,
        issue_template,
        forge: f.opts.forge,
        jira: f.opts.jira,
    };
    Config { when: f.when, dump: f.dump, stats: f.stats, inputs: f.inputs, opts }
}

/// Whether lines are linkified at all: always with `--dump`, else as
/// [`linkify_enabled`] decides.
pub fn is_active(c: &Config, stdout_is_terminal: bool, term: Option<&str>) -> (r: bool)
    ensures
        r == (c.dump || match c.when {
            When::Always => true,
            When::Never => false,
            When::Auto => stdout_is_terminal && !(term matches Some(t) && str_bytes(t) == str_bytes(
                "dumb",
            )),
        }),
{
    c.dump || linkify_enabled(c.when, stdout_is_terminal, term)
}

} // verus!




