//! ANSI-aware line model.
//!
//! Real command output is full of SGR color codes, and colored text is
//! exactly where links matter most (compiler errors). This module splits a
//! line into escape-sequence and plain-text pieces so the detectors can run
//! over the *visible* text, then re-emits the line's own bytes with OSC 8
//! wrappers inserted at the right plain-text offsets. Escape sequences,
//! including color changes in the middle of a matched path, pass through
//! untouched, and regions already inside an OSC 8 hyperlink (e.g. from
//! `ls --hyperlink`) are reported as taken so they are never double-wrapped.
use crate::osc8::{close_bytes, lemma_close_bytes, open_bytes, push_close, push_open, sanitized};
use crate::scan::{all_fit, in_order, links_view, spans_view, Link, LinkSpec};
use crate::text::{
    all_ascii, at_boundary, bytes_of, bytes_to_string, is_ascii_byte, lemma_after_ascii,
    lemma_ascii_valid, lemma_encode_printable, lemma_valid_between, push_range, slice_bytes,
    str_bytes, string_bytes, Keep,
};
use vstd::prelude::*;
use vstd::utf8::*;

verus! {

// ---------------------------------------------------------------------------
// Escape sequences
// ---------------------------------------------------------------------------

/// End of a run of bytes in `lo..=hi` starting at `j`.
pub open spec fn run_in(b: Seq<u8>, j: int, lo: u8, hi: u8) -> int
    decreases b.len() - j,
{
    if j < 0 || j >= b.len() || !(lo <= b[j] <= hi) {
        j
    } else {
        run_in(b, j + 1, lo, hi)
    }
}

/// End of an OSC/DCS/SOS/PM/APC body starting at `j`: after BEL, after
/// ST (`ESC \`), or at an ESC that starts a new sequence.
pub open spec fn string_end(b: Seq<u8>, j: int) -> int
    decreases b.len() - j,
{
    if j < 0 || j >= b.len() {
        j
    } else if b[j] == 0x07 {
        j + 1
    } else if b[j] == 0x1b {
        if j + 1 < b.len() && b[j + 1] == 0x5c {
            j + 2
        } else {
            j
        }
    } else {
        string_end(b, j + 1)
    }
}

/// One past the end of the escape sequence starting at the ESC at `i`.
pub open spec fn esc_end(b: Seq<u8>, i: int) -> int {
    if i + 1 >= b.len() {
        i + 1
    } else {
        let c = b[i + 1];
        if c == 0x5b {
            let j = run_in(b, i + 2, 0x20, 0x3f);
            if j < b.len() && 0x40 <= b[j] <= 0x7e {
                j + 1
            } else {
                j
            }
        } else if c == 0x5d || c == 0x50 || c == 0x58 || c == 0x5e || c == 0x5f {
            string_end(b, i + 2)
        } else if 0x20 <= c <= 0x2f {
            let j = run_in(b, i + 1, 0x20, 0x2f);
            if j < b.len() && 0x30 <= b[j] <= 0x7e {
                j + 1
            } else {
                j
            }
        } else if 0x30 <= c <= 0x7e {
            i + 2
        } else {
            i + 1
        }
    }
}

/// `ESC ] 8 ;`
pub open spec fn osc8_lead() -> Seq<u8> {
    seq![0x1bu8, 0x5d, 0x38, 0x3b]
}

/// First `;` in `s`, or -1.
pub open spec fn first_semicolon(s: Seq<u8>, k: int) -> int
    decreases s.len() - k,
{
    if k < 0 || k >= s.len() {
        -1
    } else if s[k] == 0x3b {
        k
    } else {
        first_semicolon(s, k + 1)
    }
}

/// If `seq` is an OSC 8 sequence, its URI part (empty for a closer): the
/// body after `ESC ] 8 ;` without its terminator, after the params field.
pub open spec fn osc8_uri(seq: Seq<u8>) -> Option<Seq<u8>> {
    if !(seq.len() >= 4 && seq.subrange(0, 4) == osc8_lead()) {
        None
    } else {
        let body = seq.subrange(4, seq.len() as int);
        let n = body.len() as int;
        let body2 = if n >= 2 && body[n - 2] == 0x1b && body[n - 1] == 0x5c {
            body.subrange(0, n - 2)
        } else if n >= 1 && body[n - 1] == 0x07 {
            body.subrange(0, n - 1)
        } else {
            body
        };
        let k = first_semicolon(body2, 0);
        if k < 0 {
            None
        } else {
            Some(body2.subrange(k + 1, body2.len() as int))
        }
    }
}

// ---------------------------------------------------------------------------
// The line model
// ---------------------------------------------------------------------------

/// A piece of a line, by byte range in the line.
pub enum PieceSpec {
    /// Visible text; `plain_start` is its offset in the plain text.
    Text { start: int, end: int, plain_start: int },
    /// An escape sequence, passed through verbatim.
    Esc { start: int, end: int },
}

/// The state of the left-to-right split of a line.
pub struct Split {
    pub pieces: Seq<PieceSpec>,
    pub plain: Seq<u8>,
    pub taken: Seq<(int, int)>,
    /// Plain offset where a pre-existing hyperlink was opened.
    pub open: Option<int>,
}

/// End of the visible run starting at `j` (the next ESC or the end).
pub open spec fn text_end(b: Seq<u8>, j: int) -> int
    decreases b.len() - j,
{
    if j < 0 || j >= b.len() || b[j] == 0x1b {
        j
    } else {
        text_end(b, j + 1)
    }
}

/// Close a pre-existing hyperlink: a non-empty opened region is taken.
pub open spec fn close_region(st: Split) -> Split {
    match st.open {
        Some(s) => Split {
            taken: if st.plain.len() > s {
                st.taken.push((s, st.plain.len() as int))
            } else {
                st.taken
            },
            open: None,
            ..st
        },
        None => st,
    }
}

/// The effect of the escape sequence `[i, e)`.
pub open spec fn esc_step(b: Seq<u8>, i: int, e: int, st: Split) -> Split {
    let st2 = match osc8_uri(b.subrange(i, e)) {
        Some(u) => if u.len() == 0 {
            close_region(st)
        } else {
            Split { open: Some(st.plain.len() as int), ..st }
        },
        None => st,
    };
    Split { pieces: st2.pieces.push(PieceSpec::Esc { start: i, end: e }), ..st2 }
}

/// The effect of the visible run `[i, j)`.
pub open spec fn text_step(b: Seq<u8>, i: int, j: int, st: Split) -> Split {
    Split {
        pieces: st.pieces.push(
            PieceSpec::Text { start: i, end: j, plain_start: st.plain.len() as int },
        ),
        plain: st.plain + b.subrange(i, j),
        ..st
    }
}

pub proof fn lemma_run_in(b: Seq<u8>, j: int, lo: u8, hi: u8)
    requires
        0 <= j <= b.len(),
    ensures
        j <= run_in(b, j, lo, hi) <= b.len(),
        forall|k: int| j <= k < run_in(b, j, lo, hi) ==> lo <= #[trigger] b[k] <= hi,
        run_in(b, j, lo, hi) < b.len() ==> !(lo <= b[run_in(b, j, lo, hi)] <= hi),
    decreases b.len() - j,
{
    if j < b.len() && lo <= b[j] <= hi {
        lemma_run_in(b, j + 1, lo, hi);
    }
}

pub proof fn lemma_string_end(b: Seq<u8>, j: int)
    requires
        0 <= j <= b.len(),
    ensures
        j <= string_end(b, j) <= b.len(),
        string_end(b, j) == b.len() || (string_end(b, j) > j && is_ascii_byte(
            b[string_end(b, j) - 1],
        )) || b[string_end(b, j)] == 0x1b,
    decreases b.len() - j,
{
    if j < b.len() && b[j] != 0x07 && b[j] != 0x1b {
        lemma_string_end(b, j + 1);
    }
}

/// An escape sequence is non-empty, within the line, and ends on a
/// character boundary (after an ASCII byte, at an ESC, or at the end).
pub proof fn lemma_esc_end(b: Seq<u8>, i: int)
    requires
        0 <= i < b.len(),
        b[i] == 0x1b,
    ensures
        i < esc_end(b, i) <= b.len(),
        esc_end(b, i) == b.len() || is_ascii_byte(b[esc_end(b, i) - 1]) || b[esc_end(b, i)]
            == 0x1b,
{
    if i + 1 < b.len() {
        let c = b[i + 1];
        if c == 0x5b {
            lemma_run_in(b, i + 2, 0x20, 0x3f);
        } else if c == 0x5d || c == 0x50 || c == 0x58 || c == 0x5e || c == 0x5f {
            lemma_string_end(b, i + 2);
        } else if 0x20 <= c <= 0x2f {
            lemma_run_in(b, i + 1, 0x20, 0x2f);
        }
    }
}

/// Law: an escape sequence of valid text ends past its ESC and on a
/// character boundary, so cutting it out never splits a character.
pub proof fn escape_ends_on_a_boundary(b: Seq<u8>, i: int)
    requires
        valid_utf8(b),
        0 <= i < b.len(),
        b[i] == 0x1b,
    ensures
        i < esc_end(b, i) <= b.len(),
        at_boundary(b, esc_end(b, i)),
{
    lemma_esc_end(b, i);
    let e = esc_end(b, i);
    if e < b.len() && is_ascii_byte(b[e - 1]) {
        lemma_after_ascii(b, e);
    }
}

pub proof fn lemma_text_end(b: Seq<u8>, j: int)
    requires
        0 <= j <= b.len(),
    ensures
        j <= text_end(b, j) <= b.len(),
        forall|k: int| j <= k < text_end(b, j) ==> #[trigger] b[k] != 0x1b,
        text_end(b, j) < b.len() ==> b[text_end(b, j)] == 0x1b,
    decreases b.len() - j,
{
    if j < b.len() && b[j] != 0x1b {
        lemma_text_end(b, j + 1);
    }
}

/// The split of `b` from byte `i` on, starting in state `st`.
pub open spec fn split_from(b: Seq<u8>, i: int, st: Split) -> Split
    decreases b.len() - i,
{
    if i < 0 || i >= b.len() {
        st
    } else if b[i] == 0x1b {
        proof {
            lemma_esc_end(b, i);
        }
        let e = esc_end(b, i);
        split_from(b, e, esc_step(b, i, e, st))
    } else {
        proof {
            lemma_text_end(b, i + 1);
        }
        let j = text_end(b, i + 1);
        split_from(b, j, text_step(b, i, j, st))
    }
}

pub open spec fn empty_split() -> Split {
    Split { pieces: Seq::empty(), plain: Seq::empty(), taken: Seq::empty(), open: None }
}

/// The split of a whole line; an unclosed link still owns the rest of the
/// line.
pub open spec fn split_line(b: Seq<u8>) -> Split {
    close_region(split_from(b, 0, empty_split()))
}

/// The value of a parsed line: its bytes and their split.
pub struct LineModel {
    pub line: Seq<u8>,
    pub pieces: Seq<PieceSpec>,
    pub plain: Seq<u8>,
    pub taken: Seq<(int, int)>,
}

pub open spec fn line_model(b: Seq<u8>) -> LineModel {
    let s = split_line(b);
    LineModel { line: b, pieces: s.pieces, plain: s.plain, taken: s.taken }
}

// ---------------------------------------------------------------------------
// Shape of a split: the pieces tile the line, the text pieces make up the
// plain text in order.
// ---------------------------------------------------------------------------

pub open spec fn piece_start(p: PieceSpec) -> int {
    match p {
        PieceSpec::Text { start, .. } => start,
        PieceSpec::Esc { start, .. } => start,
    }
}

pub open spec fn piece_end(p: PieceSpec) -> int {
    match p {
        PieceSpec::Text { end, .. } => end,
        PieceSpec::Esc { end, .. } => end,
    }
}

/// Number of visible bytes in a piece.
pub open spec fn text_len(p: PieceSpec) -> int {
    match p {
        PieceSpec::Text { start, end, .. } => end - start,
        PieceSpec::Esc { .. } => 0,
    }
}

/// Plain offset reached after the first `k` pieces.
pub open spec fn plain_pos(pieces: Seq<PieceSpec>, k: int) -> int
    decreases k,
{
    if k <= 0 || k > pieces.len() {
        0
    } else {
        plain_pos(pieces, k - 1) + text_len(pieces[k - 1])
    }
}

/// Piece `k` is a non-empty range that starts where the previous one ended;
/// a text piece is its stretch of the plain text and runs up to an ESC or
/// the end; an escape starts at ESC and ends on a character boundary.
pub open spec fn piece_fits(b: Seq<u8>, pieces: Seq<PieceSpec>, plain: Seq<u8>, k: int) -> bool {
    let p = pieces[k];
    &&& 0 <= piece_start(p) < piece_end(p) <= b.len()
    &&& piece_start(p) == if k == 0 {
        0
    } else {
        piece_end(pieces[k - 1])
    }
    &&& match p {
        PieceSpec::Text { start, end, plain_start } => {
            &&& plain_start == plain_pos(pieces, k)
            &&& 0 <= plain_start <= start
            &&& plain_start + (end - start) <= plain.len()
            &&& plain.subrange(plain_start, plain_start + (end - start)) == b.subrange(start, end)
            &&& (end == b.len() || b[end] == 0x1b)
            &&& forall|t: int| start <= t < end ==> #[trigger] b[t] != 0x1b
        },
        PieceSpec::Esc { start, end } => {
            &&& b[start] == 0x1b
            &&& end == esc_end(b, start)
            &&& (end == b.len() || is_ascii_byte(b[end - 1]) || b[end] == 0x1b)
        },
    }
}

/// The pieces tile `b[0..i)` and their text makes up `plain`.
pub open spec fn tiled(b: Seq<u8>, pieces: Seq<PieceSpec>, plain: Seq<u8>, i: int) -> bool {
    &&& 0 <= i <= b.len()
    &&& if pieces.len() == 0 {
        i == 0
    } else {
        piece_end(pieces.last()) == i
    }
    &&& plain.len() == plain_pos(pieces, pieces.len() as int)
    &&& plain.len() <= i
    &&& forall|k: int| 0 <= k < pieces.len() ==> #[trigger] piece_fits(b, pieces, plain, k)
}

proof fn lemma_plain_pos_push(pieces: Seq<PieceSpec>, p: PieceSpec, k: int)
    requires
        0 <= k <= pieces.len(),
    ensures
        plain_pos(pieces.push(p), k) == plain_pos(pieces, k),
    decreases k,
{
    if k > 0 {
        lemma_plain_pos_push(pieces, p, k - 1);
        assert(pieces.push(p)[k - 1] == pieces[k - 1]);
    }
}

proof fn lemma_push_piece(b: Seq<u8>, pieces: Seq<PieceSpec>, plain: Seq<u8>, i: int, p: PieceSpec, plain2: Seq<u8>)
    requires
        tiled(b, pieces, plain, i),
        piece_start(p) == i,
        i < piece_end(p) <= b.len(),
        plain2.len() == plain.len() + text_len(p),
        plain2.subrange(0, plain.len() as int) == plain,
        match p {
            PieceSpec::Text { start, end, plain_start } => {
                &&& plain_start == plain.len()
                &&& plain2.subrange(plain_start, plain_start + (end - start)) == b.subrange(start, end)
                &&& (end == b.len() || b[end] == 0x1b)
                &&& forall|t: int| start <= t < end ==> #[trigger] b[t] != 0x1b
            },
            PieceSpec::Esc { start, end } => {
                &&& b[start] == 0x1b
                &&& end == esc_end(b, start)
                &&& (end == b.len() || is_ascii_byte(b[end - 1]) || b[end] == 0x1b)
            },
        },
    ensures
        tiled(b, pieces.push(p), plain2, piece_end(p)),
{
    let ps = pieces.push(p);
    let n = pieces.len() as int;
    lemma_plain_pos_push(pieces, p, n);
    assert forall|k: int| 0 <= k < ps.len() implies #[trigger] piece_fits(b, ps, plain2, k) by {
        if k < n {
            assert(piece_fits(b, pieces, plain, k));
            assert(ps[k] == pieces[k]);
            if k > 0 {
                assert(ps[k - 1] == pieces[k - 1]);
            }
            lemma_plain_pos_push(pieces, p, k);
            match pieces[k] {
                PieceSpec::Text { start, end, plain_start } => {
                    assert(plain2.subrange(plain_start, plain_start + (end - start))
                        =~= plain.subrange(plain_start, plain_start + (end - start)));
                },
                PieceSpec::Esc { .. } => {},
            }
        } else {
            assert(ps[k] == p);
            if k > 0 {
                assert(ps[k - 1] == pieces.last());
            }
        }
    }
}

proof fn lemma_split_tiled(b: Seq<u8>, i: int, st: Split)
    requires
        tiled(b, st.pieces, st.plain, i),
    ensures
        tiled(b, split_from(b, i, st).pieces, split_from(b, i, st).plain, b.len() as int),
    decreases b.len() - i,
{
    if i < b.len() {
        if b[i] == 0x1b {
            lemma_esc_end(b, i);
            let e = esc_end(b, i);
            let st2 = esc_step(b, i, e, st);
            assert(st2.plain == st.plain);
            assert(st2.plain.subrange(0, st.plain.len() as int) =~= st.plain);
            lemma_push_piece(b, st.pieces, st.plain, i, PieceSpec::Esc { start: i, end: e }, st2.plain);
            lemma_split_tiled(b, e, st2);
        } else {
            lemma_text_end(b, i + 1);
            let j = text_end(b, i + 1);
            let st2 = text_step(b, i, j, st);
            assert(st2.plain.subrange(0, st.plain.len() as int) =~= st.plain);
            assert(st2.plain.subrange(st.plain.len() as int, st.plain.len() + (j - i))
                =~= b.subrange(i, j));
            lemma_push_piece(
                b,
                st.pieces,
                st.plain,
                i,
                PieceSpec::Text { start: i, end: j, plain_start: st.plain.len() as int },
                st2.plain,
            );
            lemma_split_tiled(b, j, st2);
        }
    }
}

/// The pieces of a parsed line tile it, and their visible text makes up its
/// plain text.
pub proof fn lemma_line_tiled(b: Seq<u8>)
    ensures
        tiled(b, line_model(b).pieces, line_model(b).plain, b.len() as int),
{
    lemma_split_tiled(b, 0, empty_split());
}

/// The taken ranges are non-empty spans of the plain text, in order and
/// apart; an open region starts after all of them.
pub open spec fn taken_ordered(taken: Seq<(int, int)>, len: int) -> bool {
    &&& forall|i: int| 0 <= i < taken.len() ==> 0 <= (#[trigger] taken[i]).0 < taken[i].1 <= len
    &&& forall|i: int, j: int| 0 <= i < j < taken.len() ==> (#[trigger] taken[i]).1 <= (
    #[trigger] taken[j]).0
}

spec fn split_ordered(st: Split) -> bool {
    &&& taken_ordered(st.taken, st.plain.len() as int)
    &&& st.open matches Some(o) ==> {
        &&& 0 <= o <= st.plain.len()
        &&& forall|i: int| 0 <= i < st.taken.len() ==> (#[trigger] st.taken[i]).1 <= o
    }
}

proof fn lemma_close_ordered(st: Split)
    requires
        split_ordered(st),
    ensures
        split_ordered(close_region(st)),
        close_region(st).plain == st.plain,
{
    if let Some(o) = st.open {
        if st.plain.len() > o {
            let t = st.taken.push((o, st.plain.len() as int));
            assert forall|i: int, j: int| 0 <= i < j < t.len() implies (#[trigger] t[i]).1 <= (
            #[trigger] t[j]).0 by {
                if j == t.len() - 1 {
                    assert(st.taken[i] == t[i]);
                } else {
                    assert(st.taken[i] == t[i]);
                    assert(st.taken[j] == t[j]);
                }
            }
            assert forall|i: int| 0 <= i < t.len() implies 0 <= (#[trigger] t[i]).0 < t[i].1
                <= st.plain.len() by {
                if i < t.len() - 1 {
                    assert(st.taken[i] == t[i]);
                }
            }
        }
    }
}

proof fn lemma_split_ordered(b: Seq<u8>, i: int, st: Split)
    requires
        split_ordered(st),
    ensures
        split_ordered(split_from(b, i, st)),
    decreases b.len() - i,
{
    if 0 <= i < b.len() {
        if b[i] == 0x1b {
            lemma_esc_end(b, i);
            let e = esc_end(b, i);
            lemma_close_ordered(st);
            lemma_split_ordered(b, e, esc_step(b, i, e, st));
        } else {
            lemma_text_end(b, i + 1);
            let j = text_end(b, i + 1);
            lemma_split_ordered(b, j, text_step(b, i, j, st));
        }
    }
}

/// Law: the regions of a line that are already inside a hyperlink are
/// non-empty spans of its plain text, in order and disjoint.
pub proof fn taken_regions_are_ordered(b: Seq<u8>)
    ensures
        taken_ordered(line_model(b).taken, line_model(b).plain.len() as int),
{
    lemma_split_ordered(b, 0, empty_split());
    lemma_close_ordered(split_from(b, 0, empty_split()));
}

proof fn lemma_text_end_no_esc(b: Seq<u8>, j: int)
    requires
        0 <= j <= b.len(),
        forall|k: int| 0 <= k < b.len() ==> b[k] != 0x1b,
    ensures
        text_end(b, j) == b.len(),
    decreases b.len() - j,
{
    if j < b.len() {
        lemma_text_end_no_esc(b, j + 1);
    }
}

/// Law: a line without escape sequences is its own plain text, and no part
/// of it is taken.
pub proof fn plain_line_is_its_own_text(b: Seq<u8>)
    requires
        forall|k: int| 0 <= k < b.len() ==> b[k] != 0x1b,
    ensures
        line_model(b).plain == b,
        line_model(b).taken.len() == 0,
{
    if b.len() > 0 {
        lemma_text_end_no_esc(b, 1);
        let st = text_step(b, 0, b.len() as int, empty_split());
        assert(split_from(b, 0, empty_split()) == split_from(b, b.len() as int, st));
        assert(b.subrange(0, b.len() as int) =~= b);
        assert(Seq::<u8>::empty() + b =~= b);
    }
}

// ---------------------------------------------------------------------------
// Rendering
// ---------------------------------------------------------------------------

/// A link that `render` accepts for the plain text `p`: a span between
/// character boundaries (an empty one is wrapped around nothing).
pub open spec fn link_within(p: Seq<u8>, l: LinkSpec) -> bool {
    &&& l.start <= l.end
    &&& at_boundary(p, l.start)
    &&& at_boundary(p, l.end)
}

/// Links that `render` accepts for a line with plain text `plain`: spans
/// between character boundaries, sorted by start and not overlapping.
pub open spec fn renderable(plain: Seq<u8>, links: Seq<LinkSpec>) -> bool {
    &&& forall|k: int| 0 <= k < links.len() ==> link_within(plain, #[trigger] links[k])
    &&& in_order(links)
}

/// What a link puts before the visible byte at plain offset `q`: its
/// opener when it starts there, and its closer as well when it is empty.
pub open spec fn open_part(l: LinkSpec, q: int) -> Seq<u8> {
    if l.start == q {
        open_bytes(l.href) + if l.end == q {
            close_bytes()
        } else {
            Seq::empty()
        }
    } else {
        Seq::empty()
    }
}

/// What a link puts after the visible bytes up to plain offset `q`: its
/// closer when it is non-empty and ends there.
pub open spec fn close_part(l: LinkSpec, q: int) -> Seq<u8> {
    if l.start < q && l.end == q {
        close_bytes()
    } else {
        Seq::empty()
    }
}

/// What the links put before the visible byte at plain offset `q`.
pub open spec fn opens_at(links: Seq<LinkSpec>, q: int) -> Seq<u8>
    decreases links.len(),
{
    if links.len() == 0 {
        Seq::empty()
    } else {
        opens_at(links.drop_last(), q) + open_part(links.last(), q)
    }
}

/// What the links put after the visible bytes up to plain offset `q`.
pub open spec fn closes_at(links: Seq<LinkSpec>, q: int) -> Seq<u8>
    decreases links.len(),
{
    if links.len() == 0 {
        Seq::empty()
    } else {
        closes_at(links.drop_last(), q) + close_part(links.last(), q)
    }
}

/// The first `n` visible bytes of a text piece that starts at byte `s` of
/// the line and at offset `p` of the plain text, each preceded by the
/// openers of the links that start at it and followed by the closers of
/// the links that end after it.
pub open spec fn render_text(line: Seq<u8>, links: Seq<LinkSpec>, s: int, p: int, n: int) -> Seq<u8>
    decreases n,
{
    if n <= 0 {
        Seq::empty()
    } else {
        render_text(line, links, s, p, n - 1) + opens_at(links, p + n - 1) + seq![line[s + n - 1]]
            + closes_at(links, p + n)
    }
}

/// A piece in the output: an escape sequence verbatim, text with its links.
pub open spec fn render_piece(line: Seq<u8>, links: Seq<LinkSpec>, piece: PieceSpec) -> Seq<u8> {
    match piece {
        PieceSpec::Esc { start, end } => line.subrange(start, end),
        PieceSpec::Text { start, end, plain_start } => render_text(
            line,
            links,
            start,
            plain_start,
            end - start,
        ),
    }
}

/// The first `k` pieces in the output.
pub open spec fn render_pieces(line: Seq<u8>, pieces: Seq<PieceSpec>, links: Seq<LinkSpec>, k: int) -> Seq<u8>
    decreases k,
{
    if k <= 0 || k > pieces.len() {
        Seq::empty()
    } else {
        render_pieces(line, pieces, links, k - 1) + render_piece(line, links, pieces[k - 1])
    }
}

/// The line with OSC 8 wrappers around `links`: the line's bytes in
/// order, each visible byte preceded by what the links put before it
/// (the opener of a link that starts there, and its closer too when the
/// link is empty) and followed by the closer of a non-empty link that ends
/// after it.
pub open spec fn rendered(m: LineModel, links: Seq<LinkSpec>) -> Seq<u8> {
    render_pieces(m.line, m.pieces, links, m.pieces.len() as int)
}

proof fn lemma_opens_concat(x: Seq<LinkSpec>, y: Seq<LinkSpec>, q: int)
    ensures
        opens_at(x + y, q) == opens_at(x, q) + opens_at(y, q),
    decreases y.len(),
{
    if y.len() == 0 {
        assert(x + y =~= x);
        assert(opens_at(x, q) + Seq::<u8>::empty() =~= opens_at(x, q));
    } else {
        assert((x + y).drop_last() =~= x + y.drop_last());
        assert((x + y).last() == y.last());
        lemma_opens_concat(x, y.drop_last(), q);
        assert(opens_at(x, q) + opens_at(y.drop_last(), q) + open_part(y.last(), q) =~= opens_at(
            x,
            q,
        ) + (opens_at(y.drop_last(), q) + open_part(y.last(), q)));
    }
}

proof fn lemma_opens_none(x: Seq<LinkSpec>, q: int)
    requires
        forall|k: int| 0 <= k < x.len() ==> (#[trigger] x[k]).start != q,
    ensures
        opens_at(x, q) == Seq::<u8>::empty(),
    decreases x.len(),
{
    if x.len() > 0 {
        assert forall|k: int| 0 <= k < x.drop_last().len() implies (
        #[trigger] x.drop_last()[k]).start != q by {
            assert(x.drop_last()[k] == x[k]);
        }
        lemma_opens_none(x.drop_last(), q);
        assert(x[x.len() - 1].start != q);
        assert(Seq::<u8>::empty() + Seq::<u8>::empty() =~= Seq::<u8>::empty());
    }
}

proof fn lemma_closes_only(links: Seq<LinkSpec>, q: int, k: int)
    requires
        forall|j: int|
            0 <= j < links.len() && j != k ==> !((#[trigger] links[j]).start < q && links[j].end
                == q),
    ensures
        closes_at(links, q) == if 0 <= k < links.len() {
            close_part(links[k], q)
        } else {
            Seq::<u8>::empty()
        },
    decreases links.len(),
{
    if links.len() > 0 {
        let n = links.len() - 1;
        assert forall|j: int| 0 <= j < links.drop_last().len() && j != k implies !((
        #[trigger] links.drop_last()[j]).start < q && links.drop_last()[j].end == q) by {
            assert(links.drop_last()[j] == links[j]);
        }
        lemma_closes_only(links.drop_last(), q, k);
        if k == n {
            assert(closes_at(links.drop_last(), q) == Seq::<u8>::empty());
            assert(Seq::<u8>::empty() + close_part(links[k], q) =~= close_part(links[k], q));
        } else {
            assert(close_part(links.last(), q) == Seq::<u8>::empty());
            if 0 <= k < n {
                assert(links.drop_last()[k] == links[k]);
            }
            assert(closes_at(links.drop_last(), q) + Seq::<u8>::empty() =~= closes_at(
                links.drop_last(),
                q,
            ));
        }
    }
}

proof fn lemma_no_links_text(line: Seq<u8>, s: int, p: int, n: int)
    requires
        0 <= s,
        0 <= n,
        s + n <= line.len(),
    ensures
        render_text(line, Seq::empty(), s, p, n) == line.subrange(s, s + n),
    decreases n,
{
    if n > 0 {
        lemma_no_links_text(line, s, p, n - 1);
        assert(line.subrange(s, s + n - 1) + Seq::<u8>::empty() + seq![line[s + n - 1]]
            + Seq::<u8>::empty() =~= line.subrange(s, s + n));
    }
}

/// What the links put around byte `x` of the line, looked up from piece
/// `k` on: nothing around an escape byte; before a visible byte, what goes
/// before its plain offset, and after it, what goes after.
pub open spec fn wrap_around(ps: Seq<PieceSpec>, links: Seq<LinkSpec>, x: int, k: int, before: bool) -> Seq<
    u8,
>
    decreases ps.len() - k,
{
    if k < 0 || k >= ps.len() {
        Seq::empty()
    } else if x < piece_end(ps[k]) {
        match ps[k] {
            PieceSpec::Text { start, plain_start, .. } => if before {
                opens_at(links, plain_start + (x - start))
            } else {
                closes_at(links, plain_start + (x - start) + 1)
            },
            PieceSpec::Esc { .. } => Seq::empty(),
        }
    } else {
        wrap_around(ps, links, x, k + 1, before)
    }
}

/// The first `n` bytes of the line, each with what the links put before
/// and after it.
pub open spec fn line_with_wrappers(b: Seq<u8>, ps: Seq<PieceSpec>, links: Seq<LinkSpec>, n: int) -> Seq<
    u8,
>
    decreases n,
{
    if n <= 0 {
        Seq::empty()
    } else {
        line_with_wrappers(b, ps, links, n - 1) + wrap_around(ps, links, n - 1, 0, true) + seq![
            b[n - 1],
        ] + wrap_around(ps, links, n - 1, 0, false)
    }
}

proof fn lemma_pieces_apart(b: Seq<u8>, ps: Seq<PieceSpec>, plain: Seq<u8>, j: int, k: int)
    requires
        tiled(b, ps, plain, b.len() as int),
        0 <= j < k < ps.len(),
    ensures
        piece_end(ps[j]) <= piece_start(ps[k]),
    decreases k - j,
{
    assert(piece_fits(b, ps, plain, k));
    if j + 1 < k {
        lemma_pieces_apart(b, ps, plain, j, k - 1);
        assert(piece_fits(b, ps, plain, k - 1));
    }
}

proof fn lemma_wrap_lookup(
    b: Seq<u8>,
    ps: Seq<PieceSpec>,
    plain: Seq<u8>,
    links: Seq<LinkSpec>,
    x: int,
    j: int,
    k: int,
    before: bool,
)
    requires
        tiled(b, ps, plain, b.len() as int),
        0 <= j <= k < ps.len(),
        piece_start(ps[k]) <= x < piece_end(ps[k]),
    ensures
        wrap_around(ps, links, x, j, before) == wrap_around(ps, links, x, k, before),
    decreases k - j,
{
    if j < k {
        lemma_pieces_apart(b, ps, plain, j, k);
        lemma_wrap_lookup(b, ps, plain, links, x, j + 1, k, before);
    }
}

proof fn lemma_wrappers_through_piece(
    b: Seq<u8>,
    ps: Seq<PieceSpec>,
    plain: Seq<u8>,
    links: Seq<LinkSpec>,
    k: int,
    i: int,
)
    requires
        tiled(b, ps, plain, b.len() as int),
        0 <= k < ps.len(),
        piece_start(ps[k]) <= i <= piece_end(ps[k]),
    ensures
        line_with_wrappers(b, ps, links, i) == line_with_wrappers(b, ps, links, piece_start(ps[k]))
            + match ps[k] {
            PieceSpec::Text { start, plain_start, .. } => render_text(
                b,
                links,
                start,
                plain_start,
                i - start,
            ),
            PieceSpec::Esc { start, .. } => b.subrange(start, i),
        },
    decreases i - piece_start(ps[k]),
{
    let s0 = piece_start(ps[k]);
    let base = line_with_wrappers(b, ps, links, s0);
    assert(piece_fits(b, ps, plain, k));
    if i == s0 {
        match ps[k] {
            PieceSpec::Text { .. } => {
                assert(base + Seq::<u8>::empty() =~= base);
            },
            PieceSpec::Esc { start, .. } => {
                assert(base + b.subrange(start, start) =~= base);
            },
        }
    } else {
        lemma_wrappers_through_piece(b, ps, plain, links, k, i - 1);
        let x = i - 1;
        lemma_wrap_lookup(b, ps, plain, links, x, 0, k, true);
        lemma_wrap_lookup(b, ps, plain, links, x, 0, k, false);
        match ps[k] {
            PieceSpec::Text { start, plain_start, .. } => {
                let r0 = render_text(b, links, start, plain_start, x - start);
                assert(base + r0 + opens_at(links, plain_start + (x - start)) + seq![b[x]] + closes_at(
                    links,
                    plain_start + (x - start) + 1,
                ) =~= base + (r0 + opens_at(links, plain_start + (i - start) - 1) + seq![
                    b[start + (i - start) - 1],
                ] + closes_at(links, plain_start + (i - start))));
            },
            PieceSpec::Esc { start, .. } => {
                assert(base + b.subrange(start, x) + Seq::<u8>::empty() + seq![b[x]]
                    + Seq::<u8>::empty() =~= base + b.subrange(start, i));
            },
        }
    }
}

/// Law: rendering inserts and changes nothing but wrappers: the output is
/// the line's bytes in order, each visible byte preceded by what the links
/// put before its plain offset (the opener of a link that starts there,
/// and its closer too for an empty link) and followed by the closer of a
/// non-empty link that ends after it; escape bytes get nothing around them.
pub proof fn render_inserts_only_wrappers(b: Seq<u8>, links: Seq<LinkSpec>)
    ensures
        rendered(line_model(b), links) == line_with_wrappers(
            b,
            line_model(b).pieces,
            links,
            b.len() as int,
        ),
{
    let m = line_model(b);
    let ps = m.pieces;
    lemma_line_tiled(b);
    assert forall|k: int| 0 <= k <= ps.len() implies #[trigger] render_pieces(b, ps, links, k)
        == line_with_wrappers(b, ps, links, if k == 0 {
        0
    } else {
        piece_end(ps[k - 1])
    }) by {
        lemma_render_prefix_wrappers(b, ps, m.plain, links, k);
    }
    if ps.len() == 0 {
        assert(b.len() == 0);
    }
}

proof fn lemma_render_prefix_wrappers(
    b: Seq<u8>,
    ps: Seq<PieceSpec>,
    plain: Seq<u8>,
    links: Seq<LinkSpec>,
    k: int,
)
    requires
        tiled(b, ps, plain, b.len() as int),
        0 <= k <= ps.len(),
    ensures
        render_pieces(b, ps, links, k) == line_with_wrappers(b, ps, links, if k == 0 {
            0
        } else {
            piece_end(ps[k - 1])
        }),
    decreases k,
{
    if k > 0 {
        lemma_render_prefix_wrappers(b, ps, plain, links, k - 1);
        assert(piece_fits(b, ps, plain, k - 1));
        lemma_wrappers_through_piece(b, ps, plain, links, k - 1, piece_end(ps[k - 1]));
    }
}

/// Law: rendering a parsed line with no links gives back the line itself,
/// byte for byte, escape sequences included.
pub proof fn render_without_links_is_identity(b: Seq<u8>)
    ensures
        rendered(line_model(b), Seq::empty()) == b,
{
    let m = line_model(b);
    lemma_line_tiled(b);
    let ps = m.pieces;
    assert forall|k: int| 0 <= k <= ps.len() implies #[trigger] render_pieces(
        b,
        ps,
        Seq::empty(),
        k,
    ) == b.subrange(0, if k == 0 {
        0
    } else {
        piece_end(ps[k - 1])
    }) by {
        lemma_no_links_pieces(b, ps, m.plain, k);
    }
    if ps.len() == 0 {
        assert(b.len() == 0);
        assert(b =~= Seq::<u8>::empty());
    } else {
        assert(b.subrange(0, b.len() as int) =~= b);
    }
}

proof fn lemma_no_links_pieces(b: Seq<u8>, ps: Seq<PieceSpec>, plain: Seq<u8>, k: int)
    requires
        tiled(b, ps, plain, b.len() as int),
        0 <= k <= ps.len(),
    ensures
        render_pieces(b, ps, Seq::empty(), k) == b.subrange(0, if k == 0 {
            0
        } else {
            piece_end(ps[k - 1])
        }),
    decreases k,
{
    if k > 0 {
        lemma_no_links_pieces(b, ps, plain, k - 1);
        assert(piece_fits(b, ps, plain, k - 1));
        let lo = piece_start(ps[k - 1]);
        let hi = piece_end(ps[k - 1]);
        match ps[k - 1] {
            PieceSpec::Text { start, end, plain_start } => {
                lemma_no_links_text(b, start, plain_start, end - start);
            },
            PieceSpec::Esc { .. } => {},
        }
        assert(b.subrange(0, lo) + b.subrange(lo, hi) =~= b.subrange(0, hi));
    }
}

proof fn lemma_close_ascii()
    ensures
        all_ascii(close_bytes()),
{
    assert forall|i: int| 0 <= i < close_bytes().len() implies is_ascii_byte(
        #[trigger] close_bytes()[i],
    ) by {}
}

proof fn lemma_open_ascii(href: Seq<u8>)
    ensures
        all_ascii(open_bytes(href)),
{
    lemma_encode_printable(href, Keep::Printable);
    let s = sanitized(href);
    assert forall|i: int| 0 <= i < open_bytes(href).len() implies is_ascii_byte(
        #[trigger] open_bytes(href)[i],
    ) by {
        if 5 <= i < 5 + s.len() {
            assert(open_bytes(href)[i] == s[i - 5]);
        }
    }
}

/// ASCII inserted at a character boundary keeps the bytes valid UTF-8.
proof fn lemma_insert_ascii(out: Seq<u8>, rest: Seq<u8>, m: Seq<u8>)
    requires
        valid_utf8(out + rest),
        rest.len() == 0 || !is_continuation_byte(rest[0]),
        all_ascii(m),
    ensures
        valid_utf8(out + m + rest),
{
    let w = out + rest;
    assert(at_boundary(w, out.len() as int)) by {
        if rest.len() > 0 {
            assert(w[out.len() as int] == rest[0]);
        }
    }
    assert(at_boundary(w, 0)) by {
        if w.len() > 0 {
            assert(valid_first_scalar(w));
        }
    }
    lemma_valid_between(w, 0, out.len() as int);
    lemma_valid_between(w, out.len() as int, w.len() as int);
    assert(w.subrange(0, out.len() as int) =~= out);
    assert(w.subrange(out.len() as int, w.len() as int) =~= rest);
    lemma_ascii_valid(m);
    valid_utf8_concat(out, m);
    valid_utf8_concat(out + m, rest);
}

// ---------------------------------------------------------------------------
// What a re-parse of rendered output sees
// ---------------------------------------------------------------------------

/// The visible bytes of `b` from byte `i` on (the plain text a split
/// collects from there).
pub open spec fn plain_from(b: Seq<u8>, i: int) -> Seq<u8>
    decreases b.len() - i,
{
    if i < 0 || i >= b.len() {
        Seq::empty()
    } else if b[i] == 0x1b {
        proof {
            lemma_esc_end(b, i);
        }
        plain_from(b, esc_end(b, i))
    } else {
        proof {
            lemma_text_end(b, i + 1);
        }
        let j = text_end(b, i + 1);
        b.subrange(i, j) + plain_from(b, j)
    }
}

proof fn lemma_split_plain(b: Seq<u8>, i: int, st: Split)
    requires
        0 <= i,
    ensures
        split_from(b, i, st).plain == st.plain + plain_from(b, i),
    decreases b.len() - i,
{
    if i >= b.len() {
        assert(st.plain + Seq::<u8>::empty() =~= st.plain);
    } else if b[i] == 0x1b {
        lemma_esc_end(b, i);
        let e = esc_end(b, i);
        lemma_split_plain(b, e, esc_step(b, i, e, st));
        let st2 = esc_step(b, i, e, st);
        assert(st2.plain == st.plain);
    } else {
        lemma_text_end(b, i + 1);
        let j = text_end(b, i + 1);
        lemma_split_plain(b, j, text_step(b, i, j, st));
        assert(st.plain + b.subrange(i, j) + plain_from(b, j) =~= st.plain + (b.subrange(i, j)
            + plain_from(b, j)));
    }
}

/// The plain text of a line is its visible bytes.
proof fn lemma_line_plain(b: Seq<u8>)
    ensures
        line_model(b).plain == plain_from(b, 0),
{
    lemma_split_plain(b, 0, empty_split());
    assert(Seq::<u8>::empty() + plain_from(b, 0) =~= plain_from(b, 0));
}

proof fn lemma_plain_no_esc(b: Seq<u8>, i: int)
    ensures
        forall|k: int| 0 <= k < plain_from(b, i).len() ==> #[trigger] plain_from(b, i)[k] != 0x1b,
    decreases b.len() - i,
{
    if 0 <= i < b.len() {
        if b[i] == 0x1b {
            lemma_esc_end(b, i);
            lemma_plain_no_esc(b, esc_end(b, i));
            assert(plain_from(b, i) == plain_from(b, esc_end(b, i)));
        } else {
            lemma_text_end(b, i + 1);
            let j = text_end(b, i + 1);
            lemma_plain_no_esc(b, j);
            let x = b.subrange(i, j);
            let r = plain_from(b, j);
            assert(plain_from(b, i) == x + r);
            assert forall|k: int| 0 <= k < (x + r).len() implies #[trigger] (x + r)[k] != 0x1b by {
                if k < x.len() {
                    assert((x + r)[k] == b[i + k]);
                    if k > 0 {
                        assert(b[i + k] != 0x1b);
                    }
                } else {
                    assert((x + r)[k] == r[k - x.len()]);
                }
            }
        }
    }
}

/// Law: the plain text of a line is the line with every escape sequence
/// (from an ESC to its end) cut out, so it holds no ESC.
pub proof fn plain_text_is_the_line_without_escapes(b: Seq<u8>)
    ensures
        line_model(b).plain == plain_from(b, 0),
        forall|k: int| 0 <= k < line_model(b).plain.len() ==> #[trigger] line_model(b).plain[k]
            != 0x1b,
{
    lemma_line_plain(b);
    lemma_plain_no_esc(b, 0);
}

/// A visible byte is followed by the rest of the visible bytes.
proof fn lemma_plain_text_step(w: Seq<u8>, i: int)
    requires
        0 <= i < w.len(),
        w[i] != 0x1b,
    ensures
        plain_from(w, i) == seq![w[i]] + plain_from(w, i + 1),
{
    lemma_text_end(w, i + 1);
    let j = text_end(w, i + 1);
    if i + 1 < w.len() && w[i + 1] != 0x1b {
        lemma_text_end(w, i + 2);
        assert(text_end(w, i + 1) == text_end(w, i + 2));
        assert(w.subrange(i, j) =~= seq![w[i]] + w.subrange(i + 1, j));
        assert(seq![w[i]] + w.subrange(i + 1, j) + plain_from(w, j) =~= seq![w[i]] + (w.subrange(
            i + 1,
            j,
        ) + plain_from(w, j)));
    } else {
        assert(j == i + 1);
        assert(w.subrange(i, j) =~= seq![w[i]]);
    }
}

/// A run of visible bytes contributes itself.
proof fn lemma_plain_text_run(w: Seq<u8>, i: int, j: int)
    requires
        0 <= i <= j <= w.len(),
        forall|t: int| i <= t < j ==> #[trigger] w[t] != 0x1b,
    ensures
        plain_from(w, i) == w.subrange(i, j) + plain_from(w, j),
    decreases j - i,
{
    if i == j {
        assert(w.subrange(i, j) + plain_from(w, j) =~= plain_from(w, j));
    } else {
        lemma_plain_text_step(w, i);
        lemma_plain_text_run(w, i + 1, j);
        assert(seq![w[i]] + (w.subrange(i + 1, j) + plain_from(w, j)) =~= w.subrange(i, j)
            + plain_from(w, j));
    }
}

/// `string_end` runs over bytes that are neither BEL nor ESC.
proof fn lemma_string_end_skip(w: Seq<u8>, j: int, k: int)
    requires
        0 <= j <= k <= w.len(),
        forall|t: int| j <= t < k ==> #[trigger] w[t] != 0x07 && w[t] != 0x1b,
    ensures
        string_end(w, j) == string_end(w, k),
    decreases k - j,
{
    if j < k {
        lemma_string_end_skip(w, j + 1, k);
    }
}

/// A wrapper (an opener or a closer) is one escape sequence.
proof fn lemma_wrapper_is_one_escape(w: Seq<u8>, i: int, m: Seq<u8>)
    requires
        m == close_bytes() || exists|h: Seq<u8>| m == open_bytes(h),
        0 <= i,
        i + m.len() <= w.len(),
        w.subrange(i, i + m.len()) == m,
    ensures
        w[i] == 0x1b,
        esc_end(w, i) == i + m.len(),
        plain_from(w, i) == plain_from(w, i + m.len()),
{
    let n = m.len() as int;
    assert(m[0] == 0x1b && m[1] == 0x5d && m[n - 2] == 0x1b && m[n - 1] == 0x5c) by {
        if m != close_bytes() {
            let h = choose|h: Seq<u8>| m == open_bytes(h);
            lemma_encode_printable(h, Keep::Printable);
        }
    }
    assert forall|t: int| 2 <= t < n - 2 implies #[trigger] m[t] != 0x07 && m[t] != 0x1b by {
        if m != close_bytes() {
            let h = choose|h: Seq<u8>| m == open_bytes(h);
            lemma_encode_printable(h, Keep::Printable);
            let z = sanitized(h);
            if 5 <= t < 5 + z.len() {
                assert(m[t] == z[t - 5]);
                assert(crate::text::keeps(Keep::Printable, z[t - 5]));
            }
        }
    }
    assert(w[i] == m[0]);
    assert(w[i + 1] == m[1]);
    assert forall|t: int| i + 2 <= t < i + n - 2 implies #[trigger] w[t] != 0x07 && w[t]
        != 0x1b by {
        assert(w[t] == m[t - i]);
    }
    lemma_string_end_skip(w, i + 2, i + n - 2);
    assert(w[i + n - 2] == m[n - 2]);
    assert(w[i + n - 1] == m[n - 1]);
    assert(string_end(w, i + n - 2) == i + n);
    lemma_esc_end(w, i);
}

/// The wrappers the links put at one place are skipped as escapes.
proof fn lemma_opens_invisible(w: Seq<u8>, i: int, links: Seq<LinkSpec>, q: int)
    requires
        0 <= i,
        i + opens_at(links, q).len() <= w.len(),
        w.subrange(i, i + opens_at(links, q).len()) == opens_at(links, q),
    ensures
        plain_from(w, i) == plain_from(w, i + opens_at(links, q).len()),
        opens_at(links, q).len() > 0 ==> w[i] == 0x1b && w[i + 1] == 0x5d,
    decreases links.len(),
{
    if links.len() > 0 {
        let a = opens_at(links.drop_last(), q);
        let l = links.last();
        let x = open_part(l, q);
        assert(opens_at(links, q) == a + x);
        assert(w.subrange(i, i + a.len()) =~= a) by {
            assert(w.subrange(i, i + a.len()) =~= w.subrange(i, i + (a + x).len()).subrange(
                0,
                a.len() as int,
            ));
        }
        lemma_opens_invisible(w, i, links.drop_last(), q);
        if l.start == q {
            let o = open_bytes(l.href);
            let j = i + a.len();
            assert(w.subrange(j, j + o.len()) =~= o) by {
                assert(w.subrange(j, j + o.len()) =~= w.subrange(i, i + (a + x).len()).subrange(
                    a.len() as int,
                    (a.len() + o.len()) as int,
                ));
            }
            lemma_wrapper_is_one_escape(w, j, o);
            if l.end == q {
                let c = close_bytes();
                let j2 = j + o.len();
                assert(w.subrange(j2, j2 + c.len()) =~= c) by {
                    assert(w.subrange(j2, j2 + c.len()) =~= w.subrange(i, i + (a + x).len()).subrange(
                        (a.len() + o.len()) as int,
                        (a.len() + o.len() + c.len()) as int,
                    ));
                }
                lemma_wrapper_is_one_escape(w, j2, c);
            }
            if a.len() == 0 {
                assert(w[i] == w.subrange(j, j + o.len())[0]);
                assert(w[i + 1] == w.subrange(j, j + o.len())[1]);
            }
        }
        if a.len() > 0 {
            assert(w[i] == w.subrange(i, i + a.len())[0]);
        }
    }
}

/// The closers the links put at one place are skipped as escapes.
proof fn lemma_closes_invisible(w: Seq<u8>, i: int, links: Seq<LinkSpec>, q: int)
    requires
        0 <= i,
        i + closes_at(links, q).len() <= w.len(),
        w.subrange(i, i + closes_at(links, q).len()) == closes_at(links, q),
    ensures
        plain_from(w, i) == plain_from(w, i + closes_at(links, q).len()),
    decreases links.len(),
{
    if links.len() > 0 {
        let a = closes_at(links.drop_last(), q);
        let x = close_part(links.last(), q);
        assert(closes_at(links, q) == a + x);
        assert(w.subrange(i, i + a.len()) =~= a) by {
            assert(w.subrange(i, i + a.len()) =~= w.subrange(i, i + (a + x).len()).subrange(
                0,
                a.len() as int,
            ));
        }
        lemma_closes_invisible(w, i, links.drop_last(), q);
        if x.len() > 0 {
            let j = i + a.len();
            assert(w.subrange(j, j + x.len()) =~= x) by {
                assert(w.subrange(j, j + x.len()) =~= w.subrange(i, i + (a + x).len()).subrange(
                    a.len() as int,
                    (a.len() + x.len()) as int,
                ));
            }
            lemma_wrapper_is_one_escape(w, j, x);
        }
    }
}

/// `c` from `jc` on holds the bytes of `a[j..k)`.
pub open spec fn agree(a: Seq<u8>, j: int, k: int, c: Seq<u8>, jc: int) -> bool {
    &&& 0 <= jc
    &&& jc + (k - j) <= c.len()
    &&& forall|t: int| j <= t < k ==> #[trigger] a[t] == c[jc + (t - j)]
}

proof fn lemma_agree_step(a: Seq<u8>, j: int, k: int, c: Seq<u8>, jc: int)
    requires
        agree(a, j, k, c, jc),
        j < k,
    ensures
        agree(a, j + 1, k, c, jc + 1),
        c[jc] == a[j],
{
    assert(a[j] == c[jc + (j - j)]);
    assert forall|t: int| j + 1 <= t < k implies #[trigger] a[t] == c[jc + 1 + (t - (j + 1))] by {
        assert(a[t] == c[jc + (t - j)]);
    }
}

proof fn lemma_agree_shrink(a: Seq<u8>, j: int, k: int, c: Seq<u8>, jc: int, j2: int, k2: int)
    requires
        agree(a, j, k, c, jc),
        j <= j2 <= k2 <= k,
    ensures
        agree(a, j2, k2, c, jc + (j2 - j)),
{
    assert forall|t: int| j2 <= t < k2 implies #[trigger] a[t] == c[jc + (j2 - j) + (t - j2)] by {
        assert(a[t] == c[jc + (t - j)]);
    }
}

proof fn lemma_run_in_shift(a: Seq<u8>, j: int, c: Seq<u8>, jc: int, lo: u8, hi: u8)
    requires
        0 <= j <= a.len(),
        agree(a, j, run_in(a, j, lo, hi), c, jc),
        run_in(a, j, lo, hi) == a.len() ==> jc + run_in(a, j, lo, hi) - j == c.len(),
        run_in(a, j, lo, hi) < a.len() ==> jc + run_in(a, j, lo, hi) - j < c.len() && !(lo
            <= c[jc + run_in(a, j, lo, hi) - j] <= hi),
    ensures
        run_in(c, jc, lo, hi) == jc + (run_in(a, j, lo, hi) - j),
    decreases a.len() - j,
{
    lemma_run_in(a, j, lo, hi);
    if j < a.len() && lo <= a[j] <= hi {
        lemma_run_in(a, j + 1, lo, hi);
        lemma_agree_step(a, j, run_in(a, j, lo, hi), c, jc);
        lemma_run_in_shift(a, j + 1, c, jc + 1, lo, hi);
    }
}

/// `string_end` from `j` stops at an ESC that does not start `ESC \`.
pub open spec fn esc_stop(b: Seq<u8>, j: int) -> bool
    decreases b.len() - j,
{
    if j < 0 || j >= b.len() || b[j] == 0x07 {
        false
    } else if b[j] == 0x1b {
        !(j + 1 < b.len() && b[j + 1] == 0x5c)
    } else {
        esc_stop(b, j + 1)
    }
}

proof fn lemma_esc_stop(b: Seq<u8>, j: int)
    requires
        0 <= j <= b.len(),
    ensures
        esc_stop(b, j) ==> string_end(b, j) < b.len() && b[string_end(b, j)] == 0x1b && !(
        string_end(b, j) + 1 < b.len() && b[string_end(b, j) + 1] == 0x5c),
    decreases b.len() - j,
{
    if j < b.len() && b[j] != 0x07 && b[j] != 0x1b {
        lemma_esc_stop(b, j + 1);
    }
}

proof fn lemma_string_end_shift(a: Seq<u8>, j: int, c: Seq<u8>, jc: int)
    requires
        0 <= j <= a.len(),
        agree(a, j, string_end(a, j), c, jc),
        string_end(a, j) == a.len() ==> jc + string_end(a, j) - j == c.len(),
        esc_stop(a, j) ==> jc + string_end(a, j) - j < c.len() && c[jc + string_end(a, j) - j]
            == 0x1b && !(jc + string_end(a, j) - j + 1 < c.len() && c[jc + string_end(a, j) - j
            + 1] == 0x5c),
    ensures
        string_end(c, jc) == jc + (string_end(a, j) - j),
    decreases a.len() - j,
{
    lemma_string_end(a, j);
    if j < a.len() {
        if a[j] == 0x07 {
            lemma_agree_step(a, j, string_end(a, j), c, jc);
        } else if a[j] == 0x1b {
            if j + 1 < a.len() && a[j + 1] == 0x5c {
                lemma_agree_step(a, j, string_end(a, j), c, jc);
                lemma_agree_step(a, j + 1, string_end(a, j), c, jc + 1);
            }
        } else {
            lemma_string_end(a, j + 1);
            lemma_agree_step(a, j, string_end(a, j), c, jc);
            lemma_string_end_shift(a, j + 1, c, jc + 1);
        }
    }
}

/// An escape sequence copied into other bytes ends where it ended, as long
/// as what follows it there is what followed it before or an escape that
/// is not `ESC \`.
proof fn lemma_esc_end_shift(a: Seq<u8>, s: int, c: Seq<u8>, sc: int)
    requires
        0 <= s < a.len(),
        a[s] == 0x1b,
        agree(a, s, esc_end(a, s), c, sc),
        (esc_end(a, s) == a.len()) == (sc + esc_end(a, s) - s == c.len()),
        esc_end(a, s) < a.len() ==> (c[sc + esc_end(a, s) - s] == a[esc_end(a, s)] || c[sc
            + esc_end(a, s) - s] == 0x1b),
        ({
            let ec = sc + esc_end(a, s) - s;
            ec + 1 < c.len() && c[ec] == 0x1b && c[ec + 1] == 0x5c
        }) ==> esc_end(a, s) + 1 < a.len() && a[esc_end(a, s)] == 0x1b && a[esc_end(a, s) + 1]
            == 0x5c,
    ensures
        esc_end(c, sc) == sc + (esc_end(a, s) - s),
{
    lemma_esc_end(a, s);
    let e = esc_end(a, s);
    lemma_agree_step(a, s, e, c, sc);
    if s + 1 < a.len() {
        let x = a[s + 1];
        if e > s + 1 {
            lemma_agree_step(a, s + 1, e, c, sc + 1);
        }
        if x == 0x5b {
            lemma_run_in(a, s + 2, 0x20, 0x3f);
            let r = run_in(a, s + 2, 0x20, 0x3f);
            lemma_agree_shrink(a, s, e, c, sc, s + 2, r);
            if r < a.len() && 0x40 <= a[r] <= 0x7e {
                lemma_agree_shrink(a, s, e, c, sc, r, r + 1);
                assert(a[r] == c[sc + (r - s) + (r - r)]);
            }
            lemma_run_in_shift(a, s + 2, c, sc + 2, 0x20, 0x3f);
        } else if x == 0x5d || x == 0x50 || x == 0x58 || x == 0x5e || x == 0x5f {
            lemma_string_end(a, s + 2);
            lemma_agree_shrink(a, s, e, c, sc, s + 2, e);
            lemma_esc_stop(a, s + 2);
            lemma_string_end_shift(a, s + 2, c, sc + 2);
        } else if 0x20 <= x <= 0x2f {
            lemma_run_in(a, s + 1, 0x20, 0x2f);
            let r = run_in(a, s + 1, 0x20, 0x2f);
            lemma_agree_shrink(a, s, e, c, sc, s + 1, r);
            if r < a.len() && 0x30 <= a[r] <= 0x7e {
                lemma_agree_shrink(a, s, e, c, sc, r, r + 1);
                assert(a[r] == c[sc + (r - s) + (r - r)]);
            }
            lemma_run_in_shift(a, s + 1, c, sc + 1, 0x20, 0x2f);
        }
    }
}

/// The visible bytes of a rendered text piece are its bytes.
proof fn lemma_render_text_plain(
    w: Seq<u8>,
    at: int,
    line: Seq<u8>,
    links: Seq<LinkSpec>,
    s: int,
    p: int,
    n: int,
)
    requires
        0 <= at,
        0 <= s,
        0 <= n,
        s + n <= line.len(),
        forall|t: int| s <= t < s + n ==> #[trigger] line[t] != 0x1b,
        at + render_text(line, links, s, p, n).len() <= w.len(),
        w.subrange(at, at + render_text(line, links, s, p, n).len()) == render_text(
            line,
            links,
            s,
            p,
            n,
        ),
    ensures
        plain_from(w, at) == line.subrange(s, s + n) + plain_from(
            w,
            at + render_text(line, links, s, p, n).len(),
        ),
    decreases n,
{
    let r = render_text(line, links, s, p, n);
    if n == 0 {
        assert(line.subrange(s, s) + plain_from(w, at) =~= plain_from(w, at));
    } else {
        let r0 = render_text(line, links, s, p, n - 1);
        let o = opens_at(links, p + n - 1);
        let cl = closes_at(links, p + n);
        let byte = line[s + n - 1];
        assert(r == r0 + o + seq![byte] + cl);
        let at1 = at + r0.len();
        assert(r.subrange(0, r0.len() as int) =~= r0);
        assert(w.subrange(at, at + r0.len()) =~= r.subrange(0, r0.len() as int));
        lemma_render_text_plain(w, at, line, links, s, p, n - 1);
        assert(r.subrange(r0.len() as int, (r0.len() + o.len()) as int) =~= o);
        assert(w.subrange(at1, at1 + o.len()) =~= r.subrange(r0.len() as int, (r0.len() + o.len()) as int));
        lemma_opens_invisible(w, at1, links, p + n - 1);
        let at2 = at1 + o.len();
        assert(w[at2] == r[(r0.len() + o.len()) as int]);
        assert(w[at2] == byte);
        lemma_plain_text_step(w, at2);
        let at3 = at2 + 1;
        assert(r.subrange((r0.len() + o.len() + 1) as int, r.len() as int) =~= cl);
        assert(w.subrange(at3, at3 + cl.len()) =~= r.subrange(
            (r0.len() + o.len() + 1) as int,
            r.len() as int,
        ));
        lemma_closes_invisible(w, at3, links, p + n);
        assert(line.subrange(s, s + n - 1) + (seq![byte] + plain_from(w, at + r.len()))
            =~= line.subrange(s, s + n) + plain_from(w, at + r.len()));
    }
}

/// A rendered text piece starts with what goes around its first byte.
proof fn lemma_render_text_head(line: Seq<u8>, links: Seq<LinkSpec>, s: int, p: int, n: int)
    requires
        0 < n,
    ensures
        ({
            let c0 = opens_at(links, p) + seq![line[s]] + closes_at(links, p + 1);
            render_text(line, links, s, p, n).len() >= c0.len() && render_text(
                line,
                links,
                s,
                p,
                n,
            ).subrange(0, c0.len() as int) == c0
        }),
    decreases n,
{
    let c0 = opens_at(links, p) + seq![line[s]] + closes_at(links, p + 1);
    let r = render_text(line, links, s, p, n);
    if n == 1 {
        assert(render_text(line, links, s, p, 0) == Seq::<u8>::empty());
        assert(r =~= c0);
        assert(r.subrange(0, c0.len() as int) =~= c0);
    } else {
        lemma_render_text_head(line, links, s, p, n - 1);
        let r0 = render_text(line, links, s, p, n - 1);
        assert(r.subrange(0, c0.len() as int) =~= r0.subrange(0, c0.len() as int));
    }
}

proof fn lemma_render_prefix(line: Seq<u8>, ps: Seq<PieceSpec>, links: Seq<LinkSpec>, k: int, kk: int)
    requires
        0 <= k <= kk <= ps.len(),
    ensures
        render_pieces(line, ps, links, k).len() <= render_pieces(line, ps, links, kk).len(),
        render_pieces(line, ps, links, kk).subrange(0, render_pieces(line, ps, links, k).len() as int)
            == render_pieces(line, ps, links, k),
    decreases kk - k,
{
    if k < kk {
        lemma_render_prefix(line, ps, links, k, kk - 1);
        let a = render_pieces(line, ps, links, kk - 1);
        let r = render_pieces(line, ps, links, kk);
        assert(r == a + render_piece(line, links, ps[kk - 1]));
        assert(r.subrange(0, render_pieces(line, ps, links, k).len() as int) =~= a.subrange(
            0,
            render_pieces(line, ps, links, k).len() as int,
        ));
    } else {
        assert(render_pieces(line, ps, links, kk).subrange(
            0,
            render_pieces(line, ps, links, kk).len() as int,
        ) =~= render_pieces(line, ps, links, kk));
    }
}

/// Piece `j` of a tiled line sits in the rendered output right after the
/// pieces before it, and is not empty there.
proof fn lemma_piece_in_output(b: Seq<u8>, plain: Seq<u8>, ps: Seq<PieceSpec>, links: Seq<LinkSpec>, j: int)
    requires
        tiled(b, ps, plain, b.len() as int),
        0 <= j < ps.len(),
    ensures
        ({
            let w = render_pieces(b, ps, links, ps.len() as int);
            let at = render_pieces(b, ps, links, j).len() as int;
            let rp = render_piece(b, links, ps[j]);
            &&& rp.len() > 0
            &&& render_pieces(b, ps, links, j + 1).len() == at + rp.len()
            &&& at + rp.len() <= w.len()
            &&& w.subrange(at, at + rp.len()) == rp
        }),
{
    let w = render_pieces(b, ps, links, ps.len() as int);
    let a = render_pieces(b, ps, links, j);
    let rp = render_piece(b, links, ps[j]);
    assert(piece_fits(b, ps, plain, j));
    match ps[j] {
        PieceSpec::Text { start, end, plain_start } => {
            lemma_render_text_head(b, links, start, plain_start, end - start);
        },
        PieceSpec::Esc { .. } => {},
    }
    lemma_render_prefix(b, ps, links, j + 1, ps.len() as int);
    let a1 = render_pieces(b, ps, links, j + 1);
    assert(a1 == a + rp);
    assert(w.subrange(a.len() as int, (a.len() + rp.len()) as int) =~= w.subrange(
        0,
        a1.len() as int,
    ).subrange(a.len() as int, (a.len() + rp.len()) as int));
    assert(a1.subrange(a.len() as int, (a.len() + rp.len()) as int) =~= rp);
}

/// The first bytes of piece `j` in the rendered output: its own first
/// byte, or the start of an opener (`ESC ]`) in front of a text piece; a
/// copied escape keeps its second byte.
proof fn lemma_piece_head(b: Seq<u8>, plain: Seq<u8>, ps: Seq<PieceSpec>, links: Seq<LinkSpec>, j: int)
    requires
        tiled(b, ps, plain, b.len() as int),
        0 <= j < ps.len(),
    ensures
        ({
            let w = render_pieces(b, ps, links, ps.len() as int);
            let at = render_pieces(b, ps, links, j).len() as int;
            let st = piece_start(ps[j]);
            &&& at < w.len()
            &&& (w[at] == b[st] || (ps[j] is Text && w[at] == 0x1b && at + 1 < w.len() && w[at + 1]
                == 0x5d))
            &&& (ps[j] is Esc && piece_end(ps[j]) - st >= 2 ==> at + 1 < w.len() && w[at + 1]
                == b[st + 1])
        }),
{
    let w = render_pieces(b, ps, links, ps.len() as int);
    let at = render_pieces(b, ps, links, j).len() as int;
    lemma_piece_in_output(b, plain, ps, links, j);
    let rp = render_piece(b, links, ps[j]);
    assert(piece_fits(b, ps, plain, j));
    assert(w[at] == rp[0]);
    match ps[j] {
        PieceSpec::Text { start, end, plain_start } => {
            lemma_render_text_head(b, links, start, plain_start, end - start);
            let o = opens_at(links, plain_start);
            let c0 = o + seq![b[start]] + closes_at(links, plain_start + 1);
            assert(rp[0] == c0[0]);
            if o.len() > 0 {
                assert(w.subrange(at, at + o.len()) =~= rp.subrange(0, o.len() as int));
                assert(rp.subrange(0, o.len() as int) =~= c0.subrange(0, o.len() as int));
                assert(c0.subrange(0, o.len() as int) =~= o);
                lemma_opens_invisible(w, at, links, plain_start);
            } else {
                assert(c0[0] == b[start]);
            }
        },
        PieceSpec::Esc { start, end } => {
            assert(rp == b.subrange(start, end));
            if end - start >= 2 {
                assert(w[at + 1] == rp[1]);
            }
        },
    }
}

proof fn lemma_agree_from_subrange(a: Seq<u8>, s: int, e: int, c: Seq<u8>, sc: int)
    requires
        0 <= s <= e <= a.len(),
        0 <= sc,
        sc + (e - s) <= c.len(),
        c.subrange(sc, sc + (e - s)) == a.subrange(s, e),
    ensures
        agree(a, s, e, c, sc),
{
    assert forall|t: int| s <= t < e implies #[trigger] a[t] == c[sc + (t - s)] by {
        assert(a.subrange(s, e)[t - s] == a[t]);
        assert(c.subrange(sc, sc + (e - s))[t - s] == c[sc + (t - s)]);
    }
}

/// An escape piece of the line is one escape sequence of the rendered
/// output too, ending where its copy ends.
proof fn lemma_copied_escape(b: Seq<u8>, plain: Seq<u8>, ps: Seq<PieceSpec>, links: Seq<LinkSpec>, k: int)
    requires
        tiled(b, ps, plain, b.len() as int),
        0 <= k < ps.len(),
        ps[k] is Esc,
    ensures
        ({
            let w = render_pieces(b, ps, links, ps.len() as int);
            let at = render_pieces(b, ps, links, k).len() as int;
            let at1 = render_pieces(b, ps, links, k + 1).len() as int;
            &&& at < w.len()
            &&& w[at] == 0x1b
            &&& esc_end(w, at) == at1
            &&& w.subrange(at, at1) == b.subrange(piece_start(ps[k]), piece_end(ps[k]))
        }),
{
    let kk = ps.len() as int;
    let w = render_pieces(b, ps, links, kk);
    let at = render_pieces(b, ps, links, k).len() as int;
    lemma_piece_in_output(b, plain, ps, links, k);
    assert(piece_fits(b, ps, plain, k));
    let rp = render_piece(b, links, ps[k]);
    let at1 = at + rp.len();
    let start = piece_start(ps[k]);
    let end = piece_end(ps[k]);
    assert(rp == b.subrange(start, end));
    assert(w[at] == rp[0]);
    lemma_esc_end(b, start);
    lemma_agree_from_subrange(b, start, end, w, at);
    if k + 1 < kk {
        lemma_piece_in_output(b, plain, ps, links, k + 1);
        lemma_piece_head(b, plain, ps, links, k + 1);
        assert(piece_fits(b, ps, plain, k + 1));
        lemma_render_prefix(b, ps, links, k + 1, kk);
        if w[at1] == 0x1b && at1 + 1 < w.len() && w[at1 + 1] == 0x5c {
            let p2 = ps[k + 1];
            assert(p2 is Esc);
            if piece_end(p2) - piece_start(p2) < 2 {
                // a lone ESC: what follows it in the output is the next
                // piece's first byte or an opener
                if k + 2 < kk {
                    lemma_piece_in_output(b, plain, ps, links, k + 2);
                    lemma_piece_head(b, plain, ps, links, k + 2);
                    assert(piece_fits(b, ps, plain, k + 2));
                    assert(b[end + 1] == 0x5c);
                    assert(esc_end(b, end) == end + 2);
                } else {
                    lemma_render_prefix(b, ps, links, k + 2, kk);
                }
            }
        }
    } else {
        assert(piece_end(ps.last()) == b.len());
    }
    lemma_esc_end_shift(b, start, w, at);
}

/// The visible bytes of the rendered output from piece `k` on are those of
/// the line from piece `k` on.
proof fn lemma_plain_suffix(b: Seq<u8>, plain: Seq<u8>, ps: Seq<PieceSpec>, links: Seq<LinkSpec>, k: int)
    requires
        tiled(b, ps, plain, b.len() as int),
        0 <= k <= ps.len(),
    ensures
        plain_from(
            render_pieces(b, ps, links, ps.len() as int),
            render_pieces(b, ps, links, k).len() as int,
        ) == plain_from(b, if k == 0 {
            0
        } else {
            piece_end(ps[k - 1])
        }),
    decreases ps.len() - k,
{
    let kk = ps.len() as int;
    let w = render_pieces(b, ps, links, kk);
    let at = render_pieces(b, ps, links, k).len() as int;
    if k == kk {
        if kk > 0 {
            assert(piece_end(ps.last()) == b.len());
        }
    } else {
        lemma_plain_suffix(b, plain, ps, links, k + 1);
        lemma_piece_in_output(b, plain, ps, links, k);
        assert(piece_fits(b, ps, plain, k));
        let rp = render_piece(b, links, ps[k]);
        let at1 = at + rp.len();
        match ps[k] {
            PieceSpec::Text { start, end, plain_start } => {
                lemma_render_text_plain(w, at, b, links, start, plain_start, end - start);
                lemma_plain_text_run(b, start, end);
            },
            PieceSpec::Esc { start, end } => {
                lemma_copied_escape(b, plain, ps, links, k);
            },
        }
    }
}

/// Law: wrapping links around a line changes none of its visible text: a
/// re-parse of the rendered line sees the same plain text.
pub proof fn render_keeps_the_visible_text(b: Seq<u8>, links: Seq<LinkSpec>)
    ensures
        line_model(rendered(line_model(b), links)).plain == line_model(b).plain,
{
    let m = line_model(b);
    lemma_line_tiled(b);
    lemma_plain_suffix(b, m.plain, m.pieces, links, 0);
    lemma_line_plain(b);
    lemma_line_plain(rendered(m, links));
}

// ---------------------------------------------------------------------------
// What a re-parse of rendered output sees: hyperlinks
// ---------------------------------------------------------------------------

/// Hyperlink bookkeeping of a split: the plain length so far, the taken
/// regions, and where an open hyperlink started.
pub struct Marks {
    pub n: int,
    pub taken: Seq<(int, int)>,
    pub open: Option<int>,
}

/// The effect of an escape sequence whose OSC 8 URI part is `u`.
pub open spec fn mark_event(u: Option<Seq<u8>>, m: Marks) -> Marks {
    match u {
        None => m,
        Some(x) => if x.len() == 0 {
            match m.open {
                Some(s) => Marks {
                    taken: if m.n > s {
                        m.taken.push((s, m.n))
                    } else {
                        m.taken
                    },
                    open: None,
                    ..m
                },
                None => m,
            }
        } else {
            Marks { open: Some(m.n), ..m }
        },
    }
}

/// The bookkeeping of a split of `b` from byte `i` on.
pub open spec fn track(b: Seq<u8>, i: int, m: Marks) -> Marks
    decreases b.len() - i,
{
    if i < 0 || i >= b.len() {
        m
    } else if b[i] == 0x1b {
        proof {
            lemma_esc_end(b, i);
        }
        let e = esc_end(b, i);
        track(b, e, mark_event(osc8_uri(b.subrange(i, e)), m))
    } else {
        proof {
            lemma_text_end(b, i + 1);
        }
        let j = text_end(b, i + 1);
        track(b, j, Marks { n: m.n + (j - i), ..m })
    }
}

proof fn lemma_split_track(b: Seq<u8>, i: int, st: Split)
    requires
        0 <= i,
    ensures
        split_from(b, i, st).taken == track(
            b,
            i,
            Marks { n: st.plain.len() as int, taken: st.taken, open: st.open },
        ).taken,
        split_from(b, i, st).open == track(
            b,
            i,
            Marks { n: st.plain.len() as int, taken: st.taken, open: st.open },
        ).open,
        split_from(b, i, st).plain.len() == track(
            b,
            i,
            Marks { n: st.plain.len() as int, taken: st.taken, open: st.open },
        ).n,
    decreases b.len() - i,
{
    if i < b.len() {
        if b[i] == 0x1b {
            lemma_esc_end(b, i);
            let e = esc_end(b, i);
            lemma_split_track(b, e, esc_step(b, i, e, st));
        } else {
            lemma_text_end(b, i + 1);
            let j = text_end(b, i + 1);
            lemma_split_track(b, j, text_step(b, i, j, st));
        }
    }
}

/// The regions a line's hyperlinks take, from its bookkeeping.
pub open spec fn final_taken(m: Marks) -> Seq<(int, int)> {
    match m.open {
        Some(s) => if m.n > s {
            m.taken.push((s, m.n))
        } else {
            m.taken
        },
        None => m.taken,
    }
}

proof fn lemma_line_taken(b: Seq<u8>)
    ensures
        line_model(b).taken == final_taken(
            track(b, 0, Marks { n: 0, taken: Seq::empty(), open: None }),
        ),
{
    lemma_split_track(b, 0, empty_split());
}

proof fn lemma_track_text_step(w: Seq<u8>, i: int, m: Marks)
    requires
        0 <= i < w.len(),
        w[i] != 0x1b,
    ensures
        track(w, i, m) == track(w, i + 1, Marks { n: m.n + 1, ..m }),
{
    lemma_text_end(w, i + 1);
    let j = text_end(w, i + 1);
    if i + 1 < w.len() && w[i + 1] != 0x1b {
        lemma_text_end(w, i + 2);
        assert(text_end(w, i + 1) == text_end(w, i + 2));
        assert(Marks { n: m.n + 1 + (j - (i + 1)), ..m } == Marks { n: m.n + (j - i), ..m });
    }
}

/// The URI part of an opener is the sanitized URI; a closer's is empty.
proof fn lemma_wrapper_uri(h: Seq<u8>)
    ensures
        osc8_uri(open_bytes(h)) == Some(sanitized(h)),
        osc8_uri(close_bytes()) == Some(Seq::<u8>::empty()),
{
    let z = sanitized(h);
    lemma_encode_printable(h, Keep::Printable);
    let o = open_bytes(h);
    assert(o.subrange(0, 4) =~= osc8_lead());
    let body = o.subrange(4, o.len() as int);
    let n = body.len() as int;
    assert(body[n - 2] == 0x1b && body[n - 1] == 0x5c);
    let body2 = body.subrange(0, n - 2);
    assert(body2 =~= seq![0x3bu8] + z);
    assert(first_semicolon(body2, 0) == 0);
    assert(body2.subrange(1, body2.len() as int) =~= z);
    let c = close_bytes();
    assert(c.subrange(0, 4) =~= osc8_lead());
    let cb = c.subrange(4, c.len() as int);
    assert(cb.subrange(0, 1) =~= seq![0x3bu8]);
    assert(first_semicolon(cb.subrange(0, 1), 0) == 0);
    assert(cb.subrange(0, 1).subrange(1, 1) =~= Seq::<u8>::empty());
}

proof fn lemma_track_wrapper(w: Seq<u8>, i: int, x: Seq<u8>, m: Marks)
    requires
        x == close_bytes() || exists|h: Seq<u8>| x == open_bytes(h),
        0 <= i,
        i + x.len() <= w.len(),
        w.subrange(i, i + x.len()) == x,
    ensures
        track(w, i, m) == track(w, i + x.len(), mark_event(osc8_uri(x), m)),
{
    lemma_wrapper_is_one_escape(w, i, x);
}

/// A link written out completely before plain offset `q`.
pub open spec fn done_by(l: LinkSpec, q: int) -> bool {
    l.start < q && l.end <= q
}

/// The first link from `i` on that is not written out before `q`.
pub open spec fn first_open(links: Seq<LinkSpec>, q: int, i: int) -> int
    decreases links.len() - i,
{
    if 0 <= i < links.len() && done_by(links[i], q) {
        first_open(links, q, i + 1)
    } else {
        i
    }
}

/// The first link from `i` on that is not empty at `q`.
pub open spec fn first_unempty(links: Seq<LinkSpec>, q: int, i: int) -> int
    decreases links.len() - i,
{
    if 0 <= i < links.len() && links[i].start == q && links[i].end == q {
        first_unempty(links, q, i + 1)
    } else {
        i
    }
}

/// The spans of the non-empty links, in order.
pub open spec fn nonempty_spans(links: Seq<LinkSpec>) -> Seq<(int, int)>
    decreases links.len(),
{
    if links.len() == 0 {
        Seq::empty()
    } else {
        nonempty_spans(links.drop_last()) + if links.last().start < links.last().end {
            seq![(links.last().start, links.last().end)]
        } else {
            Seq::empty()
        }
    }
}

/// The bookkeeping a re-parse of rendered output has at plain offset `q`:
/// the links written out so far are taken, and one that is open across
/// `q` is open.
pub open spec fn marks_at(links: Seq<LinkSpec>, q: int) -> Marks {
    let li = first_open(links, q, 0);
    Marks {
        n: q,
        taken: nonempty_spans(links.take(li)),
        open: if li < links.len() && links[li].start < q {
            Some(links[li].start)
        } else {
            None
        },
    }
}

/// Links sorted and apart, each with a non-empty target when it is not
/// empty itself.
pub open spec fn well_placed(links: Seq<LinkSpec>) -> bool {
    &&& forall|k: int| 0 <= k < links.len() ==> 0 <= (#[trigger] links[k]).start <= links[k].end
    &&& in_order(links)
    &&& forall|k: int|
        0 <= k < links.len() && (#[trigger] links[k]).start < links[k].end ==> links[k].href.len()
            > 0
}

proof fn lemma_first_open(links: Seq<LinkSpec>, q: int, i: int, li: int)
    requires
        0 <= i <= li <= links.len(),
        forall|j: int| i <= j < li ==> done_by(#[trigger] links[j], q),
        li < links.len() ==> !done_by(links[li], q),
    ensures
        first_open(links, q, i) == li,
    decreases li - i,
{
    if i < li {
        lemma_first_open(links, q, i + 1, li);
    }
}

proof fn lemma_first_open_props(links: Seq<LinkSpec>, q: int, i: int)
    requires
        0 <= i <= links.len(),
    ensures
        i <= first_open(links, q, i) <= links.len(),
        forall|j: int| i <= j < first_open(links, q, i) ==> done_by(#[trigger] links[j], q),
        first_open(links, q, i) < links.len() ==> !done_by(links[first_open(links, q, i)], q),
    decreases links.len() - i,
{
    if i < links.len() && done_by(links[i], q) {
        lemma_first_open_props(links, q, i + 1);
    }
}

proof fn lemma_first_unempty_props(links: Seq<LinkSpec>, q: int, i: int)
    requires
        0 <= i <= links.len(),
    ensures
        i <= first_unempty(links, q, i) <= links.len(),
        forall|j: int|
            i <= j < first_unempty(links, q, i) ==> (#[trigger] links[j]).start == q && links[j].end
                == q,
        first_unempty(links, q, i) < links.len() ==> !(links[first_unempty(links, q, i)].start
            == q && links[first_unempty(links, q, i)].end == q),
    decreases links.len() - i,
{
    if i < links.len() && links[i].start == q && links[i].end == q {
        lemma_first_unempty_props(links, q, i + 1);
    }
}

proof fn lemma_spans_extend(links: Seq<LinkSpec>, lo: int, hi: int)
    requires
        0 <= lo <= hi <= links.len(),
        forall|j: int| lo <= j < hi ==> (#[trigger] links[j]).start == links[j].end,
    ensures
        nonempty_spans(links.take(hi)) == nonempty_spans(links.take(lo)),
    decreases hi - lo,
{
    if lo < hi {
        lemma_spans_extend(links, lo, hi - 1);
        assert(links.take(hi).drop_last() =~= links.take(hi - 1));
        assert(links.take(hi).last() == links[hi - 1]);
        assert(nonempty_spans(links.take(hi - 1)) + Seq::<(int, int)>::empty() =~= nonempty_spans(
            links.take(hi - 1),
        ));
    }
}

proof fn lemma_spans_push(links: Seq<LinkSpec>, k: int)
    requires
        0 <= k < links.len(),
        links[k].start < links[k].end,
    ensures
        nonempty_spans(links.take(k + 1)) == nonempty_spans(links.take(k)).push(
            (links[k].start, links[k].end),
        ),
{
    assert(links.take(k + 1).drop_last() =~= links.take(k));
    assert(links.take(k + 1).last() == links[k]);
    assert(nonempty_spans(links.take(k)) + seq![(links[k].start, links[k].end)] =~= nonempty_spans(
        links.take(k),
    ).push((links[k].start, links[k].end)));
}

proof fn lemma_encode_len(s: Seq<u8>, k: Keep)
    ensures
        crate::text::percent_encode(s, k).len() >= s.len(),
    decreases s.len(),
{
    if s.len() > 0 {
        lemma_encode_len(s.drop_last(), k);
    }
}

/// Empty links at `q` leave the bookkeeping as it was.
proof fn lemma_track_empties(w: Seq<u8>, at: int, e: Seq<LinkSpec>, q: int, m: Marks)
    requires
        forall|j: int| 0 <= j < e.len() ==> (#[trigger] e[j]).start == q && e[j].end == q,
        m.n == q,
        m.open is None,
        0 <= at,
        at + opens_at(e, q).len() <= w.len(),
        w.subrange(at, at + opens_at(e, q).len()) == opens_at(e, q),
    ensures
        track(w, at, m) == track(w, at + opens_at(e, q).len(), m),
    decreases e.len(),
{
    if e.len() > 0 {
        let d = e.drop_last();
        let l = e.last();
        let a = opens_at(d, q);
        let x = open_part(l, q);
        assert(opens_at(e, q) == a + x);
        assert forall|j: int| 0 <= j < d.len() implies (#[trigger] d[j]).start == q && d[j].end
            == q by {
            assert(d[j] == e[j]);
        }
        assert(w.subrange(at, at + a.len()) =~= w.subrange(at, at + (a + x).len()).subrange(
            0,
            a.len() as int,
        ));
        assert((a + x).subrange(0, a.len() as int) =~= a);
        lemma_track_empties(w, at, d, q, m);
        assert(l == e[e.len() - 1]);
        let o = open_bytes(l.href);
        let c = close_bytes();
        assert(x == o + c);
        let j = at + a.len();
        assert(w.subrange(j, j + o.len()) =~= w.subrange(at, at + (a + x).len()).subrange(
            a.len() as int,
            (a.len() + o.len()) as int,
        ));
        assert(w.subrange(j + o.len(), j + o.len() + c.len()) =~= w.subrange(
            at,
            at + (a + x).len(),
        ).subrange((a.len() + o.len()) as int, (a.len() + o.len() + c.len()) as int));
        assert((a + x).subrange(a.len() as int, (a.len() + o.len()) as int) =~= o);
        assert((a + x).subrange((a.len() + o.len()) as int, (a.len() + o.len() + c.len()) as int)
            =~= c);
        lemma_track_wrapper(w, j, o, m);
        lemma_wrapper_uri(l.href);
        let m1 = mark_event(osc8_uri(o), m);
        lemma_track_wrapper(w, j + o.len(), c, m1);
        assert(mark_event(osc8_uri(c), m1) == m);
    }
}

/// Splitting the openers at `q` into those of three consecutive parts.
proof fn lemma_opens_split3(links: Seq<LinkSpec>, q: int, a: int, b: int)
    requires
        0 <= a <= b <= links.len(),
    ensures
        opens_at(links, q) == opens_at(links.subrange(0, a), q) + opens_at(links.subrange(a, b), q)
            + opens_at(links.subrange(b, links.len() as int), q),
{
    assert(links =~= links.subrange(0, a) + links.subrange(a, b) + links.subrange(
        b,
        links.len() as int,
    ));
    lemma_opens_concat(links.subrange(0, a), links.subrange(a, b), q);
    lemma_opens_concat(
        links.subrange(0, a) + links.subrange(a, b),
        links.subrange(b, links.len() as int),
        q,
    );
}

/// One visible byte with what goes around it, read back, while a link is
/// open across it.
#[verifier::rlimit(80)]
proof fn lemma_track_chunk_open(w: Seq<u8>, at: int, links: Seq<LinkSpec>, q: int, byte: u8)
    requires
        well_placed(links),
        0 <= q,
        byte != 0x1b,
        0 <= at,
        ({
            let c = opens_at(links, q) + seq![byte] + closes_at(links, q + 1);
            at + c.len() <= w.len() && w.subrange(at, at + c.len()) == c
        }),
        first_open(links, q, 0) < links.len() && links[first_open(links, q, 0)].start < q,
    ensures
        track(w, at, marks_at(links, q)) == track(
            w,
            at + (opens_at(links, q) + seq![byte] + closes_at(links, q + 1)).len(),
            marks_at(links, q + 1),
        ),
{
    let n = links.len() as int;
    let o = opens_at(links, q);
    let cl = closes_at(links, q + 1);
    let c = o + seq![byte] + cl;
    let li = first_open(links, q, 0);
    lemma_first_open_props(links, q, 0);
    let m0 = marks_at(links, q);
    assert(w.subrange(at, at + o.len()) =~= c.subrange(0, o.len() as int));
    assert(c.subrange(0, o.len() as int) =~= o);
    assert(w[at + o.len()] == c[o.len() as int]);
    let at2 = at + o.len() + 1;
    assert(w.subrange(at2, at2 + cl.len()) =~= c.subrange((o.len() + 1) as int, c.len() as int));
    assert(c.subrange((o.len() + 1) as int, c.len() as int) =~= cl);
    // a link is open across `q`: nothing starts here
    let l = links[li];
    assert(l.end > q);
    assert forall|j: int| 0 <= j < n implies (#[trigger] links[j]).start != q by {
        if j < li {
            assert(done_by(links[j], q));
        } else if j > li {
            assert(links[li].end <= links[j].start);
        }
    }
    lemma_opens_none(links, q);
    lemma_track_text_step(w, at, m0);
    let m1 = Marks { n: q + 1, ..m0 };
    assert forall|j: int| 0 <= j < n && j != li implies !((#[trigger] links[j]).start < q + 1
        && links[j].end == q + 1) by {
        if j < li {
            assert(done_by(links[j], q));
        } else {
            assert(links[li].end <= links[j].start);
        }
    }
    lemma_closes_only(links, q + 1, li);
    if l.end == q + 1 {
        lemma_track_wrapper(w, at2, close_bytes(), m1);
        lemma_wrapper_uri(Seq::empty());
        if li + 1 < n {
            assert(links[li].end <= links[li + 1].start);
        }
        assert forall|j: int| 0 <= j < li + 1 implies done_by(#[trigger] links[j], q + 1) by {
            if j < li {
                assert(done_by(links[j], q));
            }
        }
        lemma_first_open(links, q + 1, 0, li + 1);
        lemma_spans_push(links, li);
    } else {
        assert forall|j: int| 0 <= j < li implies done_by(#[trigger] links[j], q + 1) by {
            assert(done_by(links[j], q));
        }
        lemma_first_open(links, q + 1, 0, li);
        assert(cl == Seq::<u8>::empty());
    }
}

/// One visible byte with what goes around it, read back, while no link is
/// open across it.
#[verifier::rlimit(80)]
proof fn lemma_track_chunk_fresh(w: Seq<u8>, at: int, links: Seq<LinkSpec>, q: int, byte: u8)
    requires
        well_placed(links),
        0 <= q,
        byte != 0x1b,
        0 <= at,
        ({
            let c = opens_at(links, q) + seq![byte] + closes_at(links, q + 1);
            at + c.len() <= w.len() && w.subrange(at, at + c.len()) == c
        }),
        !(first_open(links, q, 0) < links.len() && links[first_open(links, q, 0)].start < q),
    ensures
        track(w, at, marks_at(links, q)) == track(
            w,
            at + (opens_at(links, q) + seq![byte] + closes_at(links, q + 1)).len(),
            marks_at(links, q + 1),
        ),
{
    let n = links.len() as int;
    let o = opens_at(links, q);
    let cl = closes_at(links, q + 1);
    let c = o + seq![byte] + cl;
    let li = first_open(links, q, 0);
    lemma_first_open_props(links, q, 0);
    let m0 = marks_at(links, q);
    assert(w.subrange(at, at + o.len()) =~= c.subrange(0, o.len() as int));
    assert(c.subrange(0, o.len() as int) =~= o);
    assert(w[at + o.len()] == c[o.len() as int]);
    let at2 = at + o.len() + 1;
    assert(w.subrange(at2, at2 + cl.len()) =~= c.subrange((o.len() + 1) as int, c.len() as int));
    assert(c.subrange((o.len() + 1) as int, c.len() as int) =~= cl);
    assert(m0.open is None);
    assert forall|j: int| li <= j < n implies (#[trigger] links[j]).start >= q by {
        if j > li {
            assert(links[li].end <= links[j].start);
        }
    }
    let mm = first_unempty(links, q, li);
    lemma_first_unempty_props(links, q, li);
    let starts = mm < n && links[mm].start == q;
    let hi: int = if starts {
        mm + 1
    } else {
        mm
    };
    lemma_opens_split3(links, q, li, hi);
    let pre = links.subrange(0, li);
    let mid = links.subrange(li, hi);
    let post = links.subrange(hi, n);
    assert forall|j: int| 0 <= j < pre.len() implies (#[trigger] pre[j]).start != q by {
        assert(pre[j] == links[j]);
        assert(done_by(links[j], q));
    }
    lemma_opens_none(pre, q);
    assert forall|j: int| 0 <= j < post.len() implies (#[trigger] post[j]).start != q by {
        let jj = hi + j;
        assert(post[j] == links[jj]);
        if starts {
            assert(links[mm].end <= links[jj].start);
        } else if mm < n {
            assert(links[mm].start != q);
            if jj > mm {
                assert(links[mm].end <= links[jj].start);
            }
        }
    }
    lemma_opens_none(post, q);
    let e = links.subrange(li, mm);
    assert forall|j: int| 0 <= j < e.len() implies (#[trigger] e[j]).start == q && e[j].end
        == q by {
        assert(e[j] == links[li + j]);
    }
    let oe = opens_at(e, q);
    if starts {
        assert(mid =~= e.push(links[mm]));
        assert(mid.drop_last() =~= e);
    } else {
        assert(mid =~= e);
    }
    assert(o =~= opens_at(mid, q)) by {
        assert(Seq::<u8>::empty() + opens_at(mid, q) + Seq::<u8>::empty() =~= opens_at(mid, q));
    }
    assert(w.subrange(at, at + oe.len()) =~= o.subrange(0, oe.len() as int));
    assert(o.subrange(0, oe.len() as int) =~= oe);
    lemma_track_empties(w, at, e, q, m0);
    let at1 = at + oe.len();
    let m1 = if starts {
        Marks { open: Some(q), ..m0 }
    } else {
        m0
    };
    if starts {
        let h = links[mm].href;
        let ob = open_bytes(h);
        assert(open_part(links[mm], q) == ob);
        assert(o =~= oe + ob);
        assert(o.subrange(oe.len() as int, o.len() as int) =~= ob);
        assert(w.subrange(at1, at1 + ob.len()) =~= o.subrange(oe.len() as int, o.len() as int));
        lemma_track_wrapper(w, at1, ob, m0);
        lemma_wrapper_uri(h);
        lemma_encode_len(h, Keep::Printable);
        assert(links[mm].end > q);
    } else {
        assert(o =~= oe);
    }
    lemma_track_text_step(w, at + o.len(), m1);
    let m2 = Marks { n: q + 1, ..m1 };
    assert forall|j: int| 0 <= j < n && j != mm implies !((#[trigger] links[j]).start < q + 1
        && links[j].end == q + 1) by {
        if j < li {
            assert(done_by(links[j], q));
        } else if j < mm {
            assert(links[j].end == q);
        } else if mm < n {
            assert(links[mm].end <= links[j].start);
            if !starts {
                assert(links[mm].start > q);
            }
        }
    }
    lemma_closes_only(links, q + 1, mm);
    lemma_spans_extend(links, li, mm);
    assert forall|j: int| 0 <= j < mm implies done_by(#[trigger] links[j], q + 1) by {
        if j < li {
            assert(done_by(links[j], q));
        }
    }
    if starts && links[mm].end == q + 1 {
        lemma_track_wrapper(w, at2, close_bytes(), m2);
        lemma_wrapper_uri(Seq::empty());
        if mm + 1 < n {
            assert(links[mm].end <= links[mm + 1].start);
        }
        lemma_first_open(links, q + 1, 0, mm + 1);
        lemma_spans_push(links, mm);
    } else {
        assert(cl == Seq::<u8>::empty()) by {
            if mm < n {
                assert(!(links[mm].start < q + 1 && links[mm].end == q + 1)) by {
                    if !starts {
                        assert(links[mm].start > q);
                    }
                }
            }
        }
        if mm < n {
            if !starts {
                assert(links[mm].start > q);
            }
        }
        lemma_first_open(links, q + 1, 0, mm);
    }
}

/// One visible byte with what goes around it, read back: the bookkeeping
/// moves from that of `q` to that of `q + 1`.
proof fn lemma_track_chunk(w: Seq<u8>, at: int, links: Seq<LinkSpec>, q: int, byte: u8)
    requires
        well_placed(links),
        0 <= q,
        byte != 0x1b,
        0 <= at,
        ({
            let c = opens_at(links, q) + seq![byte] + closes_at(links, q + 1);
            at + c.len() <= w.len() && w.subrange(at, at + c.len()) == c
        }),
    ensures
        track(w, at, marks_at(links, q)) == track(
            w,
            at + (opens_at(links, q) + seq![byte] + closes_at(links, q + 1)).len(),
            marks_at(links, q + 1),
        ),
{
    let li = first_open(links, q, 0);
    if li < links.len() && links[li].start < q {
        lemma_track_chunk_open(w, at, links, q, byte);
    } else {
        lemma_track_chunk_fresh(w, at, links, q, byte);
    }
}

/// A rendered text piece, read back, moves the bookkeeping over its bytes.
proof fn lemma_track_text(
    w: Seq<u8>,
    at: int,
    line: Seq<u8>,
    links: Seq<LinkSpec>,
    s: int,
    p: int,
    n: int,
)
    requires
        well_placed(links),
        0 <= at,
        0 <= s,
        0 <= p,
        0 <= n,
        s + n <= line.len(),
        forall|t: int| s <= t < s + n ==> #[trigger] line[t] != 0x1b,
        at + render_text(line, links, s, p, n).len() <= w.len(),
        w.subrange(at, at + render_text(line, links, s, p, n).len()) == render_text(
            line,
            links,
            s,
            p,
            n,
        ),
    ensures
        track(w, at, marks_at(links, p)) == track(
            w,
            at + render_text(line, links, s, p, n).len(),
            marks_at(links, p + n),
        ),
    decreases n,
{
    if n > 0 {
        let r = render_text(line, links, s, p, n);
        let r0 = render_text(line, links, s, p, n - 1);
        let c = opens_at(links, p + n - 1) + seq![line[s + n - 1]] + closes_at(links, p + n);
        assert(r == r0 + c);
        assert(r.subrange(0, r0.len() as int) =~= r0);
        assert(w.subrange(at, at + r0.len()) =~= r.subrange(0, r0.len() as int));
        lemma_track_text(w, at, line, links, s, p, n - 1);
        assert(r.subrange(r0.len() as int, r.len() as int) =~= c);
        assert(w.subrange(at + r0.len(), at + r0.len() + c.len()) =~= r.subrange(
            r0.len() as int,
            r.len() as int,
        ));
        lemma_track_chunk(w, at + r0.len(), links, p + n - 1, line[s + n - 1]);
    }
}

/// The line holds no OSC 8 hyperlink sequence of its own.
pub open spec fn has_no_hyperlinks(b: Seq<u8>) -> bool {
    forall|k: int|
        0 <= k < line_model(b).pieces.len() ==> (#[trigger] line_model(b).pieces[k] matches PieceSpec::Esc {
            start,
            end,
        } ==> osc8_uri(b.subrange(start, end)) is None)
}

proof fn lemma_track_pieces(b: Seq<u8>, links: Seq<LinkSpec>, k: int)
    requires
        well_placed(links),
        has_no_hyperlinks(b),
        0 <= k <= line_model(b).pieces.len(),
    ensures
        track(
            render_pieces(b, line_model(b).pieces, links, line_model(b).pieces.len() as int),
            0,
            Marks { n: 0, taken: Seq::empty(), open: None },
        ) == track(
            render_pieces(b, line_model(b).pieces, links, line_model(b).pieces.len() as int),
            render_pieces(b, line_model(b).pieces, links, k).len() as int,
            marks_at(links, plain_pos(line_model(b).pieces, k)),
        ),
    decreases k,
{
    let m = line_model(b);
    let ps = m.pieces;
    let kk = ps.len() as int;
    let w = render_pieces(b, ps, links, kk);
    lemma_line_tiled(b);
    if k == 0 {
        if links.len() > 0 {
            assert(!done_by(links[0], 0));
        }
        lemma_first_open(links, 0, 0, 0);
        assert(links.take(0) =~= Seq::<LinkSpec>::empty());
        assert(marks_at(links, 0) == Marks { n: 0, taken: Seq::<(int, int)>::empty(), open: None });
    } else {
        lemma_track_pieces(b, links, k - 1);
        let j = k - 1;
        assert(piece_fits(b, ps, m.plain, j));
        lemma_piece_in_output(b, m.plain, ps, links, j);
        let at = render_pieces(b, ps, links, j).len() as int;
        match ps[j] {
            PieceSpec::Text { start, end, plain_start } => {
                lemma_track_text(w, at, b, links, start, plain_start, end - start);
            },
            PieceSpec::Esc { start, end } => {
                lemma_copied_escape(b, m.plain, ps, links, j);
                assert(osc8_uri(b.subrange(start, end)) is None);
            },
        }
    }
}

/// Law: wrapping links around a line that holds no hyperlinks of its own
/// makes exactly the non-empty links the regions a re-parse reports as
/// taken, so feeding rendered output back in never wraps a link twice.
pub proof fn rendered_links_read_back_as_taken(b: Seq<u8>, links: Seq<LinkSpec>)
    requires
        has_no_hyperlinks(b),
        renderable(line_model(b).plain, links),
        forall|k: int|
            0 <= k < links.len() && (#[trigger] links[k]).start < links[k].end ==> links[k].href.len()
                > 0,
    ensures
        line_model(rendered(line_model(b), links)).taken == nonempty_spans(links),
{
    let m = line_model(b);
    let ps = m.pieces;
    let kk = ps.len() as int;
    let w = rendered(m, links);
    let pl = m.plain.len() as int;
    lemma_line_tiled(b);
    assert forall|k: int| 0 <= k < links.len() implies 0 <= (#[trigger] links[k]).start
        <= links[k].end by {
        assert(link_within(m.plain, links[k]));
    }
    lemma_track_pieces(b, links, kk);
    lemma_line_taken(w);
    let li = first_open(links, pl, 0);
    lemma_first_open_props(links, pl, 0);
    assert forall|j: int| li <= j < links.len() implies (#[trigger] links[j]).start
        == links[j].end by {
        assert(link_within(m.plain, links[j]));
        if j > li {
            assert(links[li].end <= links[j].start);
            assert(link_within(m.plain, links[li]));
        }
    }
    lemma_spans_extend(links, li, links.len() as int);
    assert(links.take(links.len() as int) =~= links);
    if li < links.len() {
        assert(link_within(m.plain, links[li]));
    }
    if kk > 0 {
        assert(piece_end(ps.last()) == b.len());
    }
}

// ---------------------------------------------------------------------------
// Exec
// ---------------------------------------------------------------------------

#[derive(Clone, Copy)]
enum Piece {
    Text { start: usize, end: usize, plain_start: usize },
    Esc { start: usize, end: usize },
}

impl View for Piece {
    type V = PieceSpec;

    closed spec fn view(&self) -> PieceSpec {
        match *self {
            Piece::Text { start, end, plain_start } => PieceSpec::Text {
                start: start as int,
                end: end as int,
                plain_start: plain_start as int,
            },
            Piece::Esc { start, end } => PieceSpec::Esc { start: start as int, end: end as int },
        }
    }
}

spec fn pieces_view(v: Seq<Piece>) -> Seq<PieceSpec> {
    v.map_values(|p: Piece| p@)
}


/// A parsed line: its pieces, the concatenated visible text, and the
/// plain-text ranges already covered by pre-existing hyperlinks.
pub struct AnsiLine<'a> {
    line: &'a str,
    pieces: Vec<Piece>,
    plain: String,
    taken: Vec<(usize, usize)>,
}

impl<'a> View for AnsiLine<'a> {
    type V = LineModel;

    closed spec fn view(&self) -> LineModel {
        LineModel {
            line: str_bytes(self.line),
            pieces: pieces_view(self.pieces@),
            plain: string_bytes(self.plain),
            taken: spans_view(self.taken@),
        }
    }
}

fn esc_end_exec(b: &[u8], i: usize) -> (r: usize)
    requires
        i < b.len(),
        b@[i as int] == 0x1b,
    ensures
        r == esc_end(b@, i as int),
{
    if i + 1 >= b.len() {
        return i + 1;
    }
    match b[i + 1] {
        0x5b => {
            let mut j = i + 2;
            while j < b.len() && 0x20 <= b[j] && b[j] <= 0x3f
                invariant
                    i + 2 <= j <= b.len(),
                    run_in(b@, j as int, 0x20, 0x3f) == run_in(b@, i + 2, 0x20, 0x3f),
                decreases b.len() - j,
            {
                j = j + 1;
            }
            if j < b.len() && 0x40 <= b[j] && b[j] <= 0x7e {
                j + 1
            } else {
                j
            }
        },
        0x5d | 0x50 | 0x58 | 0x5e | 0x5f => {
            let mut j = i + 2;
            assert(esc_end(b@, i as int) == string_end(b@, i + 2));
            while j < b.len()
                invariant
                    i + 2 <= j <= b.len(),
                    esc_end(b@, i as int) == string_end(b@, i + 2),
                    string_end(b@, j as int) == string_end(b@, i + 2),
                decreases b.len() - j,
            {
                if b[j] == 0x07 {
                    return j + 1;
                }
                if b[j] == 0x1b {
                    if j + 1 < b.len() && b[j + 1] == 0x5c {
                        return j + 2;
                    }
                    return j;
                }
                j = j + 1;
            }
            j
        },
        0x20..=0x2f => {
            let mut j = i + 1;
            while j < b.len() && 0x20 <= b[j] && b[j] <= 0x2f
                invariant
                    i + 1 <= j <= b.len(),
                    run_in(b@, j as int, 0x20, 0x2f) == run_in(b@, i + 1, 0x20, 0x2f),
                decreases b.len() - j,
            {
                j = j + 1;
            }
            if j < b.len() && 0x30 <= b[j] && b[j] <= 0x7e {
                j + 1
            } else {
                j
            }
        },
        0x30..=0x7e => i + 2,
        _ => i + 1,
    }
}

/// What an escape sequence means for pre-existing hyperlinks.
enum LinkEvent {
    Plain,
    Open,
    Close,
}

fn osc8_event(b: &[u8], i: usize, e: usize) -> (r: LinkEvent)
    requires
        i <= e <= b.len(),
    ensures
        r is Plain <==> osc8_uri(b@.subrange(i as int, e as int)) is None,
        r is Open <==> (osc8_uri(b@.subrange(i as int, e as int)) matches Some(u) && u.len() > 0),
        r is Close <==> (osc8_uri(b@.subrange(i as int, e as int)) matches Some(u) && u.len()
            == 0),
{
    let ghost s = b@.subrange(i as int, e as int);
    if e - i < 4 || b[i] != 0x1b || b[i + 1] != 0x5d || b[i + 2] != 0x38 || b[i + 3] != 0x3b {
        proof {
            if s.len() >= 4 && s.subrange(0, 4) == osc8_lead() {
                assert(s.subrange(0, 4)[0] == b@[i as int]);
                assert(s.subrange(0, 4)[1] == b@[i + 1]);
                assert(s.subrange(0, 4)[2] == b@[i + 2]);
                assert(s.subrange(0, 4)[3] == b@[i + 3]);
            }
        }
        return LinkEvent::Plain;
    }
    proof {
        assert(s.subrange(0, 4) =~= osc8_lead());
    }
    // body = [i + 4, e)
    let bs = i + 4;
    let n = e - bs;
    let be = if n >= 2 && b[e - 2] == 0x1b && b[e - 1] == 0x5c {
        e - 2
    } else if n >= 1 && b[e - 1] == 0x07 {
        e - 1
    } else {
        e
    };
    let ghost body = s.subrange(4, s.len() as int);
    let ghost body2 = b@.subrange(bs as int, be as int);
    proof {
        assert(body =~= b@.subrange(bs as int, e as int));
        if n >= 2 && b@[e - 2] == 0x1b && b@[e - 1] == 0x5c {
            assert(body.subrange(0, n - 2) =~= body2);
        } else if n >= 1 && b@[e - 1] == 0x07 {
            assert(body[n - 1] == b@[e - 1]);
            assert(body.subrange(0, n - 1) =~= body2);
            if n >= 2 {
                assert(body[n - 2] == b@[e - 2]);
            }
        } else {
            assert(body =~= body2);
            if n >= 2 {
                assert(body[n - 2] == b@[e - 2]);
                assert(body[n - 1] == b@[e - 1]);
            }
            if n >= 1 {
                assert(body[n - 1] == b@[e - 1]);
            }
        }
    }
    let mut k = bs;
    while k < be && b[k] != 0x3b
        invariant
            bs <= k <= be <= b.len(),
            body2 == b@.subrange(bs as int, be as int),
            first_semicolon(body2, (k - bs) as int) == first_semicolon(body2, 0),
        decreases be - k,
    {
        proof {
            assert(body2[k - bs] == b@[k as int]);
        }
        k = k + 1;
    }
    if k == be {
        return LinkEvent::Plain;
    }
    proof {
        assert(body2[k - bs] == b@[k as int]);
        assert(first_semicolon(body2, 0) == k - bs);
    }
    if k + 1 == be {
        LinkEvent::Close
    } else {
        LinkEvent::Open
    }
}

/// Links before `li` are written out completely by plain offset `q`; the
/// link at `li`, if any, is open across `q` or starts at or after it.
pub open spec fn done_before(lv: Seq<LinkSpec>, li: int, q: int) -> bool {
    &&& 0 <= li <= lv.len()
    &&& forall|j: int| 0 <= j < li ==> (#[trigger] lv[j]).start < q && lv[j].end <= q
    &&& li < lv.len() ==> lv[li].start >= q || lv[li].end > q
}

/// Write what the links put before the visible byte at plain offset `q`
/// (which is `b[x]`). Returns the next link to handle: one that is open
/// across `q`, or starts after it.
#[verifier::rlimit(80)]
fn emit_opens(
    out: &mut Vec<u8>,
    b: &[u8],
    x: usize,
    q: usize,
    links: &[Link],
    li: usize,
    plain: Ghost<Seq<u8>>,
) -> (li1: usize)
    requires
        valid_utf8(b@),
        x < b.len(),
        q < plain@.len(),
        plain@[q as int] == b@[x as int],
        renderable(plain@, links_view(links@)),
        done_before(links_view(links@), li as int, q as int),
        valid_utf8(old(out)@ + b@.subrange(x as int, b@.len() as int)),
    ensures
        final(out)@ == old(out)@ + opens_at(links_view(links@), q as int),
        li <= li1 <= links.len(),
        forall|j: int|
            0 <= j < li1 ==> (#[trigger] links_view(links@)[j]).start <= q && links_view(
                links@,
            )[j].end <= q,
        li1 < links.len() ==> links_view(links@)[li1 as int].start > q || links_view(
            links@,
        )[li1 as int].end > q,
        valid_utf8(final(out)@ + b@.subrange(x as int, b@.len() as int)),
{
    let ghost lv = links_view(links@);
    let ghost p = plain@;
    let ghost o = out@;
    let ghost li0 = li as int;
    let ghost rest = b@.subrange(x as int, b@.len() as int);
    proof {
        assert(rest[0] == b@[x as int]);
    }
    let mut li = li;
    let mut go = true;
    while go && li < links.len() && links[li].start == q
        invariant
            lv == links_view(links@),
            valid_utf8(b@),
            x < b.len(),
            q < p.len(),
            p[q as int] == b@[x as int],
            rest == b@.subrange(x as int, b@.len() as int),
            rest[0] == b@[x as int],
            renderable(p, lv),
            li0 <= li <= links.len(),
            forall|j: int| li0 <= j < li ==> (#[trigger] lv[j]).start == q && lv[j].end == q,
            done_before(lv, li0, q as int),
            !go ==> li < links.len() && lv[li as int].start == q && lv[li as int].end > q,
            out@ == o + opens_at(lv.subrange(li0, if go {
                li as int
            } else {
                li + 1
            }), q as int),
            valid_utf8(out@ + rest),
        decreases (links.len() - li) as int + if go {
            1int
        } else {
            0int
        },
    {
        proof {
            assert(lv[li as int] == links@[li as int]@);
            assert(link_within(p, lv[li as int]));
            assert(at_boundary(p, q as int));
            assert(!is_continuation_byte(rest[0]));
            lemma_open_ascii(lv[li as int].href);
            lemma_insert_ascii(out@, rest, open_bytes(lv[li as int].href));
        }
        push_open(out, bytes_of(&links[li].href));
        proof {
            let z = lv.subrange(li0, li + 1);
            assert(z.drop_last() =~= lv.subrange(li0, li as int));
            assert(z.last() == lv[li as int]);
            assert(opens_at(z, q as int) == opens_at(lv.subrange(li0, li as int), q as int)
                + open_part(lv[li as int], q as int));
        }
        if links[li].end == q {
            proof {
                lemma_close_ascii();
                lemma_insert_ascii(out@, rest, close_bytes());
            }
            push_close(out);
            proof {
                assert(out@ =~= o + opens_at(lv.subrange(li0, li + 1), q as int));
            }
            li = li + 1;
        } else {
            go = false;
            proof {
                assert(lv[li as int].end >= q);
                assert(out@ =~= o + opens_at(lv.subrange(li0, li + 1), q as int));
            }
        }
    }
    let ghost e: int = if go {
        li as int
    } else {
        li + 1
    };
    proof {
        assert forall|j: int| 0 <= j < li0 implies (#[trigger] lv.subrange(0, li0)[j]).start != q by {
            assert(lv.subrange(0, li0)[j] == lv[j]);
        }
        lemma_opens_none(lv.subrange(0, li0), q as int);
        if go && li < links.len() {
            assert(lv[li as int] == links@[li as int]@);
            assert(lv[li as int].start != q);
            if li > li0 {
                assert(lv[li - 1].end <= lv[li as int].start);
            }
        }
        assert forall|j: int| 0 <= j < lv.len() - e implies (#[trigger] lv.subrange(
            e,
            lv.len() as int,
        )[j]).start != q by {
            let jj = e + j;
            assert(lv.subrange(e, lv.len() as int)[j] == lv[jj]);
            assert(link_within(p, lv[jj]));
            assert(link_within(p, lv[li as int]) || li == links.len());
            if jj > li {
                assert(lv[li as int].end <= lv[jj].start);
            }
        }
        lemma_opens_none(lv.subrange(e, lv.len() as int), q as int);
        assert(lv =~= lv.subrange(0, li0) + lv.subrange(li0, e) + lv.subrange(e, lv.len() as int));
        lemma_opens_concat(lv.subrange(0, li0), lv.subrange(li0, e), q as int);
        lemma_opens_concat(
            lv.subrange(0, li0) + lv.subrange(li0, e),
            lv.subrange(e, lv.len() as int),
            q as int,
        );
        assert(opens_at(lv, q as int) =~= opens_at(lv.subrange(li0, e), q as int));
    }
    li
}

/// Write the visible byte `b[x]` (plain offset `q`) with the wrappers that
/// go around it. Returns the next link to handle.
fn emit_byte(
    out: &mut Vec<u8>,
    b: &[u8],
    x: usize,
    q: usize,
    links: &[Link],
    li: usize,
    plain: Ghost<Seq<u8>>,
) -> (li2: usize)
    requires
        valid_utf8(b@),
        x < b.len(),
        q < plain@.len(),
        plain@[q as int] == b@[x as int],
        at_boundary(plain@, q + 1) ==> at_boundary(b@, x + 1),
        renderable(plain@, links_view(links@)),
        done_before(links_view(links@), li as int, q as int),
        valid_utf8(old(out)@ + b@.subrange(x as int, b@.len() as int)),
    ensures
        final(out)@ == old(out)@ + opens_at(links_view(links@), q as int) + seq![b@[x as int]]
            + closes_at(links_view(links@), q + 1),
        done_before(links_view(links@), li2 as int, q + 1),
        valid_utf8(final(out)@ + b@.subrange(x + 1, b@.len() as int)),
{
    let ghost lv = links_view(links@);
    let ghost p = plain@;
    let ghost o = out@;
    let ghost rest = b@.subrange(x as int, b@.len() as int);
    let mut li = emit_opens(out, b, x, q, links, li, plain);
    let ghost o2 = out@;
    out.push(b[x]);
    proof {
        assert(rest[0] == b@[x as int]);
        assert(out@ + b@.subrange(x + 1, b@.len() as int) =~= o2 + rest);
    }
    let ghost rest1 = b@.subrange(x + 1, b@.len() as int);
    proof {
        if li < links.len() {
            assert(lv[li as int] == links@[li as int]@);
            assert(link_within(p, lv[li as int]));
        }
        assert forall|j: int|
            0 <= j < lv.len() && j != li implies !((#[trigger] lv[j]).start < q + 1 && lv[j].end
            == q + 1) by {
            assert(link_within(p, lv[j]));
            if j > li {
                assert(lv[li as int].end <= lv[j].start);
            }
        }
        lemma_closes_only(lv, q + 1, li as int);
    }
    if li < links.len() && links[li].start <= q && links[li].end == q + 1 {
        proof {
            assert(at_boundary(p, q + 1));
            lemma_close_ascii();
            if rest1.len() > 0 {
                assert(rest1[0] == b@[x + 1]);
            }
            lemma_insert_ascii(out@, rest1, close_bytes());
        }
        push_close(out);
        li = li + 1;
        proof {
            if li < links.len() {
                assert(lv[li - 1].end <= lv[li as int].start);
            }
        }
    }
    proof {
        if li < links.len() {
            assert(lv[li as int] == links@[li as int]@);
        }
        assert(out@ =~= o + opens_at(lv, q as int) + seq![b@[x as int]] + closes_at(lv, q + 1));
    }
    li
}

impl<'a> AnsiLine<'a> {
    #[verifier::type_invariant]
    spec fn well_formed(self) -> bool {
        self@ == line_model(str_bytes(self.line))
    }

    /// Split a line into escape sequences and visible text.
    pub fn parse(line: &'a str) -> (r: AnsiLine<'a>)
        ensures
            r@ == line_model(str_bytes(line)),
    {
        let b = slice_bytes(line);
        let mut pieces: Vec<Piece> = Vec::new();
        let mut plain: Vec<u8> = Vec::new();
        let mut taken: Vec<(usize, usize)> = Vec::new();
        let mut open: Option<usize> = None;
        let mut i: usize = 0;
        proof {
            assert(pieces_view(pieces@) =~= Seq::<PieceSpec>::empty());
            assert(spans_view(taken@) =~= Seq::<(int, int)>::empty());
            lemma_ascii_valid(plain@);
            if b.len() > 0 {
                assert(valid_first_scalar(b@));
            }
        }
        while i < b.len()
            invariant
                valid_utf8(b@),
                b@ == str_bytes(line),
                i <= b.len(),
                at_boundary(b@, i as int),
                valid_utf8(plain@),
                plain@.len() <= i,
                split_from(b@, 0, empty_split()) == split_from(
                    b@,
                    i as int,
                    Split {
                        pieces: pieces_view(pieces@),
                        plain: plain@,
                        taken: spans_view(taken@),
                        open: match open {
                            Some(o) => Some(o as int),
                            None => None,
                        },
                    },
                ),
            decreases b.len() - i,
        {
            let ghost st = Split {
                pieces: pieces_view(pieces@),
                plain: plain@,
                taken: spans_view(taken@),
                open: match open {
                    Some(o) => Some(o as int),
                    None => None,
                },
            };
            if b[i] == 0x1b {
                proof {
                    lemma_esc_end(b@, i as int);
                }
                let end = esc_end_exec(b, i);
                match osc8_event(b, i, end) {
                    LinkEvent::Close => {
                        if let Some(start) = open {
                            if plain.len() > start {
                                taken.push((start, plain.len()));
                            }
                        }
                        open = None;
                    },
                    LinkEvent::Open => {
                        open = Some(plain.len());
                    },
                    LinkEvent::Plain => {},
                }
                pieces.push(Piece::Esc { start: i, end });
                proof {
                    assert(pieces_view(pieces@) =~= esc_step(b@, i as int, end as int, st).pieces);
                    assert(spans_view(taken@) =~= esc_step(b@, i as int, end as int, st).taken);
                    if end < b.len() && b@[end as int] != 0x1b {
                        lemma_after_ascii(b@, end as int);
                    } else if end < b.len() {
                    }
                    if end < b.len() && !is_ascii_byte(b@[end - 1]) {
                        assert(b@[end as int] == 0x1b);
                    } else if end < b.len() {
                        lemma_after_ascii(b@, end as int);
                    }
                }
                i = end;
            } else {
                proof {
                    lemma_text_end(b@, i + 1);
                }
                let mut j = i + 1;
                while j < b.len() && b[j] != 0x1b
                    invariant
                        i < j <= b.len(),
                        text_end(b@, j as int) == text_end(b@, i + 1),
                    decreases b.len() - j,
                {
                    j = j + 1;
                }
                let ghost pb = plain@;
                let plain_start = plain.len();
                proof {
                    if j < b.len() {
                        assert(at_boundary(b@, j as int));
                    }
                    lemma_valid_between(b@, i as int, j as int);
                    valid_utf8_concat(pb, b@.subrange(i as int, j as int));
                }
                push_range(&mut plain, b, i, j);
                pieces.push(Piece::Text { start: i, end: j, plain_start });
                proof {
                    assert(pieces_view(pieces@) =~= text_step(b@, i as int, j as int, st).pieces);
                }
                i = j;
            }
        }
        let ghost st_end = Split {
            pieces: pieces_view(pieces@),
            plain: plain@,
            taken: spans_view(taken@),
            open: match open {
                Some(o) => Some(o as int),
                None => None,
            },
        };
        if let Some(start) = open {
            if plain.len() > start {
                taken.push((start, plain.len()));
            }
        }
        proof {
            assert(spans_view(taken@) =~= close_region(st_end).taken);
        }
        let text = bytes_to_string(plain);
        let r = AnsiLine { line, pieces, plain: text, taken };
        r
    }

    /// Re-emit the line with OSC 8 wrappers around `links`.
    /// `links` must be sorted by start and non-overlapping
    /// (`scan::resolve` guarantees both). A link may span escape sequences:
    /// the wrapper opens before its first visible byte and closes after its
    /// last, so colors keep working inside the link.
    pub fn render(&self, links: &[Link]) -> (r: String)
        requires
            renderable(self@.plain, links_view(links@)),
        ensures
            string_bytes(r) == rendered(self@, links_view(links@)),
    {
        proof {
            use_type_invariant(self);
            lemma_line_tiled(str_bytes(self.line));
        }
        let ghost m = self@;
        let ghost lv = links_view(links@);
        let b = slice_bytes(self.line);
        let mut out: Vec<u8> = Vec::new();
        let mut li: usize = 0;
        let mut k: usize = 0;
        proof {
            assert(out@ + b@.subrange(0, b@.len() as int) =~= b@);
        }
        while k < self.pieces.len()
            invariant
                m == self@,
                b@ == m.line,
                valid_utf8(b@),
                m.pieces == pieces_view(self.pieces@),
                tiled(b@, m.pieces, m.plain, b@.len() as int),
                renderable(m.plain, lv),
                lv == links_view(links@),
                k <= self.pieces.len(),
                out@ == render_pieces(b@, m.pieces, lv, k as int),
                done_before(lv, li as int, plain_pos(m.pieces, k as int)),
                valid_utf8(out@ + b@.subrange(
                    if k == 0 {
                        0
                    } else {
                        piece_end(m.pieces[k - 1])
                    },
                    b@.len() as int,
                )),
            decreases self.pieces.len() - k,
        {
            let ghost pos: int = if k == 0 {
                0
            } else {
                piece_end(m.pieces[k - 1])
            };
            proof {
                assert(piece_fits(b@, m.pieces, m.plain, k as int));
                assert(m.pieces[k as int] == self.pieces@[k as int]@);
            }
            match self.pieces[k] {
                Piece::Esc { start, end } => {
                    let ghost o = out@;
                    push_range(&mut out, b, start, end);
                    proof {
                        assert(out@ + b@.subrange(end as int, b@.len() as int) =~= o + b@.subrange(
                            pos,
                            b@.len() as int,
                        ));
                    }
                },
                Piece::Text { start, end, plain_start } => {
                    let ghost o = out@;
                    let mut x = start;
                    proof {
                        assert(out@ =~= o + render_text(b@, lv, start as int, plain_start as int, 0));
                    }
                    while x < end
                        invariant
                            m == self@,
                            b@ == m.line,
                            valid_utf8(b@),
                            renderable(m.plain, lv),
                            lv == links_view(links@),
                            piece_fits(b@, m.pieces, m.plain, k as int),
                            m.pieces[k as int] == (PieceSpec::Text {
                                start: start as int,
                                end: end as int,
                                plain_start: plain_start as int,
                            }),
                            start <= x <= end,
                            out@ == o + render_text(
                                b@,
                                lv,
                                start as int,
                                plain_start as int,
                                x - start,
                            ),
                            done_before(lv, li as int, plain_start + (x - start)),
                            valid_utf8(out@ + b@.subrange(x as int, b@.len() as int)),
                        decreases end - x,
                    {
                        let q = plain_start + (x - start);
                        let ghost o2 = out@;
                        proof {
                            assert(m.plain[q as int] == b@[x as int]) by {
                                assert(m.plain.subrange(plain_start as int, plain_start + (end - start))[x
                                    - start] == b@.subrange(start as int, end as int)[x - start]);
                            }
                            if x + 1 < end {
                                assert(m.plain.subrange(
                                    plain_start as int,
                                    plain_start + (end - start),
                                )[x + 1 - start] == b@.subrange(start as int, end as int)[x + 1
                                    - start]);
                            }
                        }
                        li = emit_byte(&mut out, b, x, q, links, li, Ghost(m.plain));
                        x = x + 1;
                        proof {
                            assert(out@ =~= o + render_text(
                                b@,
                                lv,
                                start as int,
                                plain_start as int,
                                x - start,
                            ));
                        }
                    }
                    proof {
                        assert(pos == start);
                    }
                },
            }
            k = k + 1;
        }
        proof {
            assert(b@.subrange(b@.len() as int, b@.len() as int) =~= Seq::<u8>::empty());
            assert(out@ + Seq::<u8>::empty() =~= out@);
        }
        bytes_to_string(out)
    }

    /// The line itself.
    pub fn text(&self) -> (r: &str)
        ensures
            str_bytes(r) == self@.line,
            self@ == line_model(self@.line),
    {
        proof {
            use_type_invariant(self);
        }
        self.line
    }

    /// The visible text of the line (what detectors scan).
    pub fn plain(&self) -> (r: &str)
        ensures
            str_bytes(r) == self@.plain,
    {
        self.plain.as_str()
    }

    /// Plain-text ranges already inside a hyperlink in the input.
    pub fn taken(&self) -> (r: &[(usize, usize)])
        ensures
            spans_view(r@) == self@.taken,
    {
        self.taken.as_slice()
    }
}

} // verus!
