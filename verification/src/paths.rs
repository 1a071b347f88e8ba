//! File-path detection: the part that makes compiler output clickable.
//!
//! Recognized shapes:
//!
//! - `src/main.rs:14:9` / `src/main.rs:14`: rustc, gcc, clang, eslint, tsc
//! - `Sources/App.swift(31,7)` / `file.c(12)`: MSVC and swiftc styles
//! - `File "/app/tool.py", line 88`: Python tracebacks (contextual)
//! - `/var/log/app.log`, `./relative`, `../up`, `~/home`: bare paths
//! - `Makefile:12` style bare filenames with a line suffix
//!
//! False positives are the enemy of a filter that sees arbitrary prose, so
//! by default a candidate only becomes a link if it actually exists on disk
//! (relative to `cwd`). Whether a file exists is not something this module
//! can know: [`crate::cli::LineScan`] hands each candidate's path to the
//! caller and takes the answer, as [`path_links_by`] describes. [`find`]
//! takes every candidate as existing, which is the whole detector when
//! `check` is off.
use crate::issues::opt_bytes;
use crate::scan::{all_fit, link_fits, links_view, Kind, Link, LinkSpec, Options};
use crate::text::{
    alnum, alpha, at_boundary, bytes_of, bytes_to_string, char_width, contains, contains_bytes,
    ends_with, has_at, has_prefix, has_suffix, is_alnum, is_alpha, is_ascii_byte,
    lemma_after_ascii, lemma_ascii_valid, lemma_next_char, lemma_valid_between, number_at,
    occurs_at, push_range, push_valid, read_number, slice_bytes, starts_with, str_bytes,
    string_bytes, width_of,
};
use crate::uri::{editor_href, file_uri_bytes, file_uri_vec};
use vstd::prelude::*;
use vstd::utf8::*;

verus! {

// ---------------------------------------------------------------------------
// Lexical normalization
// ---------------------------------------------------------------------------

/// `..`
pub open spec fn dotdot() -> Seq<u8> {
    seq![0x2eu8, 0x2e]
}

/// First `/` at or after `i`, or the end.
pub open spec fn next_slash(b: Seq<u8>, i: int) -> int
    decreases b.len() - i,
{
    if i < 0 || i >= b.len() || b[i] == 0x2f {
        i
    } else {
        next_slash(b, i + 1)
    }
}

pub proof fn lemma_next_slash(b: Seq<u8>, i: int)
    requires
        0 <= i <= b.len(),
    ensures
        i <= next_slash(b, i) <= b.len(),
        forall|k: int| i <= k < next_slash(b, i) ==> #[trigger] b[k] != 0x2f,
        next_slash(b, i) < b.len() ==> b[next_slash(b, i)] == 0x2f,
    decreases b.len() - i,
{
    if i < b.len() && b[i] != 0x2f {
        lemma_next_slash(b, i + 1);
    }
}

/// The components of a path from byte `i` on: the pieces between slashes,
/// without empty and `.` pieces (what `Path::components` yields as normal,
/// parent and current-directory components, current-directory ones
/// dropped).
pub open spec fn segments_from(b: Seq<u8>, i: int) -> Seq<Seq<u8>>
    decreases b.len() - i,
{
    if i < 0 || i > b.len() {
        Seq::empty()
    } else {
        proof {
            lemma_next_slash(b, i);
        }
        let k = next_slash(b, i);
        let seg = b.subrange(i, k);
        let rest = if k < b.len() {
            segments_from(b, k + 1)
        } else {
            Seq::empty()
        };
        if seg.len() == 0 || seg == seq![0x2eu8] {
            rest
        } else {
            seq![seg] + rest
        }
    }
}

/// One component applied to the normalized stack: `..` pops a name,
/// stays at the root, or piles up at the front of a relative path.
pub open spec fn push_segment(root: bool, stack: Seq<Seq<u8>>, seg: Seq<u8>) -> Seq<Seq<u8>> {
    if seg == dotdot() {
        if stack.len() == 0 {
            if root {
                stack
            } else {
                stack.push(dotdot())
            }
        } else if stack.last() == dotdot() {
            stack.push(dotdot())
        } else {
            stack.drop_last()
        }
    } else {
        stack.push(seg)
    }
}

pub open spec fn fold_segments(root: bool, stack: Seq<Seq<u8>>, segs: Seq<Seq<u8>>) -> Seq<
    Seq<u8>,
>
    decreases segs.len(),
{
    if segs.len() == 0 {
        stack
    } else {
        fold_segments(root, push_segment(root, stack, segs[0]), segs.drop_first())
    }
}

/// Components joined with `/`.
pub open spec fn join_segments(s: Seq<Seq<u8>>) -> Seq<u8>
    decreases s.len(),
{
    if s.len() == 0 {
        Seq::empty()
    } else if s.len() == 1 {
        s[0]
    } else {
        join_segments(s.drop_last()) + seq![0x2fu8] + s.last()
    }
}

pub open spec fn is_rooted(b: Seq<u8>) -> bool {
    b.len() > 0 && b[0] == 0x2f
}

/// The components left after resolving `.` and `..` lexically.
pub open spec fn normal_components(b: Seq<u8>) -> Seq<Seq<u8>> {
    fold_segments(is_rooted(b), Seq::empty(), segments_from(b, 0))
}

/// The lexically normalized path.
pub open spec fn normalized(b: Seq<u8>) -> Seq<u8> {
    if is_rooted(b) {
        seq![0x2fu8] + join_segments(normal_components(b))
    } else {
        join_segments(normal_components(b))
    }
}

fn is_dotdot(b: &[u8], from: usize, to: usize) -> (r: bool)
    requires
        from <= to <= b.len(),
    ensures
        r == (b@.subrange(from as int, to as int) == dotdot()),
{
    if to - from == 2 && b[from] == 0x2e && b[from + 1] == 0x2e {
        proof {
            assert(b@.subrange(from as int, to as int) =~= dotdot());
        }
        true
    } else {
        proof {
            let s = b@.subrange(from as int, to as int);
            if to - from == 2 {
                assert(s[0] == b@[from as int]);
                assert(s[1] == b@[from + 1]);
                assert(dotdot()[0] == 0x2e && dotdot()[1] == 0x2e);
            } else {
                assert(s.len() != dotdot().len());
            }
        }
        false
    }
}

pub open spec fn stack_view(s: Seq<Vec<u8>>) -> Seq<Seq<u8>> {
    s.map_values(|v: Vec<u8>| v@)
}

pub open spec fn all_valid(s: Seq<Seq<u8>>) -> bool {
    forall|k: int| 0 <= k < s.len() ==> valid_utf8(#[trigger] s[k])
}

proof fn lemma_join_valid(s: Seq<Seq<u8>>)
    requires
        all_valid(s),
    ensures
        valid_utf8(join_segments(s)),
    decreases s.len(),
{
    if s.len() > 1 {
        lemma_join_valid(s.drop_last());
        lemma_ascii_valid(seq![0x2fu8]);
        valid_utf8_concat(join_segments(s.drop_last()), seq![0x2fu8]);
        valid_utf8_concat(join_segments(s.drop_last()) + seq![0x2fu8], s.last());
    } else if s.len() == 1 {
        assert(valid_utf8(s[0]));
    }
}

fn dotdot_vec() -> (r: Vec<u8>)
    ensures
        r@ == dotdot(),
        valid_utf8(r@),
{
    let mut v: Vec<u8> = Vec::new();
    v.push(0x2e);
    v.push(0x2e);
    proof {
        assert(v@ =~= dotdot());
        lemma_ascii_valid(v@);
    }
    v
}

pub(crate) fn normalize_bytes(b: &[u8]) -> (r: Vec<u8>)
    requires
        valid_utf8(b@),
    ensures
        r@ == normalized(b@),
        valid_utf8(r@),
{
    let root = b.len() > 0 && b[0] == 0x2f;
    let mut stack: Vec<Vec<u8>> = Vec::new();
    let mut i: usize = 0;
    proof {
        assert(stack_view(stack@) =~= Seq::<Seq<u8>>::empty());
    }
    loop
        invariant_except_break
            normal_components(b@) == fold_segments(root, stack_view(stack@), segments_from(
                b@,
                i as int,
            )),
        invariant
            valid_utf8(b@),
            root == is_rooted(b@),
            i <= b.len(),
            at_boundary(b@, i as int),
            all_valid(stack_view(stack@)),
        ensures
            normal_components(b@) == stack_view(stack@),
        decreases b.len() - i,
    {
        let ghost old_stack = stack_view(stack@);
        proof {
            lemma_next_slash(b@, i as int);
        }
        let mut k = i;
        while k < b.len() && b[k] != 0x2f
            invariant
                i <= k <= b.len(),
                next_slash(b@, i as int) == next_slash(b@, k as int),
            decreases b.len() - k,
        {
            k = k + 1;
        }
        let ghost seg = b@.subrange(i as int, k as int);
        proof {
            lemma_valid_between(b@, i as int, k as int);
        }
        if k == i || (k - i == 1 && b[i] == 0x2e) {
            proof {
                if k - i == 1 {
                    assert(seg =~= seq![0x2eu8]);
                }
            }
        } else {
            proof {
                if k - i == 1 {
                    assert(seg[0] == b@[i as int]);
                    assert(seg != seq![0x2eu8]);
                }
            }
            if is_dotdot(b, i, k) {
                let n = stack.len();
                if n == 0 {
                    if !root {
                        stack.push(dotdot_vec());
                    }
                } else {
                    let last_dd = is_dotdot(stack[n - 1].as_slice(), 0, stack[n - 1].len());
                    proof {
                        let lastv = old_stack.last();
                        assert(lastv == stack@[n - 1]@);
                        assert(lastv.subrange(0, lastv.len() as int) =~= lastv);
                    }
                    if last_dd {
                        stack.push(dotdot_vec());
                    } else {
                        stack.pop();
                    }
                }
            } else {
                let mut v: Vec<u8> = Vec::new();
                push_range(&mut v, b, i, k);
                proof {
                    assert(v@ =~= seg);
                }
                stack.push(v);
            }
            proof {
                let sv = stack_view(stack@);
                assert(sv =~= push_segment(root, old_stack, seg));
            }
        }
        proof {
            let segs = segments_from(b@, i as int);
            if k < b.len() {
                assert(segs == if seg.len() == 0 || seg == seq![0x2eu8] {
                    segments_from(b@, k + 1)
                } else {
                    seq![seg] + segments_from(b@, k + 1)
                });
            }
            if !(seg.len() == 0 || seg == seq![0x2eu8]) {
                let rest = if k < b.len() {
                    segments_from(b@, k + 1)
                } else {
                    Seq::empty()
                };
                assert((seq![seg] + rest).drop_first() =~= rest);
                assert((seq![seg] + rest)[0] == seg);
            }
        }
        if k == b.len() {
            proof {
                let segs = segments_from(b@, i as int);
                if seg.len() == 0 || seg == seq![0x2eu8] {
                    assert(segs =~= Seq::<Seq<u8>>::empty());
                } else {
                    assert(segs =~= seq![seg]);
                    assert(segs.drop_first() =~= Seq::<Seq<u8>>::empty());
                    assert(segs[0] == seg);
                    let sv = stack_view(stack@);
                    assert(fold_segments(root, sv, Seq::<Seq<u8>>::empty()) == sv);
                    assert(fold_segments(root, old_stack, segs) == fold_segments(
                        root,
                        push_segment(root, old_stack, seg),
                        Seq::<Seq<u8>>::empty(),
                    ));
                }
            }
            break ;
        }
        proof {
            lemma_after_ascii(b@, k + 1);
        }
        i = k + 1;
    }
    // render
    let mut out: Vec<u8> = Vec::new();
    if root {
        out.push(0x2f);
    }
    let ghost prefix = out@;
    let ghost sv = stack_view(stack@);
    let mut j: usize = 0;
    proof {
        lemma_ascii_valid(out@);
        assert(sv.take(0) =~= Seq::<Seq<u8>>::empty());
        assert(out@ =~= prefix + join_segments(sv.take(0)));
    }
    while j < stack.len()
        invariant
            j <= stack.len(),
            sv == stack_view(stack@),
            all_valid(sv),
            valid_utf8(out@),
            out@ == prefix + join_segments(sv.take(j as int)),
        decreases stack.len() - j,
    {
        proof {
            assert(sv.take(j + 1).drop_last() =~= sv.take(j as int));
            assert(sv.take(j + 1).last() == sv[j as int]);
            assert(valid_utf8(sv[j as int]));
        }
        if j > 0 {
            out.push(0x2f);
            proof {
                assert(out@ =~= (prefix + join_segments(sv.take(j as int))) + seq![0x2fu8]);
                lemma_ascii_valid(seq![0x2fu8]);
                valid_utf8_concat(prefix + join_segments(sv.take(j as int)), seq![0x2fu8]);
            }
        }
        let ghost before = out@;
        push_valid(&mut out, stack[j].as_slice());
        proof {
            if j == 0 {
                assert(sv.take(1) =~= seq![sv[0]]);
            }
            assert(out@ =~= prefix + join_segments(sv.take(j + 1)));
        }
        j = j + 1;
    }
    proof {
        assert(sv.take(stack.len() as int) =~= sv);
        assert(out@ =~= normalized(b@));
    }
    out
}

/// Resolve `.` and `..` components lexically (no filesystem access, no
/// symlink resolution: the link should show the path the tool printed).
/// `/..` is `/`; leading `..`s of a relative path are kept.
pub fn lexical_normalize(path: &str) -> (r: String)
    ensures
        string_bytes(r) == normalized(str_bytes(path)),
{
    bytes_to_string(normalize_bytes(slice_bytes(path)))
}

// ---------------------------------------------------------------------------
// Laws of normalization
// ---------------------------------------------------------------------------

/// A path component as normalization leaves it: non-empty, without `/`,
/// and not `.`.
pub open spec fn is_name(c: Seq<u8>) -> bool {
    c.len() > 0 && c != seq![0x2eu8] && !has_byte(c, 0x2f)
}

/// Components as normalization leaves them: names, with `..` only at the
/// front, and none at all in an absolute path.
pub open spec fn clean_components(root: bool, s: Seq<Seq<u8>>) -> bool {
    &&& forall|k: int| 0 <= k < s.len() ==> is_name(#[trigger] s[k])
    &&& forall|i: int, j: int|
        0 <= i < j < s.len() && #[trigger] s[j] == dotdot() ==> #[trigger] s[i] == dotdot()
    &&& root ==> forall|k: int| 0 <= k < s.len() ==> #[trigger] s[k] != dotdot()
}

proof fn lemma_segments_are_names(b: Seq<u8>, i: int)
    ensures
        forall|k: int|
            0 <= k < segments_from(b, i).len() ==> is_name(#[trigger] segments_from(b, i)[k]),
    decreases b.len() - i,
{
    if 0 <= i <= b.len() {
        lemma_next_slash(b, i);
        let k = next_slash(b, i);
        let seg = b.subrange(i, k);
        if k < b.len() {
            lemma_segments_are_names(b, k + 1);
        }
        let rest = if k < b.len() {
            segments_from(b, k + 1)
        } else {
            Seq::empty()
        };
        if !(seg.len() == 0 || seg == seq![0x2eu8]) {
            assert(!has_byte(seg, 0x2f)) by {
                if has_byte(seg, 0x2f) {
                    let m = choose|m: int| 0 <= m < seg.len() && seg[m] == 0x2f;
                    assert(b[i + m] == 0x2f);
                }
            }
            let r = seq![seg] + rest;
            assert forall|m: int| 0 <= m < r.len() implies is_name(#[trigger] r[m]) by {
                if m > 0 {
                    assert(r[m] == rest[m - 1]);
                }
            }
        }
    }
}

proof fn lemma_fold_clean(root: bool, stack: Seq<Seq<u8>>, segs: Seq<Seq<u8>>)
    requires
        clean_components(root, stack),
        forall|k: int| 0 <= k < segs.len() ==> is_name(#[trigger] segs[k]),
    ensures
        clean_components(root, fold_segments(root, stack, segs)),
    decreases segs.len(),
{
    if segs.len() > 0 {
        let st2 = push_segment(root, stack, segs[0]);
        assert(is_name(segs[0]));
        assert(is_name(dotdot())) by {
            assert(dotdot() != seq![0x2eu8]) by {
                assert(dotdot().len() != seq![0x2eu8].len());
            }
            if has_byte(dotdot(), 0x2f) {
                let m = choose|m: int| 0 <= m < dotdot().len() && dotdot()[m] == 0x2f;
            }
        }
        assert(clean_components(root, st2)) by {
            if segs[0] == dotdot() {
                if stack.len() == 0 {
                } else if stack.last() == dotdot() {
                    assert forall|i: int, j: int|
                        0 <= i < j < st2.len() && #[trigger] st2[j] == dotdot() implies #[trigger] st2[i]
                        == dotdot() by {
                        assert(st2[i] == stack[i]);
                        if i < stack.len() - 1 {
                            assert(stack[stack.len() - 1] == dotdot());
                        }
                    }
                    assert forall|k: int| 0 <= k < st2.len() implies is_name(#[trigger] st2[k]) by {
                        if k < stack.len() {
                            assert(st2[k] == stack[k]);
                        }
                    }
                    if root {
                        assert(stack[stack.len() - 1] != dotdot());
                    }
                } else {
                    assert forall|k: int| 0 <= k < st2.len() implies is_name(#[trigger] st2[k]) by {
                        assert(st2[k] == stack[k]);
                    }
                    assert forall|i: int, j: int|
                        0 <= i < j < st2.len() && #[trigger] st2[j] == dotdot() implies #[trigger] st2[i]
                        == dotdot() by {
                        assert(st2[i] == stack[i] && st2[j] == stack[j]);
                    }
                    if root {
                        assert forall|k: int| 0 <= k < st2.len() implies #[trigger] st2[k]
                            != dotdot() by {
                            assert(st2[k] == stack[k]);
                        }
                    }
                }
            } else {
                assert forall|k: int| 0 <= k < st2.len() implies is_name(#[trigger] st2[k]) by {
                    if k < stack.len() {
                        assert(st2[k] == stack[k]);
                    }
                }
                assert forall|i: int, j: int|
                    0 <= i < j < st2.len() && #[trigger] st2[j] == dotdot() implies #[trigger] st2[i]
                    == dotdot() by {
                    assert(st2[i] == stack[i]);
                    if j < stack.len() {
                        assert(st2[j] == stack[j]);
                    }
                }
                if root {
                    assert forall|k: int| 0 <= k < st2.len() implies #[trigger] st2[k]
                        != dotdot() by {
                        if k < stack.len() {
                            assert(st2[k] == stack[k]);
                        }
                    }
                }
            }
        }
        let rest = segs.drop_first();
        assert forall|k: int| 0 <= k < rest.len() implies is_name(#[trigger] rest[k]) by {
            assert(rest[k] == segs[k + 1]);
        }
        lemma_fold_clean(root, st2, rest);
    }
}

/// Law: lexical normalization resolves every `.` and `..` it can: what is
/// left are names, with `..` only leading a relative path.
pub proof fn normalized_components_are_clean(b: Seq<u8>)
    ensures
        clean_components(is_rooted(b), normal_components(b)),
{
    lemma_segments_are_names(b, 0);
    lemma_fold_clean(is_rooted(b), Seq::empty(), segments_from(b, 0));
}

proof fn lemma_next_slash_shift(p: Seq<u8>, q: Seq<u8>, j: int)
    requires
        0 <= j <= q.len(),
    ensures
        next_slash(p + q, p.len() + j) == p.len() + next_slash(q, j),
    decreases q.len() - j,
{
    if j < q.len() {
        assert((p + q)[p.len() + j] == q[j]);
        if q[j] != 0x2f {
            lemma_next_slash_shift(p, q, j + 1);
        }
    }
}

proof fn lemma_segments_shift(p: Seq<u8>, q: Seq<u8>, j: int)
    requires
        0 <= j <= q.len(),
    ensures
        segments_from(p + q, p.len() + j) == segments_from(q, j),
    decreases q.len() - j,
{
    lemma_next_slash_shift(p, q, j);
    lemma_next_slash(q, j);
    let k = next_slash(q, j);
    assert((p + q).subrange(p.len() + j, p.len() + k) =~= q.subrange(j, k));
    if k < q.len() {
        lemma_segments_shift(p, q, k + 1);
    }
}

proof fn lemma_name_no_slash(a: Seq<u8>, i: int)
    requires
        is_name(a),
        0 <= i < a.len(),
    ensures
        a[i] != 0x2f,
{
}

/// The components of `a/r` for a name `a`.
proof fn lemma_segments_cons(a: Seq<u8>, r: Seq<u8>)
    requires
        is_name(a),
    ensures
        segments_from(a + seq![0x2fu8] + r, 0) == seq![a] + segments_from(r, 0),
        segments_from(a, 0) == seq![a],
{
    let w = a + seq![0x2fu8] + r;
    assert forall|k: int| 0 <= k < a.len() implies #[trigger] w[k] != 0x2f by {
        assert(w[k] == a[k]);
        lemma_name_no_slash(a, k);
    }
    lemma_next_slash_aux(w, 0, a.len() as int);
    assert(w[a.len() as int] == 0x2f);
    assert(w.subrange(0, a.len() as int) =~= a);
    assert(w =~= (a + seq![0x2fu8]) + r);
    lemma_segments_shift(a + seq![0x2fu8], r, 0);
    assert forall|k: int| 0 <= k < a.len() implies #[trigger] a[k] != 0x2f by {
        lemma_name_no_slash(a, k);
    }
    lemma_next_slash_aux(a, 0, a.len() as int);
    assert(a.subrange(0, a.len() as int) =~= a);
    assert(seq![a] + Seq::<Seq<u8>>::empty() =~= seq![a]);
}

proof fn lemma_next_slash_aux(b: Seq<u8>, i: int, e: int)
    requires
        0 <= i <= e <= b.len(),
        forall|k: int| i <= k < e ==> #[trigger] b[k] != 0x2f,
        e == b.len() || b[e] == 0x2f,
    ensures
        next_slash(b, i) == e,
    decreases e - i,
{
    if i < e {
        lemma_next_slash_aux(b, i + 1, e);
    }
}

proof fn lemma_join_cons(a: Seq<u8>, t: Seq<Seq<u8>>)
    requires
        t.len() > 0,
    ensures
        join_segments(seq![a] + t) == a + seq![0x2fu8] + join_segments(t),
    decreases t.len(),
{
    let s = seq![a] + t;
    let sl = seq![0x2fu8];
    assert(s.drop_last() =~= seq![a] + t.drop_last());
    assert(s.last() == t.last());
    assert(join_segments(s) == join_segments(s.drop_last()) + sl + s.last());
    if t.len() > 1 {
        lemma_join_cons(a, t.drop_last());
        assert(join_segments(t) == join_segments(t.drop_last()) + sl + t.last());
        assert(a + sl + join_segments(t.drop_last()) + sl + t.last() =~= a + sl + (join_segments(
            t.drop_last(),
        ) + sl + t.last()));
    } else {
        assert(seq![a] + t.drop_last() =~= seq![a]);
        assert(join_segments(seq![a]) == a);
        assert(join_segments(t) == t[0]);
    }
}

/// Joining names and splitting them again gives them back.
proof fn lemma_segments_of_join(s: Seq<Seq<u8>>)
    requires
        forall|k: int| 0 <= k < s.len() ==> is_name(#[trigger] s[k]),
    ensures
        segments_from(join_segments(s), 0) == s,
    decreases s.len(),
{
    if s.len() == 0 {
        assert(join_segments(s).len() == 0);
        assert(Seq::<u8>::empty().subrange(0, 0) =~= Seq::<u8>::empty());
    } else {
        let a = s[0];
        let t = s.drop_first();
        assert(s =~= seq![a] + t);
        assert(is_name(a));
        if t.len() == 0 {
            lemma_segments_cons(a, Seq::empty());
            assert(join_segments(s) == a);
        } else {
            assert forall|k: int| 0 <= k < t.len() implies is_name(#[trigger] t[k]) by {
                assert(t[k] == s[k + 1]);
            }
            lemma_segments_of_join(t);
            lemma_join_cons(a, t);
            lemma_segments_cons(a, join_segments(t));
        }
    }
}

proof fn lemma_fold_clean_id(root: bool, acc: Seq<Seq<u8>>, s: Seq<Seq<u8>>)
    requires
        clean_components(root, acc + s),
    ensures
        fold_segments(root, acc, s) == acc + s,
    decreases s.len(),
{
    if s.len() == 0 {
        assert(acc + s =~= acc);
    } else {
        let all = acc + s;
        let x = s[0];
        assert(all[acc.len() as int] == x);
        if x == dotdot() {
            if acc.len() > 0 {
                assert(all[acc.len() - 1] == acc.last());
                assert(acc.last() == dotdot());
            } else if root {
                assert(all[0] != dotdot());
            }
        }
        assert(push_segment(root, acc, x) == acc.push(x));
        assert(acc.push(x) + s.drop_first() =~= acc + s);
        lemma_fold_clean_id(root, acc.push(x), s.drop_first());
    }
}

/// Law: normalizing a normalized path changes nothing.
pub proof fn normalize_is_idempotent(b: Seq<u8>)
    ensures
        normalized(normalized(b)) == normalized(b),
{
    let root = is_rooted(b);
    let s = normal_components(b);
    normalized_components_are_clean(b);
    let j = join_segments(s);
    let n = normalized(b);
    lemma_segments_of_join(s);
    if root {
        assert(n =~= seq![0x2fu8] + j);
        assert(is_rooted(n));
        lemma_next_slash_aux(n, 0, 0);
        lemma_segments_shift(seq![0x2fu8], j, 0);
        assert(n.subrange(0, 0) =~= Seq::<u8>::empty());
        assert(segments_from(n, 0) == s);
    } else {
        assert(n == j);
        if s.len() > 0 {
            if s.len() > 1 {
                lemma_join_cons(s[0], s.drop_first());
                assert(s =~= seq![s[0]] + s.drop_first());
            }
            assert(j[0] == s[0][0]);
            assert(s[0][0] != 0x2f) by {
                assert(is_name(s[0]));
                lemma_name_no_slash(s[0], 0);
            }
        }
        assert(!is_rooted(n));
    }
    assert(Seq::<Seq<u8>>::empty() + s =~= s);
    lemma_fold_clean_id(root, Seq::empty(), s);
}

// ---------------------------------------------------------------------------
// Path candidates
// ---------------------------------------------------------------------------

/// Bytes that can be part of a path token. Colons, parens, quotes and
/// commas are deliberately excluded: they delimit tokens in compiler output
/// and are parsed as line/column suffixes afterwards.
pub open spec fn is_path_byte(b: u8) -> bool {
    is_alnum(b) || b == 0x5f || b == 0x2d || b == 0x2e || b == 0x2f || b == 0x7e || b == 0x2b
        || b == 0x40 || b == 0x25
}

fn path_byte(b: u8) -> (r: bool)
    ensures
        r == is_path_byte(b),
{
    alnum(b) || b == 0x5f || b == 0x2d || b == 0x2e || b == 0x2f || b == 0x7e || b == 0x2b || b
        == 0x40 || b == 0x25
}

/// End of the run of path bytes starting at `i`.
pub open spec fn path_run(p: Seq<u8>, i: int) -> int
    decreases p.len() - i,
{
    if i < 0 || i >= p.len() || !is_path_byte(p[i]) {
        i
    } else {
        path_run(p, i + 1)
    }
}

pub proof fn lemma_path_run(p: Seq<u8>, i: int)
    requires
        0 <= i <= p.len(),
    ensures
        i <= path_run(p, i) <= p.len(),
        forall|k: int| i <= k < path_run(p, i) ==> is_path_byte(#[trigger] p[k]),
        path_run(p, i) < p.len() ==> !is_path_byte(p[path_run(p, i)]),
        i < p.len() && is_path_byte(p[i]) ==> path_run(p, i) > i,
    decreases p.len() - i,
{
    if i < p.len() && is_path_byte(p[i]) {
        lemma_path_run(p, i + 1);
    }
}

/// Trim characters that are almost always sentence punctuation, not path:
/// trailing dots ("see src/main.rs.") and trailing tildes, but never the
/// dots of a trailing `..`.
pub open spec fn trim_token(p: Seq<u8>, start: int, end: int) -> int
    decreases end - start,
{
    if end <= start {
        end
    } else {
        let last = p[end - 1];
        if (last == 0x2e || last == 0x7e) && !(end - start >= 2 && p[end - 2] == 0x2e && last
            == 0x2e) {
            trim_token(p, start, end - 1)
        } else {
            end
        }
    }
}

/// `c` occurs in `s`.
pub open spec fn has_byte(s: Seq<u8>, c: u8) -> bool {
    exists|k: int| 0 <= k < s.len() && s[k] == c
}

/// Some ASCII letter or digit occurs in `s`.
pub open spec fn has_alnum_byte(s: Seq<u8>) -> bool {
    exists|k: int| 0 <= k < s.len() && is_alnum(#[trigger] s[k])
}

/// Index of the last `c` before `k`, or -1.
pub open spec fn last_index(s: Seq<u8>, c: u8, k: int) -> int
    decreases k,
{
    if k <= 0 {
        -1
    } else if s[k - 1] == c {
        k - 1
    } else {
        last_index(s, c, k - 1)
    }
}

/// The final path segment ends in something extension-like (".rs",
/// ".tar.gz", ".c"): a non-empty stem, a dot, then 1-10 ASCII letters and
/// digits starting with a letter.
pub open spec fn has_extension(t: Seq<u8>) -> bool {
    let seg_start = last_index(t, 0x2f, t.len() as int) + 1;
    let dot = last_index(t, 0x2e, t.len() as int);
    dot > seg_start && 1 <= t.len() - dot - 1 <= 10 && is_alpha(t[dot + 1]) && forall|k: int|
        dot < k < t.len() ==> is_alnum(#[trigger] t[k])
}

/// `/`, `./`, `../` or `~/` at the front.
pub open spec fn is_anchored(t: Seq<u8>) -> bool {
    starts_with(t, str_bytes("/")) || starts_with(t, str_bytes("./")) || starts_with(
        t,
        str_bytes("../"),
    ) || starts_with(t, str_bytes("~/"))
}

/// Line/column information parsed after a path token, and how many bytes
/// after the token belong to the clickable span.
pub struct Suffix {
    pub line: Option<u32>,
    pub col: Option<u32>,
    pub extra: int,
}

pub open spec fn no_suffix() -> Suffix {
    Suffix { line: None, col: None, extra: 0 }
}

/// `:LINE[:COL]` (gcc/rustc) or `(LINE[,COL])` (MSVC/swiftc) directly
/// after the token at `te`.
pub open spec fn suffix_at(p: Seq<u8>, te: int) -> Suffix {
    if te < p.len() && p[te] == 0x3a {
        match number_at(p, te + 1) {
            None => no_suffix(),
            Some((l, u)) => {
                let extra: int = 1 + u as int;
                if te + extra < p.len() && p[te + extra] == 0x3a && number_at(p, te + extra + 1) is Some {
                    let (c, u2) = number_at(p, te + extra + 1).unwrap();
                    Suffix { line: Some(l as u32), col: Some(c as u32), extra: extra + 1 + u2 }
                } else {
                    Suffix { line: Some(l as u32), col: None, extra }
                }
            },
        }
    } else if te < p.len() && p[te] == 0x28 {
        match number_at(p, te + 1) {
            None => no_suffix(),
            Some((l, u)) => {
                let pos: int = 1 + u as int;
                let has_col = te + pos < p.len() && p[te + pos] == 0x2c && number_at(
                    p,
                    te + pos + 1,
                ) is Some;
                let col = if has_col {
                    Some(number_at(p, te + pos + 1).unwrap().0 as u32)
                } else {
                    None
                };
                let pos2: int = if has_col {
                    pos + 1 + number_at(p, te + pos + 1).unwrap().1
                } else {
                    pos
                };
                if te + pos2 < p.len() && p[te + pos2] == 0x29 {
                    Suffix { line: Some(l as u32), col, extra: pos2 + 1 }
                } else {
                    no_suffix()
                }
            },
        }
    } else {
        no_suffix()
    }
}

/// Python tracebacks put the line number after the closing quote:
/// `File "/app/x.py", line 88, in main`.
pub open spec fn python_line(p: Seq<u8>, start: int, te: int) -> Option<u32> {
    if ends_with(p.subrange(0, start), str_bytes("File \"")) && occurs_at(
        p,
        te,
        str_bytes("\", line "),
    ) {
        match number_at(p, te + str_bytes("\", line ").len()) {
            Some((l, _)) => Some(l as u32),
            None => None,
        }
    } else {
        None
    }
}

/// The location of the token `[start, te)`: its own suffix, or the
/// traceback line when it has none.
pub open spec fn location(p: Seq<u8>, start: int, te: int) -> Suffix {
    let s = suffix_at(p, te);
    if s.line is None && python_line(p, start, te) is Some {
        Suffix { line: python_line(p, start, te), col: None, extra: 0 }
    } else {
        s
    }
}

/// Law: the location suffixes right after a path token: `:N`, `:N:M`,
/// `(N)` and `(N,M)` give line `N` (and column `M`), and the whole suffix
/// belongs to the clickable span; a `:N` not followed by `:M` and a `(N)`
/// carry no column.
pub proof fn location_suffixes(p: Seq<u8>, start: int, te: int)
    requires
        0 <= start <= te < p.len(),
    ensures
        p[te] == 0x3a ==> match number_at(p, te + 1) {
            None => true,
            Some((l, n)) => {
                let after = te + 1 + n;
                match if after < p.len() && p[after] == 0x3a {
                    number_at(p, after + 1)
                } else {
                    None
                } {
                    Some((c, m)) => location(p, start, te) == Suffix {
                        line: Some(l as u32),
                        col: Some(c as u32),
                        extra: (2 + n + m) as int,
                    },
                    None => location(p, start, te) == Suffix {
                        line: Some(l as u32),
                        col: None,
                        extra: (1 + n) as int,
                    },
                }
            },
        },
        p[te] == 0x28 ==> match number_at(p, te + 1) {
            None => true,
            Some((l, n)) => {
                let after = te + 1 + n;
                &&& (after < p.len() && p[after] == 0x29 ==> location(p, start, te) == Suffix {
                    line: Some(l as u32),
                    col: None,
                    extra: (2 + n) as int,
                })
                &&& (after < p.len() && p[after] == 0x2c ==> match number_at(p, after + 1) {
                    None => true,
                    Some((c, m)) => after + 1 + m < p.len() && p[after + 1 + m] == 0x29
                        ==> location(p, start, te) == Suffix {
                        line: Some(l as u32),
                        col: Some(c as u32),
                        extra: (3 + n + m) as int,
                    },
                })
            },
        },
{
}

/// Law: a token quoted in a Python traceback frame,
/// `File "TOKEN", line N`, with no suffix of its own, gets line `N` and no
/// column, and the quote and the words after it stay outside the span.
pub proof fn traceback_location(p: Seq<u8>, start: int, te: int)
    requires
        0 <= start <= te <= p.len(),
        !(te < p.len() && (p[te] == 0x3a || p[te] == 0x28)),
        ends_with(p.subrange(0, start), str_bytes("File \"")),
        occurs_at(p, te, str_bytes("\", line ")),
    ensures
        match number_at(p, te + str_bytes("\", line ").len()) {
            Some((l, _)) => location(p, start, te) == Suffix {
                line: Some(l as u32),
                col: None,
                extra: 0,
            },
            None => location(p, start, te).line is None,
        },
{
}

/// `base.join(rest)` for POSIX paths: an absolute `rest` replaces the base,
/// otherwise a separator is added when the base does not end in one.
pub open spec fn join_path(base: Seq<u8>, rest: Seq<u8>) -> Seq<u8> {
    if is_rooted(rest) {
        rest
    } else if base.len() == 0 || base.last() == 0x2f {
        base + rest
    } else {
        base + seq![0x2fu8] + rest
    }
}

/// Expand `~/` against `home` and make the token absolute against `cwd`.
pub open spec fn resolve(t: Seq<u8>, cwd: Seq<u8>, home: Option<Seq<u8>>) -> Option<Seq<u8>> {
    if starts_with(t, str_bytes("~/")) {
        match home {
            Some(h) => Some(join_path(h, t.subrange(2, t.len() as int))),
            None => None,
        }
    } else if is_rooted(t) {
        Some(t)
    } else {
        Some(join_path(cwd, t))
    }
}

/// The link target for a normalized path: the editor's URI, or a
/// `file://` URI with the configured host.
pub open spec fn path_href(opts: Options, abs: Seq<u8>, line: Option<u32>, col: Option<u32>) -> Seq<
    u8,
> {
    match opts.editor {
        Some(e) => editor_href(e, abs, line, col),
        None => file_uri_bytes(string_bytes(opts.host), abs),
    }
}

/// A path-shaped token that passed the shape rules: the link it becomes,
/// the resolved path whose existence decides that, and where scanning
/// resumes when it does not exist.
pub struct CandidateSpec {
    pub link: LinkSpec,
    pub path: Seq<u8>,
    pub skip: int,
}

/// Decide whether the token `[start, te)` (with raw run end `end`) is
/// shaped like a path, and what it would link to.
pub open spec fn classify(p: Seq<u8>, start: int, te: int, end: int, opts: Options) -> Option<
    CandidateSpec,
> {
    if te <= start {
        None
    } else {
        let t = p.subrange(start, te);
        if !has_alnum_byte(t) || contains(t, str_bytes("://")) {
            None
        } else {
            let has_slash = has_byte(t, 0x2f);
            if !has_slash && has_byte(t, 0x40) {
                None
            } else {
                let s = location(p, start, te);
                let shaped = if is_anchored(t) {
                    t.len() > 1
                } else if has_slash {
                    opts.check || has_extension(t)
                } else {
                    has_extension(t) && s.line is Some
                };
                if !shaped {
                    None
                } else {
                    match resolve(t, string_bytes(opts.cwd), opt_bytes(opts.home)) {
                        None => None,
                        Some(r) => Some(
                            CandidateSpec {
                                link: LinkSpec {
                                    start,
                                    end: te + s.extra,
                                    kind: Kind::Path,
                                    href: path_href(opts, normalized(r), s.line, s.col),
                                },
                                path: r,
                                skip: end,
                            },
                        ),
                    }
                }
            }
        }
    }
}

/// The first path candidate at or after byte `i`.
pub open spec fn next_cand(p: Seq<u8>, opts: Options, i: int) -> Option<CandidateSpec>
    decreases p.len() + 4 - i,
{
    if i < 0 || i >= p.len() {
        None
    } else if !is_path_byte(p[i]) {
        next_cand(p, opts, i + char_width(p[i]))
    } else {
        proof {
            lemma_path_run(p, i);
        }
        let end = path_run(p, i);
        match classify(p, i, trim_token(p, i, end), end, opts) {
            Some(c) => Some(c),
            None => next_cand(p, opts, end),
        }
    }
}

/// The path links from byte `i` on, taking every candidate as existing.
pub open spec fn path_links_from(p: Seq<u8>, opts: Options, i: int) -> Seq<LinkSpec>
    decreases p.len() + 4 - i,
{
    if i < 0 || i > p.len() {
        Seq::empty()
    } else {
        match next_cand(p, opts, i) {
            None => Seq::empty(),
            Some(c) => {
                proof {
                    lemma_next_cand(p, opts, i);
                }
                seq![c.link] + path_links_from(p, opts, c.link.end)
            },
        }
    }
}

/// The path links of `p` when every candidate exists.
pub open spec fn path_links(p: Seq<u8>, opts: Options) -> Seq<LinkSpec> {
    path_links_from(p, opts, 0)
}

/// The path links from byte `i` on when the existence questions (asked
/// only with `opts.check` on, one per candidate in order) get `answers`;
/// the list stops at the first question left unanswered.
pub open spec fn path_links_by(p: Seq<u8>, opts: Options, answers: Seq<bool>, i: int) -> Seq<
    LinkSpec,
>
    decreases p.len() + 4 - i,
{
    if i < 0 || i > p.len() {
        Seq::empty()
    } else {
        match next_cand(p, opts, i) {
            None => Seq::empty(),
            Some(c) => {
                proof {
                    lemma_next_cand(p, opts, i);
                }
                if !opts.check {
                    seq![c.link] + path_links_by(p, opts, answers, c.link.end)
                } else if answers.len() == 0 {
                    Seq::empty()
                } else if answers[0] {
                    seq![c.link] + path_links_by(p, opts, answers.drop_first(), c.link.end)
                } else {
                    path_links_by(p, opts, answers.drop_first(), c.skip)
                }
            },
        }
    }
}

/// The path whose existence the detector asks about next, after the
/// existence questions from byte `i` on got `answers` (asked only with
/// `opts.check` on, one per candidate in order); `None` once none is left.
pub open spec fn question_by(p: Seq<u8>, opts: Options, answers: Seq<bool>, i: int) -> Option<
    Seq<u8>,
>
    decreases p.len() + 4 - i,
{
    if i < 0 || i > p.len() {
        None
    } else {
        match next_cand(p, opts, i) {
            None => None,
            Some(c) => {
                proof {
                    lemma_next_cand(p, opts, i);
                }
                if !opts.check {
                    question_by(p, opts, answers, c.link.end)
                } else if answers.len() == 0 {
                    Some(c.path)
                } else if answers[0] {
                    question_by(p, opts, answers.drop_first(), c.link.end)
                } else {
                    question_by(p, opts, answers.drop_first(), c.skip)
                }
            },
        }
    }
}

/// The path links of valid text fit it.
pub proof fn lemma_path_links_fit(p: Seq<u8>, opts: Options, i: int)
    requires
        valid_utf8(p),
        0 <= i,
    ensures
        all_fit(p, path_links_from(p, opts, i)),
    decreases p.len() + 4 - i,
{
    if i <= p.len() {
        lemma_next_cand(p, opts, i);
        lemma_candidate_boundary(p, opts, i);
        if let Some(c) = next_cand(p, opts, i) {
            lemma_path_links_fit(p, opts, c.link.end);
            let rest = path_links_from(p, opts, c.link.end);
            let r = seq![c.link] + rest;
            assert forall|k: int| 0 <= k < r.len() implies link_fits(p, #[trigger] r[k]) by {
                if k > 0 {
                    assert(r[k] == rest[k - 1]);
                }
            }
        }
    }
}

/// Law: with the existence check off and a home directory set, a token
/// that holds a letter or digit, no `://`, and a `/` or no `@` is a path
/// exactly when it is anchored and longer than one byte, or holds a `/`
/// and ends in an extension, or ends in an extension and has a line
/// number after it; its link starts at the token and is a path link.
pub proof fn classify_accepts_shaped_tokens(p: Seq<u8>, start: int, te: int, end: int, opts: Options)
    requires
        !opts.check,
        opts.home is Some,
        start < te,
        has_alnum_byte(p.subrange(start, te)),
        !contains(p.subrange(start, te), str_bytes("://")),
        has_byte(p.subrange(start, te), 0x2f) || !has_byte(p.subrange(start, te), 0x40),
    ensures
        ({
            let t = p.subrange(start, te);
            classify(p, start, te, end, opts) is Some == if is_anchored(t) {
                t.len() > 1
            } else if has_byte(t, 0x2f) {
                has_extension(t)
            } else {
                has_extension(t) && location(p, start, te).line is Some
            }
        }),
        classify(p, start, te, end, opts) matches Some(c) ==> c.link.start == start
            && c.link.kind == Kind::Path,
{
}

/// The candidates whose existence is asked about from byte `i` on, in
/// order, while `answers` last (only with `opts.check` on).
pub open spec fn asked_by(p: Seq<u8>, opts: Options, answers: Seq<bool>, i: int) -> Seq<
    CandidateSpec,
>
    decreases p.len() + 4 - i,
{
    if !opts.check || i < 0 || i > p.len() || answers.len() == 0 {
        Seq::empty()
    } else {
        match next_cand(p, opts, i) {
            None => Seq::empty(),
            Some(c) => {
                proof {
                    lemma_next_cand(p, opts, i);
                }
                seq![c] + asked_by(
                    p,
                    opts,
                    answers.drop_first(),
                    if answers[0] {
                        c.link.end
                    } else {
                        c.skip
                    },
                )
            },
        }
    }
}

/// Law: with the existence check on, the `j`-th answer is given to the
/// question about the `j`-th candidate asked, and every path link is the
/// link of a candidate whose answer was yes.
pub proof fn path_links_need_a_yes(p: Seq<u8>, opts: Options, answers: Seq<bool>, i: int)
    requires
        opts.check,
        0 <= i,
    ensures
        asked_by(p, opts, answers, i).len() <= answers.len(),
        forall|j: int|
            0 <= j < asked_by(p, opts, answers, i).len() ==> question_by(
                p,
                opts,
                answers.take(j),
                i,
            ) == Some((#[trigger] asked_by(p, opts, answers, i)[j]).path),
        forall|k: int|
            0 <= k < path_links_by(p, opts, answers, i).len() ==> exists|j: int|
                0 <= j < asked_by(p, opts, answers, i).len() && answers[j] && asked_by(
                    p,
                    opts,
                    answers,
                    i,
                )[j].link == #[trigger] path_links_by(p, opts, answers, i)[k],
    decreases p.len() + 4 - i,
{
    if i <= p.len() && answers.len() > 0 {
        lemma_next_cand(p, opts, i);
        if let Some(c) = next_cand(p, opts, i) {
            let a2 = answers.drop_first();
            let nx = if answers[0] {
                c.link.end
            } else {
                c.skip
            };
            path_links_need_a_yes(p, opts, a2, nx);
            let asked = asked_by(p, opts, answers, i);
            let rest = asked_by(p, opts, a2, nx);
            assert(asked == seq![c] + rest);
            assert forall|j: int| 0 <= j < asked.len() implies question_by(
                p,
                opts,
                answers.take(j),
                i,
            ) == Some((#[trigger] asked[j]).path) by {
                if j == 0 {
                    assert(answers.take(0).len() == 0);
                } else {
                    assert(answers.take(j)[0] == answers[0]);
                    assert(answers.take(j).drop_first() =~= a2.take(j - 1));
                    assert(asked[j] == rest[j - 1]);
                }
            }
            let pl = path_links_by(p, opts, answers, i);
            let pr = path_links_by(p, opts, a2, nx);
            assert forall|k: int| 0 <= k < pl.len() implies exists|j: int|
                0 <= j < asked.len() && answers[j] && asked[j].link == #[trigger] pl[k] by {
                if answers[0] {
                    assert(pl == seq![c.link] + pr);
                    if k == 0 {
                        assert(asked[0] == c);
                    } else {
                        assert(pl[k] == pr[k - 1]);
                        let j2 = choose|j2: int|
                            0 <= j2 < rest.len() && a2[j2] && rest[j2].link == pr[k - 1];
                        assert(asked[j2 + 1] == rest[j2]);
                        assert(answers[j2 + 1] == a2[j2]);
                    }
                } else {
                    assert(pl == pr);
                    let j2 = choose|j2: int|
                        0 <= j2 < rest.len() && a2[j2] && rest[j2].link == pr[k];
                    assert(asked[j2 + 1] == rest[j2]);
                    assert(answers[j2 + 1] == a2[j2]);
                }
            }
        }
    }
}

/// Law: without the existence check no question is asked, and the path
/// links are those of [`find`], whatever the answers.
pub proof fn unchecked_paths_ignore_answers(p: Seq<u8>, opts: Options, answers: Seq<bool>, i: int)
    requires
        !opts.check,
    ensures
        path_links_by(p, opts, answers, i) == path_links_from(p, opts, i),
    decreases p.len() + 4 - i,
{
    if 0 <= i <= p.len() {
        lemma_next_cand(p, opts, i);
        if let Some(c) = next_cand(p, opts, i) {
            unchecked_paths_ignore_answers(p, opts, answers, c.link.end);
        }
    }
}

pub proof fn lemma_trim_token(p: Seq<u8>, start: int, end: int)
    requires
        start <= end,
    ensures
        start <= trim_token(p, start, end) <= end,
    decreases end - start,
{
    if end > start {
        let last = p[end - 1];
        if (last == 0x2e || last == 0x7e) && !(end - start >= 2 && p[end - 2] == 0x2e && last
            == 0x2e) {
            lemma_trim_token(p, start, end - 1);
        }
    }
}

pub proof fn lemma_suffix_bounds(p: Seq<u8>, te: int)
    requires
        0 <= te <= p.len(),
    ensures
        0 <= suffix_at(p, te).extra,
        te + suffix_at(p, te).extra <= p.len(),
{
    if te < p.len() && (p[te] == 0x3a || p[te] == 0x28) {
        crate::text::lemma_digit_run(p, te + 1);
        if let Some((l, u)) = number_at(p, te + 1) {
            let extra = 1 + u;
            if te + extra < p.len() {
                crate::text::lemma_digit_run(p, te + extra + 1);
            }
        }
    }
}

pub proof fn lemma_next_cand(p: Seq<u8>, opts: Options, i: int)
    requires
        0 <= i,
    ensures
        next_cand(p, opts, i) matches Some(c) ==> i <= c.link.start < c.link.end <= p.len()
            && c.link.start < c.skip <= p.len(),
    decreases p.len() + 4 - i,
{
    if i < p.len() {
        if !is_path_byte(p[i]) {
            lemma_next_cand(p, opts, i + char_width(p[i]));
        } else {
            lemma_path_run(p, i);
            let end = path_run(p, i);
            let te = trim_token(p, i, end);
            lemma_trim_token(p, i, end);
            lemma_suffix_bounds(p, te);
            if classify(p, i, te, end, opts) is None {
                lemma_next_cand(p, opts, end);
            }
        }
    }
}

fn run_end_exec(p: &[u8], i: usize) -> (r: usize)
    requires
        i <= p.len(),
    ensures
        r == path_run(p@, i as int),
{
    let mut j = i;
    while j < p.len() && path_byte(p[j])
        invariant
            i <= j <= p.len(),
            path_run(p@, j as int) == path_run(p@, i as int),
        decreases p.len() - j,
    {
        j = j + 1;
    }
    j
}

fn trim_token_exec(p: &[u8], start: usize, end0: usize) -> (r: usize)
    requires
        start <= end0 <= p.len(),
    ensures
        r == trim_token(p@, start as int, end0 as int),
{
    let mut end = end0;
    while end > start
        invariant
            start <= end <= end0 <= p.len(),
            trim_token(p@, start as int, end as int) == trim_token(
                p@,
                start as int,
                end0 as int,
            ),
        decreases end - start,
    {
        let last = p[end - 1];
        if (last == 0x2e || last == 0x7e) && !(end - start >= 2 && p[end - 2] == 0x2e && last
            == 0x2e) {
            end = end - 1;
        } else {
            return end;
        }
    }
    end
}

fn find_byte(t: &[u8], c: u8) -> (r: bool)
    ensures
        r == has_byte(t@, c),
{
    let mut k: usize = 0;
    while k < t.len()
        invariant
            k <= t.len(),
            forall|m: int| 0 <= m < k ==> t@[m] != c,
        decreases t.len() - k,
    {
        if t[k] == c {
            return true;
        }
        k = k + 1;
    }
    false
}

fn any_alnum_byte(t: &[u8]) -> (r: bool)
    ensures
        r == has_alnum_byte(t@),
{
    let mut k: usize = 0;
    while k < t.len()
        invariant
            k <= t.len(),
            forall|m: int| 0 <= m < k ==> !is_alnum(#[trigger] t@[m]),
        decreases t.len() - k,
    {
        if alnum(t[k]) {
            return true;
        }
        k = k + 1;
    }
    false
}

pub(crate) fn last_index_exec(t: &[u8], c: u8) -> (r: Option<usize>)
    ensures
        r matches Some(k) ==> last_index(t@, c, t@.len() as int) == k as int && k < t.len(),
        r is None ==> last_index(t@, c, t@.len() as int) == -1,
{
    let mut j = t.len();
    while j > 0 && t[j - 1] != c
        invariant
            j <= t.len(),
            last_index(t@, c, j as int) == last_index(t@, c, t@.len() as int),
        decreases j,
    {
        j = j - 1;
    }
    if j == 0 {
        None
    } else {
        Some(j - 1)
    }
}

fn has_extension_exec(t: &[u8]) -> (r: bool)
    ensures
        r == has_extension(t@),
{
    let seg_start = match last_index_exec(t, 0x2f) {
        Some(k) => k + 1,
        None => 0,
    };
    let dot = match last_index_exec(t, 0x2e) {
        Some(k) => k,
        None => return false,
    };
    if dot <= seg_start {
        return false;
    }
    let ext_len = t.len() - dot - 1;
    if ext_len < 1 || ext_len > 10 || !alpha(t[dot + 1]) {
        return false;
    }
    let mut k = dot + 1;
    while k < t.len()
        invariant
            dot < k <= t.len(),
            dot as int == last_index(t@, 0x2e, t@.len() as int),
            dot > last_index(t@, 0x2f, t@.len() as int) + 1,
            1 <= t@.len() - dot - 1 <= 10,
            is_alpha(t@[dot + 1]),
            forall|m: int| dot < m < k ==> is_alnum(#[trigger] t@[m]),
        decreases t.len() - k,
    {
        if !alnum(t[k]) {
            return false;
        }
        k = k + 1;
    }
    true
}

/// Exec mirror of [`Suffix`].
struct SuffixExec {
    line: Option<u32>,
    col: Option<u32>,
    extra: usize,
}

fn suffix_exec(p: &[u8], te: usize) -> (r: SuffixExec)
    requires
        te <= p.len(),
    ensures
        r.line == suffix_at(p@, te as int).line,
        r.col == suffix_at(p@, te as int).col,
        r.extra == suffix_at(p@, te as int).extra,
{
    let none = SuffixExec { line: None, col: None, extra: 0 };
    if te < p.len() && p[te] == 0x3a {
        let (line, used) = match read_number(p, te + 1) {
            Some(v) => v,
            None => return none,
        };
        let mut extra = 1 + used;
        let mut col: Option<u32> = None;
        if te + extra < p.len() && p[te + extra] == 0x3a {
            if let Some((c, used2)) = read_number(p, te + extra + 1) {
                col = Some(c);
                extra = extra + 1 + used2;
            }
        }
        return SuffixExec { line: Some(line), col, extra };
    }
    if te < p.len() && p[te] == 0x28 {
        if let Some((line, used)) = read_number(p, te + 1) {
            let mut pos = 1 + used;
            let mut col: Option<u32> = None;
            if te + pos < p.len() && p[te + pos] == 0x2c {
                if let Some((c, used2)) = read_number(p, te + pos + 1) {
                    col = Some(c);
                    pos = pos + 1 + used2;
                }
            }
            if te + pos < p.len() && p[te + pos] == 0x29 {
                return SuffixExec { line: Some(line), col, extra: pos + 1 };
            }
        }
    }
    none
}

fn python_line_exec(p: &[u8], start: usize, te: usize) -> (r: Option<u32>)
    requires
        start <= te <= p.len(),
    ensures
        r == python_line(p@, start as int, te as int),
{
    let head = vstd::slice::slice_subrange(p, 0, start);
    let tail = slice_bytes("\", line ");
    if has_suffix(head, slice_bytes("File \"")) && has_at(p, te, tail) {
        match read_number(p, te + tail.len()) {
            Some((l, _)) => Some(l),
            None => None,
        }
    } else {
        None
    }
}

fn location_exec(p: &[u8], start: usize, te: usize) -> (r: SuffixExec)
    requires
        start <= te <= p.len(),
    ensures
        r.line == location(p@, start as int, te as int).line,
        r.col == location(p@, start as int, te as int).col,
        r.extra == location(p@, start as int, te as int).extra,
{
    let s = suffix_exec(p, te);
    if s.line.is_none() {
        if let Some(l) = python_line_exec(p, start, te) {
            return SuffixExec { line: Some(l), col: None, extra: 0 };
        }
    }
    s
}

pub(crate) fn join_path_exec(base: &[u8], rest: &[u8]) -> (r: Vec<u8>)
    requires
        valid_utf8(base@),
        valid_utf8(rest@),
    ensures
        r@ == join_path(base@, rest@),
        valid_utf8(r@),
{
    let mut out: Vec<u8> = Vec::new();
    proof {
        lemma_ascii_valid(out@);
    }
    if rest.len() > 0 && rest[0] == 0x2f {
        push_valid(&mut out, rest);
        proof {
            assert(out@ =~= rest@);
        }
        return out;
    }
    push_valid(&mut out, base);
    if !(base.len() == 0 || base[base.len() - 1] == 0x2f) {
        out.push(0x2f);
        proof {
            lemma_ascii_valid(seq![0x2fu8]);
            valid_utf8_concat(base@, seq![0x2fu8]);
            assert(out@ =~= base@ + seq![0x2fu8]);
        }
    }
    push_valid(&mut out, rest);
    proof {
        assert(out@ =~= join_path(base@, rest@));
    }
    out
}

proof fn lemma_token_ascii(p: Seq<u8>, start: int, te: int)
    requires
        0 <= start <= te <= p.len(),
        forall|k: int| start <= k < te ==> is_path_byte(#[trigger] p[k]),
    ensures
        crate::text::all_ascii(p.subrange(start, te)),
        valid_utf8(p.subrange(start, te)),
{
    assert forall|m: int| 0 <= m < te - start implies is_ascii_byte(
        #[trigger] p.subrange(start, te)[m],
    ) by {
        assert(p.subrange(start, te)[m] == p[start + m]);
        assert(is_path_byte(p[start + m]));
    }
    lemma_ascii_valid(p.subrange(start, te));
}

fn resolve_exec(t: &[u8], opts: &Options) -> (r: Option<Vec<u8>>)
    requires
        valid_utf8(t@),
    ensures
        r matches Some(v) ==> resolve(t@, string_bytes(opts.cwd), opt_bytes(opts.home)) == Some(v@)
            && valid_utf8(v@),
        r is None ==> resolve(t@, string_bytes(opts.cwd), opt_bytes(opts.home)) is None,
{
    if has_prefix(t, slice_bytes("~/")) {
        proof {
            reveal_strlit("~/");
            is_ascii_chars_encode_utf8("~/"@);
            assert(str_bytes("~/").len() == 2);
            assert(t@[1] == str_bytes("~/")[1]) by {
                assert(t@.subrange(0, 2)[1] == t@[1]);
            }
            crate::text::lemma_after_ascii(t@, 2);
            lemma_valid_between(t@, 2, t@.len() as int);
        }
        return match &opts.home {
            Some(h) => Some(join_path_exec(bytes_of(h), vstd::slice::slice_subrange(t, 2, t.len()))),
            None => None,
        };
    }
    if t.len() > 0 && t[0] == 0x2f {
        let mut v: Vec<u8> = Vec::new();
        push_range(&mut v, t, 0, t.len());
        proof {
            assert(v@ =~= t@);
        }
        return Some(v);
    }
    Some(join_path_exec(bytes_of(&opts.cwd), t))
}

fn path_href_exec(opts: &Options, abs: &[u8], line: Option<u32>, col: Option<u32>) -> (r: Vec<u8>)
    ensures
        r@ == path_href(*opts, abs@, line, col),
        valid_utf8(r@),
{
    match &opts.editor {
        Some(e) => e.href_bytes(abs, line, col),
        None => file_uri_vec(bytes_of(&opts.host), abs),
    }
}

/// A path-shaped token awaiting the existence decision: the link it
/// becomes, the resolved path to check on disk, and where scanning resumes
/// when the path does not exist.
pub struct Candidate {
    pub link: Link,
    pub path: String,
    pub skip_to: usize,
}

impl View for Candidate {
    type V = CandidateSpec;

    open spec fn view(&self) -> CandidateSpec {
        CandidateSpec { link: self.link@, path: string_bytes(self.path), skip: self.skip_to as int }
    }
}

fn classify_exec(p: &[u8], start: usize, te: usize, end: usize, opts: &Options) -> (r: Option<
    Candidate,
>)
    requires
        valid_utf8(p@),
        start <= te <= end <= p.len(),
        forall|k: int| start <= k < te ==> is_path_byte(#[trigger] p@[k]),
    ensures
        r matches Some(c) ==> classify(p@, start as int, te as int, end as int, *opts) == Some(c@),
        r is None ==> classify(p@, start as int, te as int, end as int, *opts) is None,
{
    if te <= start {
        return None;
    }
    let t = vstd::slice::slice_subrange(p, start, te);
    if !any_alnum_byte(t) || contains_bytes(t, slice_bytes("://")) {
        return None;
    }
    let has_slash = find_byte(t, 0x2f);
    if !has_slash && find_byte(t, 0x40) {
        return None;
    }
    let s = location_exec(p, start, te);
    let anchored = has_prefix(t, slice_bytes("/")) || has_prefix(t, slice_bytes("./"))
        || has_prefix(t, slice_bytes("../")) || has_prefix(t, slice_bytes("~/"));
    let shaped = if anchored {
        t.len() > 1
    } else if has_slash {
        opts.check || has_extension_exec(t)
    } else {
        has_extension_exec(t) && s.line.is_some()
    };
    if !shaped {
        return None;
    }
    proof {
        lemma_token_ascii(p@, start as int, te as int);
    }
    let resolved = match resolve_exec(t, opts) {
        Some(r) => r,
        None => return None,
    };
    let norm = normalize_bytes(resolved.as_slice());
    let href = path_href_exec(opts, norm.as_slice(), s.line, s.col);
    proof {
        lemma_suffix_bounds(p@, te as int);
    }
    let link_end = te + s.extra;
    Some(
        Candidate {
            link: Link { start, end: link_end, kind: Kind::Path, href: bytes_to_string(href) },
            path: bytes_to_string(resolved),
            skip_to: end,
        },
    )
}

pub(crate) fn next_candidate_in(p: &[u8], opts: &Options, from: usize) -> (r: Option<Candidate>)
    requires
        valid_utf8(p@),
        at_boundary(p@, from as int),
    ensures
        r matches Some(c) ==> next_cand(p@, *opts, from as int) == Some(c@),
        r is None ==> next_cand(p@, *opts, from as int) is None,
{
    let mut i = from;
    while i < p.len()
        invariant
            valid_utf8(p@),
            at_boundary(p@, i as int),
            next_cand(p@, *opts, from as int) == next_cand(p@, *opts, i as int),
        decreases p.len() - i,
    {
        if !path_byte(p[i]) {
            proof {
                lemma_next_char(p@, i as int);
            }
            i = i + width_of(p[i]);
            continue;
        }
        proof {
            lemma_path_run(p@, i as int);
        }
        let end = run_end_exec(p, i);
        let te = trim_token_exec(p, i, end);
        proof {
            lemma_trim_token(p@, i as int, end as int);
        }
        match classify_exec(p, i, te, end, opts) {
            Some(c) => return Some(c),
            None => {
                proof {
                    lemma_after_ascii(p@, end as int);
                }
                i = end;
            },
        }
    }
    None
}

pub(crate) fn find_in(p: &[u8], opts: &Options) -> (r: Vec<Link>)
    requires
        valid_utf8(p@),
    ensures
        links_view(r@) == path_links(p@, *opts),
{
    let mut out: Vec<Link> = Vec::new();
    let mut i: usize = 0;
    proof {
        assert(links_view(out@) =~= Seq::<LinkSpec>::empty());
        if p.len() > 0 {
            assert(valid_first_scalar(p@));
        }
    }
    loop
        invariant
            valid_utf8(p@),
            at_boundary(p@, i as int),
            path_links(p@, *opts) == links_view(out@) + path_links_from(p@, *opts, i as int),
        decreases p.len() + 4 - i,
    {
        proof {
            lemma_next_cand(p@, *opts, i as int);
        }
        match next_candidate_in(p, opts, i) {
            None => {
                proof {
                    assert(links_view(out@) + Seq::<LinkSpec>::empty() =~= links_view(out@));
                }
                return out;
            },
            Some(c) => {
                let ghost cv = c@;
                let ghost before = links_view(out@);
                proof {
                    lemma_candidate_boundary(p@, *opts, i as int);
                }
                i = c.link.end;
                out.push(c.link);
                proof {
                    assert(links_view(out@) =~= before.push(cv.link));
                    assert(before + (seq![cv.link] + path_links_from(p@, *opts, i as int))
                        =~= links_view(out@) + path_links_from(p@, *opts, i as int));
                }
            },
        }
    }
}

/// Candidate edges are boundaries: the span starts at an ASCII path byte,
/// and it and the raw run end after ASCII.
pub proof fn lemma_candidate_boundary(p: Seq<u8>, opts: Options, i: int)
    requires
        valid_utf8(p),
        0 <= i,
    ensures
        next_cand(p, opts, i) matches Some(c) ==> at_boundary(p, c.link.end) && at_boundary(
            p,
            c.skip,
        ) && at_boundary(p, c.link.start),
    decreases p.len() + 4 - i,
{
    if i < p.len() {
        if !is_path_byte(p[i]) {
            lemma_candidate_boundary(p, opts, i + char_width(p[i]));
        } else {
            lemma_path_run(p, i);
            let end = path_run(p, i);
            let te = trim_token(p, i, end);
            lemma_trim_token(p, i, end);
            lemma_suffix_bounds(p, te);
            lemma_after_ascii(p, end);
            match classify(p, i, te, end, opts) {
                None => lemma_candidate_boundary(p, opts, end),
                Some(c) => {
                    let e = c.link.end;
                    if e > te {
                        lemma_suffix_ascii(p, te, i);
                        lemma_after_ascii(p, e);
                    } else {
                        if te > i {
                            lemma_after_ascii(p, te);
                        }
                    }
                },
            }
        }
    }
}

/// The last byte of a non-empty location suffix is ASCII (a digit or `)`).
proof fn lemma_suffix_ascii(p: Seq<u8>, te: int, start: int)
    requires
        0 <= te <= p.len(),
        start <= te,
        location(p, start, te).extra > 0,
    ensures
        is_ascii_byte(p[te + location(p, start, te).extra - 1]),
{
    let s = suffix_at(p, te);
    crate::text::lemma_digit_run(p, te + 1);
    let (l, u) = number_at(p, te + 1).unwrap();
    if p[te] == 0x3a {
        let extra: int = 1 + u as int;
        if te + extra < p.len() && p[te + extra] == 0x3a && number_at(p, te + extra + 1) is Some {
            crate::text::lemma_digit_run(p, te + extra + 1);
        }
    }
}

/// Find all file-path links in `plain`. With `opts.check` on, a candidate
/// links only if its path exists on disk, which is for the caller to say:
/// text holding such a candidate (see [`needs_existence_answers`]) goes
/// through [`crate::cli::LineScan`], which asks.
pub fn find(plain: &str, opts: &Options) -> (r: Vec<Link>)
    requires
        opts.check ==> next_cand(str_bytes(plain), *opts, 0) is None,
    ensures
        links_view(r@) == path_links(str_bytes(plain), *opts),
        opts.check ==> r@.len() == 0,
{
    let r = find_in(slice_bytes(plain), opts);
    proof {
        if opts.check {
            assert(links_view(r@).len() == 0);
        }
    }
    r
}

/// With `opts.check` on, some path candidate of `plain` needs an answer on
/// whether its path exists.
pub fn needs_existence_answers(plain: &str, opts: &Options) -> (r: bool)
    ensures
        r == (opts.check && next_cand(str_bytes(plain), *opts, 0) is Some),
{
    let p = slice_bytes(plain);
    proof {
        if p@.len() > 0 {
            assert(valid_first_scalar(p@));
        }
    }
    opts.check && next_candidate_in(p, opts, 0).is_some()
}

} // verus!
