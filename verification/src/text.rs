//! Byte-level text model shared by the detectors.
//!
//! Every detector works on the UTF-8 bytes of the visible text, and every
//! offset in a link is a byte offset. This module holds the vocabulary the
//! contracts are written in: ASCII classes, UTF-8 character boundaries and
//! decoding, decimal rendering, substring search and replacement.
use vstd::prelude::*;
use vstd::string::StringSliceAdditionalSpecFns;
use vstd::utf8::*;

verus! {

// ---------------------------------------------------------------------------
// Strings as bytes
// ---------------------------------------------------------------------------

/// The UTF-8 bytes of an owned string.
pub open spec fn string_bytes(s: String) -> Seq<u8> {
    encode_utf8(s@)
}

/// The UTF-8 bytes of a string slice.
pub open spec fn str_bytes(s: &str) -> Seq<u8> {
    s.spec_bytes()
}

/// Borrow the bytes of an owned string.
pub fn bytes_of(s: &String) -> (b: &[u8])
    ensures
        b@ == string_bytes(*s),
        valid_utf8(b@),
{
    proof {
        encode_utf8_valid_utf8(s@);
    }
    s.as_str().as_bytes()
}

/// The bytes of a string slice are valid UTF-8.
pub proof fn lemma_str_valid(s: &str)
    ensures
        valid_utf8(str_bytes(s)),
{
    encode_utf8_valid_utf8(s@);
}

/// Borrow the bytes of a string slice.
pub fn slice_bytes(s: &str) -> (b: &[u8])
    ensures
        b@ == str_bytes(s),
        valid_utf8(b@),
{
    proof {
        encode_utf8_valid_utf8(s@);
    }
    s.as_bytes()
}

/// Wraps `std::str::from_utf8` (std): it returns the bytes as a string
/// slice exactly when they are valid UTF-8 (it fails otherwise), and the
/// slice holds those bytes.
#[verifier::external_body]
pub(crate) fn str_from_utf8(b: &[u8]) -> (r: Option<&str>)
    ensures
        r is Some <==> valid_utf8(b@),
        r matches Some(s) ==> str_bytes(s) == b@,
{
    std::str::from_utf8(b).ok()
}

/// The bytes of `a` are those of the string `b`.
pub fn same(a: &[u8], b: &str) -> (r: bool)
    ensures
        r == (a@ == str_bytes(b)),
{
    let bb = slice_bytes(b);
    if a.len() != bb.len() {
        return false;
    }
    let mut i: usize = 0;
    while i < a.len()
        invariant
            a.len() == bb.len(),
            bb@ == str_bytes(b),
            i <= a.len(),
            forall|j: int| 0 <= j < i ==> a@[j] == bb@[j],
        decreases a.len() - i,
    {
        if a[i] != bb[i] {
            return false;
        }
        i = i + 1;
    }
    proof {
        assert(a@ =~= bb@);
    }
    true
}

/// The two byte slices are equal.
pub fn same_bytes(a: &[u8], b: &[u8]) -> (r: bool)
    ensures
        r == (a@ == b@),
{
    if a.len() != b.len() {
        return false;
    }
    let mut i: usize = 0;
    while i < a.len()
        invariant
            a.len() == b.len(),
            i <= a.len(),
            forall|j: int| 0 <= j < i ==> a@[j] == b@[j],
        decreases a.len() - i,
    {
        if a[i] != b[i] {
            return false;
        }
        i = i + 1;
    }
    proof {
        assert(a@ =~= b@);
    }
    true
}

/// Copy a string slice into an owned string.
pub fn to_owned_string(s: &str) -> (r: String)
    ensures
        string_bytes(r) == str_bytes(s),
{
    s.to_owned()
}

/// Copy an owned string.
pub fn copy_string(s: &String) -> (r: String)
    ensures
        string_bytes(r) == string_bytes(*s),
{
    s.as_str().to_owned()
}

/// Turn bytes known to be valid UTF-8 into an owned string.
pub fn bytes_to_string(bytes: Vec<u8>) -> (s: String)
    requires
        valid_utf8(bytes@),
    ensures
        string_bytes(s) == bytes@,
{
    match str_from_utf8(bytes.as_slice()) {
        Some(s) => to_owned_string(s),
        None => String::new(),
    }
}

// ---------------------------------------------------------------------------
// ASCII classes
// ---------------------------------------------------------------------------

pub open spec fn is_ascii_byte(b: u8) -> bool {
    b < 0x80
}

pub open spec fn is_digit(b: u8) -> bool {
    0x30 <= b <= 0x39
}

pub open spec fn is_upper(b: u8) -> bool {
    0x41 <= b <= 0x5a
}

pub open spec fn is_lower(b: u8) -> bool {
    0x61 <= b <= 0x7a
}

pub open spec fn is_alpha(b: u8) -> bool {
    is_upper(b) || is_lower(b)
}

pub open spec fn is_alnum(b: u8) -> bool {
    is_alpha(b) || is_digit(b)
}

/// ASCII lower-casing; other bytes are unchanged.
pub open spec fn lower(b: u8) -> u8 {
    if is_upper(b) {
        (b + 32) as u8
    } else {
        b
    }
}

pub fn digit(b: u8) -> (r: bool)
    ensures
        r == is_digit(b),
{
    0x30 <= b && b <= 0x39
}

pub fn upper(b: u8) -> (r: bool)
    ensures
        r == is_upper(b),
{
    0x41 <= b && b <= 0x5a
}

pub fn alpha(b: u8) -> (r: bool)
    ensures
        r == is_alpha(b),
{
    (0x41 <= b && b <= 0x5a) || (0x61 <= b && b <= 0x7a)
}

pub fn alnum(b: u8) -> (r: bool)
    ensures
        r == is_alnum(b),
{
    alpha(b) || digit(b)
}

pub fn to_lower(b: u8) -> (r: u8)
    ensures
        r == lower(b),
{
    if upper(b) {
        b + 32
    } else {
        b
    }
}

/// Every byte is ASCII.
pub open spec fn all_ascii(s: Seq<u8>) -> bool {
    forall|i: int| 0 <= i < s.len() ==> is_ascii_byte(#[trigger] s[i])
}

/// ASCII bytes are valid UTF-8.
pub proof fn lemma_ascii_valid(b: Seq<u8>)
    requires
        all_ascii(b),
    ensures
        valid_utf8(b),
{
    assert(partial_valid_utf8(b, 0)) by {
        assert(b.subrange(0, 0) =~= Seq::<u8>::empty());
    }
    assert forall|i: int| 0 <= 0 <= i < b.len() <= b.len() implies #[trigger] is_leading_byte_width_1(
        b[i],
    ) by {
        assert(is_ascii_byte(b[i]));
    }
    partial_valid_utf8_extend_ascii_block(b, 0, b.len() as int);
    assert(b.subrange(0, b.len() as int) =~= b);
}

// ---------------------------------------------------------------------------
// UTF-8 boundaries and characters
// ---------------------------------------------------------------------------

/// `i` is a character boundary of `b`: the end, or a byte that does not
/// continue a multi-byte character.
pub open spec fn at_boundary(b: Seq<u8>, i: int) -> bool {
    0 <= i <= b.len() && (i == b.len() || !is_continuation_byte(b[i]))
}

/// Byte length of the character whose leading byte is `lead`.
pub open spec fn char_width(lead: u8) -> int {
    if lead <= 0x7f {
        1
    } else if 0xc0 <= lead <= 0xdf {
        2
    } else if 0xe0 <= lead <= 0xef {
        3
    } else {
        4
    }
}

pub fn width_of(lead: u8) -> (w: usize)
    ensures
        w == char_width(lead),
{
    if lead <= 0x7f {
        1
    } else if 0xc0 <= lead && lead <= 0xdf {
        2
    } else if 0xe0 <= lead && lead <= 0xef {
        3
    } else {
        4
    }
}

/// The code point of the character starting at byte `i`.
pub open spec fn code_at(b: Seq<u8>, i: int) -> u32 {
    decode_first_codepoint(b.subrange(i, b.len() as int))
}

/// Start of the last character that ends at or before byte `i`.
pub open spec fn last_char_start(b: Seq<u8>, i: int) -> int
    decreases i,
{
    if i <= 1 {
        0
    } else if !is_continuation_byte(b[i - 1]) {
        i - 1
    } else {
        last_char_start(b, i - 1)
    }
}

pub proof fn lemma_boundary_iff(b: Seq<u8>, i: int)
    requires
        valid_utf8(b),
        0 <= i <= b.len(),
    ensures
        at_boundary(b, i) <==> is_char_boundary(b, i),
{
    is_char_boundary_start_end_of_seq(b);
    if i < b.len() {
        is_char_boundary_iff_not_is_continuation_byte(b, i);
    }
}

/// Stepping over one character from a boundary lands on a boundary.
pub proof fn lemma_next_char(b: Seq<u8>, i: int)
    requires
        valid_utf8(b),
        at_boundary(b, i),
        i < b.len(),
    ensures
        i + char_width(b[i]) <= b.len(),
        at_boundary(b, i + char_width(b[i])),
        valid_first_scalar(b.subrange(i, b.len() as int)),
        forall|k: int| i < k < i + char_width(b[i]) ==> is_continuation_byte(#[trigger] b[k]),
{
    lemma_boundary_iff(b, i);
    valid_utf8_split(b, i);
    let s = b.subrange(i, b.len() as int);
    assert(s[0] == b[i]);
    assert(valid_first_scalar(s));
    let w = char_width(b[i]);
    assert(length_of_first_scalar(s) == w);
    let rest = pop_first_scalar(s);
    assert(rest =~= b.subrange(i + w, b.len() as int));
    reveal_with_fuel(valid_utf8, 2);
    if rest.len() > 0 {
        assert(valid_first_scalar(rest));
        assert(rest[0] == b[i + w]);
    }
    assert forall|k: int| i < k < i + w implies is_continuation_byte(#[trigger] b[k]) by {
        assert(b[k] == s[k - i]);
    }
}

/// The bytes between two boundaries of valid UTF-8 are valid UTF-8.
pub proof fn lemma_valid_between(b: Seq<u8>, i: int, j: int)
    requires
        valid_utf8(b),
        at_boundary(b, i),
        at_boundary(b, j),
        i <= j,
    ensures
        valid_utf8(b.subrange(i, j)),
{
    lemma_boundary_iff(b, i);
    valid_utf8_split(b, i);
    let s = b.subrange(i, b.len() as int);
    assert(at_boundary(s, j - i)) by {
        if j < b.len() {
            assert(s[j - i] == b[j]);
        }
    }
    lemma_boundary_iff(s, j - i);
    valid_utf8_split(s, j - i);
    assert(s.subrange(0, j - i) =~= b.subrange(i, j));
}

/// The character before a boundary starts at `last_char_start` and ends at
/// the boundary.
pub proof fn lemma_prev_char(b: Seq<u8>, i: int)
    requires
        valid_utf8(b),
        at_boundary(b, i),
        0 < i,
    ensures
        0 <= last_char_start(b, i) < i,
        at_boundary(b, last_char_start(b, i)),
        last_char_start(b, i) + char_width(b[last_char_start(b, i)]) == i,
{
    lemma_prev_char_aux(b, i, i);
    let k = last_char_start(b, i);
    lemma_next_char(b, k);
    let w = char_width(b[k]);
    if k + w < i {
        assert(!is_continuation_byte(b[k + w]));
        assert(is_continuation_byte(b[k + w]));
    }
    if k + w > i {
        if i < b.len() {
            assert(is_continuation_byte(b[i]));
        }
    }
}

proof fn lemma_prev_char_aux(b: Seq<u8>, i: int, top: int)
    requires
        valid_utf8(b),
        0 < i <= top <= b.len(),
        forall|k: int| i <= k < top ==> is_continuation_byte(#[trigger] b[k]),
    ensures
        0 <= last_char_start(b, i) < i,
        at_boundary(b, last_char_start(b, i)),
        forall|k: int| last_char_start(b, i) < k < top ==> is_continuation_byte(#[trigger] b[k]),
    decreases i,
{
    if i <= 1 {
        assert(valid_first_scalar(b));
        assert(!is_continuation_byte(b[0]));
    } else if !is_continuation_byte(b[i - 1]) {
    } else {
        lemma_prev_char_aux(b, i - 1, top);
    }
}

/// Decode the code point of the character starting at boundary `i`.
pub fn decode_at(b: &[u8], i: usize) -> (c: u32)
    requires
        valid_utf8(b@),
        at_boundary(b@, i as int),
        i < b.len(),
    ensures
        c == code_at(b@, i as int),
{
    proof {
        lemma_next_char(b@, i as int);
    }
    let b0 = b[i];
    if b0 <= 0x7f {
        (b0 & 0x7f) as u32
    } else if 0xc0 <= b0 && b0 <= 0xdf {
        ((b0 & 0x1f) as u32) << 6 | (b[i + 1] & 0x3f) as u32
    } else if 0xe0 <= b0 && b0 <= 0xef {
        ((b0 & 0x0f) as u32) << 12 | ((b[i + 1] & 0x3f) as u32) << 6 | (b[i + 2] & 0x3f) as u32
    } else {
        ((b0 & 0x07) as u32) << 18 | ((b[i + 1] & 0x3f) as u32) << 12 | ((b[i + 2] & 0x3f) as u32)
            << 6 | (b[i + 3] & 0x3f) as u32
    }
}

/// Unicode `White_Space`, as std's `char::is_whitespace` documents it.
pub open spec fn is_space_code(c: u32) -> bool {
    ||| 0x09 <= c <= 0x0d
    ||| c == 0x20
    ||| c == 0x85
    ||| c == 0xa0
    ||| c == 0x1680
    ||| 0x2000 <= c <= 0x200a
    ||| c == 0x2028
    ||| c == 0x2029
    ||| c == 0x202f
    ||| c == 0x205f
    ||| c == 0x3000
}

/// Unicode general category `Cc`, as std's `char::is_control` documents it.
pub open spec fn is_control_code(c: u32) -> bool {
    c <= 0x1f || 0x7f <= c <= 0x9f
}

pub fn space_code(c: u32) -> (r: bool)
    ensures
        r == is_space_code(c),
{
    (0x09 <= c && c <= 0x0d) || c == 0x20 || c == 0x85 || c == 0xa0 || c == 0x1680 || (0x2000 <= c
        && c <= 0x200a) || c == 0x2028 || c == 0x2029 || c == 0x202f || c == 0x205f || c == 0x3000
}

pub fn control_code(c: u32) -> (r: bool)
    ensures
        r == is_control_code(c),
{
    c <= 0x1f || (0x7f <= c && c <= 0x9f)
}

/// Start of the character that ends at boundary `i` (which must be > 0).
pub fn prev_char_start(b: &[u8], i: usize) -> (k: usize)
    requires
        valid_utf8(b@),
        at_boundary(b@, i as int),
        0 < i,
    ensures
        k == last_char_start(b@, i as int),
        k < i,
        at_boundary(b@, k as int),
{
    proof {
        lemma_prev_char(b@, i as int);
    }
    let mut j = i;
    while j > 1 && 0x80 <= b[j - 1] && b[j - 1] <= 0xbf
        invariant
            0 < j <= i <= b.len(),
            last_char_start(b@, j as int) == last_char_start(b@, i as int),
        decreases j,
    {
        j = j - 1;
    }
    if j <= 1 {
        0
    } else {
        j - 1
    }
}

// ---------------------------------------------------------------------------
// White space trimming (std's `trim`, `trim_start`, `trim_end`)
// ---------------------------------------------------------------------------

/// Start of `b[i..j)` once its leading white space is skipped.
pub open spec fn skip_space(b: Seq<u8>, i: int, j: int) -> int
    decreases j - i,
{
    if i < 0 || i >= j || j > b.len() {
        i
    } else if is_space_code(code_at(b, i)) && i + char_width(b[i]) <= j {
        skip_space(b, i + char_width(b[i]), j)
    } else {
        i
    }
}

/// End of `b[i..j)` once its trailing white space is dropped.
pub open spec fn drop_space(b: Seq<u8>, i: int, j: int) -> int
    decreases j,
{
    if i < 0 || j <= i || j > b.len() {
        j
    } else {
        let k = last_char_start(b, j);
        if i <= k < j && is_space_code(code_at(b, k)) {
            drop_space(b, i, k)
        } else {
            j
        }
    }
}

/// The white-space-trimmed range of `b[i..j)`.
pub open spec fn trimmed(b: Seq<u8>, i: int, j: int) -> (int, int) {
    let s = skip_space(b, i, j);
    (s, drop_space(b, s, j))
}

/// A character that starts at a boundary below another boundary ends at or
/// before it.
pub proof fn lemma_char_within(b: Seq<u8>, i: int, j: int)
    requires
        valid_utf8(b),
        at_boundary(b, i),
        at_boundary(b, j),
        i < j,
    ensures
        i + char_width(b[i]) <= j,
        at_boundary(b, i + char_width(b[i])),
{
    lemma_next_char(b, i);
    if i + char_width(b[i]) > j {
        assert(is_continuation_byte(b[j]));
    }
}

pub fn skip_space_exec(b: &[u8], i: usize, j: usize) -> (r: usize)
    requires
        valid_utf8(b@),
        at_boundary(b@, i as int),
        at_boundary(b@, j as int),
        i <= j,
    ensures
        r == skip_space(b@, i as int, j as int),
        i <= r <= j,
        at_boundary(b@, r as int),
{
    let mut k = i;
    while k < j
        invariant
            valid_utf8(b@),
            i <= k <= j <= b.len(),
            at_boundary(b@, k as int),
            at_boundary(b@, j as int),
            skip_space(b@, k as int, j as int) == skip_space(b@, i as int, j as int),
        decreases j - k,
    {
        let c = decode_at(b, k);
        if !space_code(c) {
            return k;
        }
        proof {
            lemma_char_within(b@, k as int, j as int);
        }
        k = k + width_of(b[k]);
    }
    k
}

pub fn drop_space_exec(b: &[u8], i: usize, j: usize) -> (r: usize)
    requires
        valid_utf8(b@),
        at_boundary(b@, i as int),
        at_boundary(b@, j as int),
        i <= j,
    ensures
        r == drop_space(b@, i as int, j as int),
        i <= r <= j,
        at_boundary(b@, r as int),
{
    let mut k = j;
    while k > i
        invariant
            valid_utf8(b@),
            i <= k <= j <= b.len(),
            at_boundary(b@, k as int),
            drop_space(b@, i as int, k as int) == drop_space(b@, i as int, j as int),
        decreases k,
    {
        let s = prev_char_start(b, k);
        if s < i {
            return k;
        }
        let c = decode_at(b, s);
        if !space_code(c) {
            return k;
        }
        k = s;
    }
    k
}

/// `s[from..to]` for character boundaries `from <= to`.
pub fn sub_str(s: &str, from: usize, to: usize) -> (r: &str)
    requires
        from <= to,
        at_boundary(str_bytes(s), from as int),
        at_boundary(str_bytes(s), to as int),
    ensures
        str_bytes(r) == str_bytes(s).subrange(from as int, to as int),
{
    let ghost b = str_bytes(s);
    proof {
        encode_utf8_valid_utf8(s@);
        lemma_boundary_iff(b, to as int);
    }
    let (head, _) = s.split_at(to);
    proof {
        let hb = str_bytes(head);
        assert(hb =~= b.subrange(0, to as int));
        if b.len() > 0 {
            assert(valid_first_scalar(b));
        }
        lemma_valid_between(b, 0, to as int);
        assert(at_boundary(hb, from as int)) by {
            if from < to {
                assert(hb[from as int] == b[from as int]);
            }
        }
        lemma_boundary_iff(hb, from as int);
    }
    let (_, r) = head.split_at(from);
    proof {
        assert(str_bytes(r) =~= b.subrange(from as int, to as int));
    }
    r
}

/// `s[from..to]` of a byte slice.
pub fn sub_bytes(s: &[u8], from: usize, to: usize) -> (r: &[u8])
    requires
        from <= to <= s.len(),
    ensures
        r@ == s@.subrange(from as int, to as int),
{
    let (head, _) = s.split_at(to);
    let (_, r) = head.split_at(from);
    proof {
        assert(r@ =~= s@.subrange(from as int, to as int));
    }
    r
}

/// `s[from..to]` of valid UTF-8 between character boundaries; the part is
/// valid UTF-8 too.
pub fn sub_valid(s: &[u8], from: usize, to: usize) -> (r: &[u8])
    requires
        valid_utf8(s@),
        from <= to,
        at_boundary(s@, from as int),
        at_boundary(s@, to as int),
    ensures
        r@ == s@.subrange(from as int, to as int),
        valid_utf8(r@),
{
    proof {
        lemma_valid_between(s@, from as int, to as int);
    }
    sub_bytes(s, from, to)
}

/// A position next to an ASCII byte (or at either end) is a boundary.
pub open spec fn ascii_edge(s: Seq<u8>, i: int) -> bool {
    &&& 0 <= i <= s.len()
    &&& (i == 0 || i == s.len() || is_ascii_byte(s[i - 1]) || is_ascii_byte(s[i]))
}

pub proof fn lemma_ascii_edge(s: Seq<u8>, i: int)
    requires
        valid_utf8(s),
        ascii_edge(s, i),
    ensures
        at_boundary(s, i),
{
    if i == 0 {
        if s.len() > 0 {
            assert(valid_first_scalar(s));
        }
    } else if i < s.len() {
        if is_ascii_byte(s[i - 1]) {
            lemma_after_ascii(s, i);
        }
    }
}

/// A literal made of ASCII characters is its characters byte for byte.
pub proof fn lemma_ascii_lit(s: &str)
    requires
        is_ascii_chars(s@),
    ensures
        str_bytes(s).len() == s@.len(),
        forall|i: int| 0 <= i < s@.len() ==> str_bytes(s)[i] == s@[i] as u8,
        all_ascii(str_bytes(s)),
{
    is_ascii_chars_encode_utf8(s@);
    assert(str_bytes(s) == encode_utf8(s@));
    assert forall|i: int| 0 <= i < str_bytes(s).len() implies is_ascii_byte(
        #[trigger] str_bytes(s)[i],
    ) by {
        assert(str_bytes(s)[i] == s@[i] as u8);
    }
}

// ---------------------------------------------------------------------------
// Decimal numbers
// ---------------------------------------------------------------------------

/// Decimal rendering of `n`, without leading zeros.
pub open spec fn decimal(n: nat) -> Seq<u8>
    decreases n,
{
    if n < 10 {
        seq![(0x30 + n) as u8]
    } else {
        decimal(n / 10).push((0x30 + n % 10) as u8)
    }
}

/// The value of a run of ASCII digits.
pub open spec fn digits_value(s: Seq<u8>) -> nat
    decreases s.len(),
{
    if s.len() == 0 {
        0
    } else {
        digits_value(s.drop_last()) * 10 + (s.last() - 0x30) as nat
    }
}

pub proof fn lemma_decimal_ascii(n: nat)
    ensures
        all_ascii(decimal(n)),
        decimal(n).len() >= 1,
        forall|i: int| 0 <= i < decimal(n).len() ==> is_digit(#[trigger] decimal(n)[i]),
    decreases n,
{
    if n >= 10 {
        lemma_decimal_ascii(n / 10);
    }
}

/// Append the decimal rendering of `n`.
pub fn push_decimal(out: &mut Vec<u8>, n: u64)
    ensures
        final(out)@ == old(out)@ + decimal(n as nat),
    decreases n,
{
    if n >= 10 {
        push_decimal(out, n / 10);
    }
    out.push(0x30 + (n % 10) as u8);
    proof {
        assert(final(out)@ =~= old(out)@ + decimal(n as nat));
    }
}

// ---------------------------------------------------------------------------
// Byte sequences
// ---------------------------------------------------------------------------

/// `pat` occurs in `s` starting at `i`.
pub open spec fn occurs_at(s: Seq<u8>, i: int, pat: Seq<u8>) -> bool {
    0 <= i && i + pat.len() <= s.len() && s.subrange(i, i + pat.len()) == pat
}

/// `pat` occurs somewhere in `s`.
pub open spec fn contains(s: Seq<u8>, pat: Seq<u8>) -> bool {
    exists|i: int| occurs_at(s, i, pat)
}

pub open spec fn starts_with(s: Seq<u8>, pat: Seq<u8>) -> bool {
    occurs_at(s, 0, pat)
}

pub open spec fn ends_with(s: Seq<u8>, pat: Seq<u8>) -> bool {
    occurs_at(s, s.len() - pat.len(), pat)
}

pub fn has_at(s: &[u8], i: usize, pat: &[u8]) -> (r: bool)
    ensures
        r == occurs_at(s@, i as int, pat@),
{
    if i > s.len() || pat.len() > s.len() - i {
        return false;
    }
    let mut k: usize = 0;
    while k < pat.len()
        invariant
            i + pat.len() <= s.len(),
            k <= pat.len(),
            forall|m: int| 0 <= m < k ==> s@[i + m] == pat@[m],
        decreases pat.len() - k,
    {
        if s[i + k] != pat[k] {
            proof {
                assert(s@.subrange(i as int, i + pat.len())[k as int] != pat@[k as int]);
            }
            return false;
        }
        k = k + 1;
    }
    proof {
        assert(s@.subrange(i as int, i + pat.len()) =~= pat@);
    }
    true
}

pub fn has_prefix(s: &[u8], pat: &[u8]) -> (r: bool)
    ensures
        r == starts_with(s@, pat@),
{
    has_at(s, 0, pat)
}

pub fn has_suffix(s: &[u8], pat: &[u8]) -> (r: bool)
    ensures
        r == ends_with(s@, pat@),
{
    if pat.len() > s.len() {
        return false;
    }
    has_at(s, s.len() - pat.len(), pat)
}

/// First occurrence of `pat` in `s` at or after `from`.
pub open spec fn find_from(s: Seq<u8>, pat: Seq<u8>, from: int) -> Option<int>
    decreases s.len() + 1 - from,
{
    if from < 0 || from + pat.len() > s.len() {
        None
    } else if occurs_at(s, from, pat) {
        Some(from)
    } else {
        find_from(s, pat, from + 1)
    }
}

pub proof fn lemma_find_from(s: Seq<u8>, pat: Seq<u8>, from: int)
    requires
        0 <= from,
    ensures
        find_from(s, pat, from) is None <==> (forall|i: int|
            from <= i ==> !#[trigger] occurs_at(s, i, pat)),
        find_from(s, pat, from) matches Some(i) ==> from <= i && occurs_at(s, i, pat) && forall|
            k: int,
        |
            from <= k < i ==> !#[trigger] occurs_at(s, k, pat),
    decreases s.len() + 1 - from,
{
    if from + pat.len() > s.len() {
    } else if occurs_at(s, from, pat) {
    } else {
        lemma_find_from(s, pat, from + 1);
        assert forall|i: int| from <= i && find_from(s, pat, from + 1) is None implies !#[trigger] occurs_at(
            s,
            i,
            pat,
        ) by {
            if i == from {
            }
        }
    }
}

pub fn find_bytes(s: &[u8], pat: &[u8], from: usize) -> (r: Option<usize>)
    ensures
        r matches Some(i) ==> find_from(s@, pat@, from as int) == Some(i as int),
        r is None ==> find_from(s@, pat@, from as int) is None,
{
    if pat.len() == 0 {
        if from <= s.len() {
            proof {
                assert(s@.subrange(from as int, from as int) =~= pat@);
            }
            return Some(from);
        }
        return None;
    }
    let mut i = from;
    while i <= s.len() && pat.len() <= s.len() - i
        invariant
            from <= i,
            pat.len() > 0,
            find_from(s@, pat@, from as int) == find_from(s@, pat@, i as int),
        decreases s.len() + 1 - i,
    {
        if has_at(s, i, pat) {
            return Some(i);
        }
        i = i + 1;
    }
    None
}

pub fn contains_bytes(s: &[u8], pat: &[u8]) -> (r: bool)
    ensures
        r == contains(s@, pat@),
{
    proof {
        lemma_find_from(s@, pat@, 0);
    }
    match find_bytes(s, pat, 0) {
        Some(_) => true,
        None => {
            proof {
                assert forall|i: int| !#[trigger] occurs_at(s@, i, pat@) by {
                    if i >= 0 {
                    }
                }
            }
            false
        },
    }
}

/// Every non-overlapping occurrence of `pat`, scanned left to right,
/// replaced by `rep` (std's `str::replace`).
pub open spec fn replace_all(s: Seq<u8>, pat: Seq<u8>, rep: Seq<u8>) -> Seq<u8>
    decreases s.len(),
{
    if pat.len() == 0 || s.len() == 0 {
        s
    } else if occurs_at(s, 0, pat) {
        rep + replace_all(s.subrange(pat.len() as int, s.len() as int), pat, rep)
    } else {
        seq![s[0]] + replace_all(s.subrange(1, s.len() as int), pat, rep)
    }
}

/// Append `s[from..to]` to `out`.
pub fn push_range(out: &mut Vec<u8>, s: &[u8], from: usize, to: usize)
    requires
        from <= to <= s.len(),
    ensures
        final(out)@ == old(out)@ + s@.subrange(from as int, to as int),
{
    let mut k = from;
    while k < to
        invariant
            from <= k <= to <= s.len(),
            out@ == old(out)@ + s@.subrange(from as int, k as int),
        decreases to - k,
    {
        out.push(s[k]);
        k = k + 1;
        proof {
            assert(out@ =~= old(out)@ + s@.subrange(from as int, k as int));
        }
    }
}

/// Append all of `s` to `out`.
pub fn push_all(out: &mut Vec<u8>, s: &[u8])
    ensures
        final(out)@ == old(out)@ + s@,
{
    push_range(out, s, 0, s.len());
    proof {
        assert(s@.subrange(0, s@.len() as int) =~= s@);
    }
}

pub fn replace_bytes(s: &[u8], pat: &[u8], rep: &[u8]) -> (r: Vec<u8>)
    requires
        pat.len() > 0,
    ensures
        r@ == replace_all(s@, pat@, rep@),
{
    let mut out: Vec<u8> = Vec::new();
    let mut i: usize = 0;
    proof {
        assert(s@.subrange(0, s.len() as int) =~= s@);
        assert(out@ + replace_all(s@, pat@, rep@) =~= replace_all(s@, pat@, rep@));
    }
    while i < s.len()
        invariant
            i <= s.len(),
            pat.len() > 0,
            replace_all(s@, pat@, rep@) == out@ + replace_all(
                s@.subrange(i as int, s.len() as int),
                pat@,
                rep@,
            ),
        decreases s.len() - i,
    {
        let ghost rest = s@.subrange(i as int, s.len() as int);
        if has_at(s, i, pat) {
            proof {
                assert(rest.subrange(0, pat.len() as int) =~= s@.subrange(
                    i as int,
                    i + pat.len(),
                ));
                assert(rest.subrange(pat.len() as int, rest.len() as int) =~= s@.subrange(
                    i + pat.len(),
                    s.len() as int,
                ));
                assert(out@ + (rep@ + replace_all(
                    s@.subrange(i + pat.len(), s.len() as int),
                    pat@,
                    rep@,
                )) =~= (out@ + rep@) + replace_all(
                    s@.subrange(i + pat.len(), s.len() as int),
                    pat@,
                    rep@,
                ));
            }
            push_all(&mut out, rep);
            i = i + pat.len();
        } else {
            proof {
                if occurs_at(rest, 0, pat@) {
                    assert(rest.subrange(0, pat.len() as int) =~= s@.subrange(
                        i as int,
                        i + pat.len(),
                    ));
                }
                assert(rest.subrange(1, rest.len() as int) =~= s@.subrange(
                    i + 1,
                    s.len() as int,
                ));
                assert(out@ + (seq![s@[i as int]] + replace_all(
                    s@.subrange(i + 1, s.len() as int),
                    pat@,
                    rep@,
                )) =~= out@.push(s@[i as int]) + replace_all(
                    s@.subrange(i + 1, s.len() as int),
                    pat@,
                    rep@,
                ));
            }
            out.push(s[i]);
            i = i + 1;
        }
    }
    proof {
        assert(s@.subrange(i as int, s.len() as int) =~= Seq::<u8>::empty());
        assert(out@ + Seq::<u8>::empty() =~= out@);
    }
    out
}

/// A run of ASCII digits starting at `i`: its length.
pub open spec fn digit_run(s: Seq<u8>, i: int) -> nat
    decreases s.len() - i,
{
    if i < 0 || i >= s.len() || !is_digit(s[i]) {
        0
    } else {
        1 + digit_run(s, i + 1)
    }
}

pub proof fn lemma_digit_run(s: Seq<u8>, i: int)
    requires
        0 <= i <= s.len(),
    ensures
        i + digit_run(s, i) <= s.len(),
        forall|k: int| i <= k < i + digit_run(s, i) ==> is_digit(#[trigger] s[k]),
        i + digit_run(s, i) < s.len() ==> !is_digit(s[i + digit_run(s, i)]),
    decreases s.len() - i,
{
    if i < s.len() && is_digit(s[i]) {
        lemma_digit_run(s, i + 1);
    }
}

/// A number of 1-7 ASCII digits starting at `i`: (value, length).
pub open spec fn number_at(s: Seq<u8>, i: int) -> Option<(nat, nat)> {
    let n = digit_run(s, i);
    if n == 0 || n > 7 {
        None
    } else {
        Some((digits_value(s.subrange(i, i + n)), n))
    }
}

proof fn lemma_digits_value_bound(s: Seq<u8>)
    requires
        forall|k: int| 0 <= k < s.len() ==> is_digit(#[trigger] s[k]),
    ensures
        s.len() == 0 ==> digits_value(s) == 0,
        s.len() == 1 ==> digits_value(s) < 10,
        s.len() == 2 ==> digits_value(s) < 100,
        s.len() == 3 ==> digits_value(s) < 1000,
        s.len() == 4 ==> digits_value(s) < 10000,
        s.len() == 5 ==> digits_value(s) < 100000,
        s.len() == 6 ==> digits_value(s) < 1000000,
        s.len() == 7 ==> digits_value(s) < 10000000,
    decreases s.len(),
{
    if s.len() > 0 {
        lemma_digits_value_bound(s.drop_last());
    }
}

/// Read a 1-7 digit number at `i` (the parse helper shared by the line
/// suffix and issue-ID grammars).
pub fn read_number(s: &[u8], i: usize) -> (r: Option<(u32, usize)>)
    requires
        i <= s.len(),
    ensures
        r matches Some((v, n)) ==> number_at(s@, i as int) == Some((v as nat, n as nat)),
        r is None ==> number_at(s@, i as int) is None,
        r matches Some((v, n)) ==> 1 <= n <= 7 && i + n <= s.len() && v < 10000000,
{
    proof {
        lemma_digit_run(s@, i as int);
    }
    let mut j = i;
    let mut v: u32 = 0;
    while j < s.len() && digit(s[j]) && j - i < 8
        invariant
            i <= j <= s.len(),
            j - i <= 8,
            i + digit_run(s@, i as int) >= j,
            forall|k: int| i <= k < j ==> is_digit(#[trigger] s@[k]),
            j - i <= 7 ==> v == digits_value(s@.subrange(i as int, j as int)),
            j - i <= 7 ==> v < 10000000,
        decreases s.len() - j,
    {
        proof {
            lemma_digit_run(s@, i as int);
            lemma_digits_value_bound(s@.subrange(i as int, j as int));
        }
        if j - i < 7 {
            let d = (s[j] - 0x30) as u32;
            proof {
                assert(s@.subrange(i as int, j + 1).drop_last() =~= s@.subrange(i as int, j as int));
            }
            v = v * 10 + d;
            proof {
                lemma_digits_value_bound(s@.subrange(i as int, j + 1));
            }
        }
        j = j + 1;
    }
    proof {
        if j - i < 8 {
            if j < s.len() {
                lemma_digit_run_stop(s@, i as int, j as int);
            } else {
                lemma_digit_run_stop(s@, i as int, j as int);
            }
        }
    }
    let n = j - i;
    if n == 0 || n > 7 {
        None
    } else {
        Some((v, n))
    }
}

proof fn lemma_digit_run_stop(s: Seq<u8>, i: int, j: int)
    requires
        0 <= i <= j <= s.len(),
        forall|k: int| i <= k < j ==> is_digit(#[trigger] s[k]),
        j == s.len() || !is_digit(s[j]),
    ensures
        digit_run(s, i) == j - i,
    decreases j - i,
{
    if i < j {
        lemma_digit_run_stop(s, i + 1, j);
    }
}

// ---------------------------------------------------------------------------
// Percent-encoding
// ---------------------------------------------------------------------------

/// Which bytes a percent-encoder lets through unchanged.
#[derive(Clone, Copy, Debug, PartialEq, Eq)]
pub enum Keep {
    /// Printable ASCII, 0x21..=0x7e (what an OSC payload may carry).
    Printable,
    /// Any ASCII byte.
    Ascii,
    /// RFC 3986 unreserved characters plus `/`.
    PathSafe,
}

pub open spec fn keeps(k: Keep, b: u8) -> bool {
    match k {
        Keep::Printable => 0x21 <= b <= 0x7e,
        Keep::Ascii => b < 0x80,
        Keep::PathSafe => is_alnum(b) || b == 0x2d || b == 0x5f || b == 0x2e || b == 0x7e || b
            == 0x2f,
    }
}

fn kept(k: Keep, b: u8) -> (r: bool)
    ensures
        r == keeps(k, b),
{
    match k {
        Keep::Printable => 0x21 <= b && b <= 0x7e,
        Keep::Ascii => b < 0x80,
        Keep::PathSafe => alnum(b) || b == 0x2d || b == 0x5f || b == 0x2e || b == 0x7e || b
            == 0x2f,
    }
}

/// Upper-case hexadecimal digit for a nibble.
pub open spec fn hex_digit(d: u8) -> u8 {
    if d < 10 {
        (0x30 + d) as u8
    } else {
        (0x41 + d - 10) as u8
    }
}

/// `%XX` with two upper-case hex digits.
pub open spec fn escape(b: u8) -> Seq<u8> {
    seq![0x25u8, hex_digit(b / 16), hex_digit(b % 16)]
}

/// The encoding of one byte.
pub open spec fn encode_byte(k: Keep, b: u8) -> Seq<u8> {
    if keeps(k, b) {
        seq![b]
    } else {
        escape(b)
    }
}

/// Byte-by-byte percent-encoding of everything `k` does not keep.
pub open spec fn percent_encode(s: Seq<u8>, k: Keep) -> Seq<u8>
    decreases s.len(),
{
    if s.len() == 0 {
        Seq::empty()
    } else {
        percent_encode(s.drop_last(), k) + encode_byte(k, s.last())
    }
}

/// Every byte is kept by `k`.
pub open spec fn all_kept(s: Seq<u8>, k: Keep) -> bool {
    forall|i: int| 0 <= i < s.len() ==> keeps(k, #[trigger] s[i])
}

/// Encoding leaves a sequence of kept bytes unchanged.
pub proof fn lemma_encode_kept(s: Seq<u8>, k: Keep)
    requires
        all_kept(s, k),
    ensures
        percent_encode(s, k) == s,
    decreases s.len(),
{
    if s.len() > 0 {
        lemma_encode_kept(s.drop_last(), k);
        assert(s.drop_last().push(s.last()) =~= s);
    }
}

/// Every byte of an encoding is printable ASCII and kept-or-escape material.
pub proof fn lemma_encode_printable(s: Seq<u8>, k: Keep)
    requires
        k != Keep::Ascii,
    ensures
        all_kept(percent_encode(s, k), Keep::Printable),
        all_ascii(percent_encode(s, k)),
    decreases s.len(),
{
    if s.len() > 0 {
        lemma_encode_printable(s.drop_last(), k);
        let a = percent_encode(s.drop_last(), k);
        let e = encode_byte(k, s.last());
        assert forall|i: int| 0 <= i < (a + e).len() implies keeps(Keep::Printable, #[trigger] (a + e)[i]) && is_ascii_byte((a + e)[i]) by {
            if i >= a.len() {
                assert((a + e)[i] == e[i - a.len()]);
            }
        }
    }
}

/// The encoding of any input under `Keep::Ascii` is ASCII.
pub proof fn lemma_encode_ascii(s: Seq<u8>)
    ensures
        all_ascii(percent_encode(s, Keep::Ascii)),
    decreases s.len(),
{
    if s.len() > 0 {
        lemma_encode_ascii(s.drop_last());
        let a = percent_encode(s.drop_last(), Keep::Ascii);
        let e = encode_byte(Keep::Ascii, s.last());
        assert forall|i: int| 0 <= i < (a + e).len() implies is_ascii_byte(#[trigger] (a + e)[i]) by {
            if i >= a.len() {
                assert((a + e)[i] == e[i - a.len()]);
            }
        }
    }
}

fn hex(d: u8) -> (r: u8)
    requires
        d < 16,
    ensures
        r == hex_digit(d),
{
    if d < 10 {
        0x30 + d
    } else {
        0x41 + d - 10
    }
}

/// Percent-encode every byte of `s` that `k` does not keep.
pub fn percent_encode_bytes(s: &[u8], k: Keep) -> (r: Vec<u8>)
    ensures
        r@ == percent_encode(s@, k),
{
    let mut out: Vec<u8> = Vec::with_capacity(s.len());
    let mut i: usize = 0;
    while i < s.len()
        invariant
            i <= s.len(),
            out@ == percent_encode(s@.subrange(0, i as int), k),
        decreases s.len() - i,
    {
        let b = s[i];
        if kept(k, b) {
            out.push(b);
        } else {
            out.push(0x25);
            out.push(hex(b / 16));
            out.push(hex(b % 16));
        }
        proof {
            assert(s@.subrange(0, i + 1).drop_last() =~= s@.subrange(0, i as int));
            assert(out@ =~= percent_encode(s@.subrange(0, i + 1), k));
        }
        i = i + 1;
    }
    proof {
        assert(s@.subrange(0, s.len() as int) =~= s@);
    }
    out
}

/// Whether every byte is kept by `k`.
pub fn every_kept(s: &[u8], k: Keep) -> (r: bool)
    ensures
        r == all_kept(s@, k),
{
    let mut i: usize = 0;
    while i < s.len()
        invariant
            i <= s.len(),
            forall|j: int| 0 <= j < i ==> keeps(k, #[trigger] s@[j]),
        decreases s.len() - i,
    {
        if !kept(k, s[i]) {
            return false;
        }
        i = i + 1;
    }
    true
}

/// Copy a byte slice.
pub fn copy_bytes(s: &[u8]) -> (r: Vec<u8>)
    ensures
        r@ == s@,
{
    let mut out: Vec<u8> = Vec::with_capacity(s.len());
    push_all(&mut out, s);
    out
}

// ---------------------------------------------------------------------------
// Building UTF-8 output
// ---------------------------------------------------------------------------

/// Append a string slice; validity of the accumulated bytes is kept.
pub fn push_str(out: &mut Vec<u8>, s: &str)
    ensures
        final(out)@ == old(out)@ + str_bytes(s),
        valid_utf8(old(out)@) ==> valid_utf8(final(out)@),
{
    let b = slice_bytes(s);
    push_all(out, b);
    proof {
        if valid_utf8(old(out)@) {
            valid_utf8_concat(old(out)@, b@);
        }
    }
}

/// Append valid UTF-8 bytes; validity of the accumulated bytes is kept.
pub fn push_valid(out: &mut Vec<u8>, s: &[u8])
    requires
        valid_utf8(s@),
    ensures
        final(out)@ == old(out)@ + s@,
        valid_utf8(old(out)@) ==> valid_utf8(final(out)@),
{
    push_all(out, s);
    proof {
        if valid_utf8(old(out)@) {
            valid_utf8_concat(old(out)@, s@);
        }
    }
}

/// Append the decimal rendering of `n`; validity is kept.
pub fn push_number(out: &mut Vec<u8>, n: u64)
    ensures
        final(out)@ == old(out)@ + decimal(n as nat),
        valid_utf8(old(out)@) ==> valid_utf8(final(out)@),
{
    push_decimal(out, n);
    proof {
        lemma_decimal_ascii(n as nat);
        lemma_ascii_valid(decimal(n as nat));
        if valid_utf8(old(out)@) {
            valid_utf8_concat(old(out)@, decimal(n as nat));
        }
    }
}

/// In valid UTF-8, the position after an ASCII byte is a boundary.
pub proof fn lemma_after_ascii(b: Seq<u8>, k: int)
    requires
        valid_utf8(b),
        0 < k <= b.len(),
        is_ascii_byte(b[k - 1]),
    ensures
        at_boundary(b, k),
{
    if k < b.len() {
        // b[k-1] is not a continuation byte, so k-1 starts a one-byte character.
        lemma_boundary_from_ascii(b, k - 1);
        lemma_next_char(b, k - 1);
    }
}

/// In valid UTF-8, an ASCII byte starts a character.
pub proof fn lemma_boundary_from_ascii(b: Seq<u8>, k: int)
    requires
        valid_utf8(b),
        0 <= k < b.len(),
        is_ascii_byte(b[k]),
    ensures
        at_boundary(b, k),
{
}

proof fn lemma_replace_skip(s: Seq<u8>, pat: Seq<u8>, rep: Seq<u8>, k: int)
    requires
        pat.len() > 0,
        0 <= k <= s.len(),
        forall|j: int| 0 <= j < k ==> s[j] != pat[0],
    ensures
        replace_all(s, pat, rep) == s.subrange(0, k) + replace_all(
            s.subrange(k, s.len() as int),
            pat,
            rep,
        ),
    decreases k,
{
    if k == 0 {
        assert(s.subrange(0, s.len() as int) =~= s);
        assert(s.subrange(0, 0) + s =~= s);
    } else {
        assert(!occurs_at(s, 0, pat)) by {
            if occurs_at(s, 0, pat) {
                assert(s.subrange(0, pat.len() as int)[0] == s[0]);
            }
        }
        let t = s.subrange(1, s.len() as int);
        lemma_replace_skip(t, pat, rep, k - 1);
        assert(t.subrange(k - 1, t.len() as int) =~= s.subrange(k, s.len() as int));
        assert(seq![s[0]] + t.subrange(0, k - 1) =~= s.subrange(0, k));
        assert(seq![s[0]] + (t.subrange(0, k - 1) + replace_all(
            s.subrange(k, s.len() as int),
            pat,
            rep,
        )) =~= s.subrange(0, k) + replace_all(s.subrange(k, s.len() as int), pat, rep));
    }
}

/// Replacing an ASCII pattern by valid UTF-8 keeps a string valid UTF-8.
pub proof fn lemma_replace_valid(s: Seq<u8>, pat: Seq<u8>, rep: Seq<u8>)
    requires
        valid_utf8(s),
        valid_utf8(rep),
        pat.len() > 0,
        all_ascii(pat),
    ensures
        valid_utf8(replace_all(s, pat, rep)),
    decreases s.len(),
{
    if s.len() == 0 {
    } else if occurs_at(s, 0, pat) {
        let n = pat.len() as int;
        assert(s[n - 1] == pat[n - 1]) by {
            assert(s.subrange(0, n)[n - 1] == s[n - 1]);
        }
        lemma_after_ascii(s, n);
        lemma_valid_between(s, n, s.len() as int);
        lemma_replace_valid(s.subrange(n, s.len() as int), pat, rep);
        valid_utf8_concat(rep, replace_all(s.subrange(n, s.len() as int), pat, rep));
    } else if is_ascii_byte(s[0]) {
        lemma_after_ascii(s, 1);
        lemma_valid_between(s, 1, s.len() as int);
        lemma_replace_valid(s.subrange(1, s.len() as int), pat, rep);
        lemma_ascii_valid(seq![s[0]]);
        valid_utf8_concat(seq![s[0]], replace_all(s.subrange(1, s.len() as int), pat, rep));
    } else {
        lemma_next_char(s, 0);
        let w = char_width(s[0]);
        assert forall|j: int| 0 <= j < w implies s[j] != pat[0] by {
            if j > 0 {
                assert(is_continuation_byte(s[j]));
            }
            assert(is_ascii_byte(pat[0]));
        }
        lemma_replace_skip(s, pat, rep, w);
        lemma_valid_between(s, 0, w);
        lemma_valid_between(s, w, s.len() as int);
        lemma_replace_valid(s.subrange(w, s.len() as int), pat, rep);
        valid_utf8_concat(s.subrange(0, w), replace_all(s.subrange(w, s.len() as int), pat, rep));
    }
}

} // verus!
