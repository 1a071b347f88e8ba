//! OSC 8 hyperlink emission.
//!
//! The wire format is `ESC ] 8 ; params ; URI ST` to open a link and
//! `ESC ] 8 ; ; ST` to close it, where ST is `ESC \`. No params are emitted
//! and the terminator is always ST (never BEL), which is what every OSC 8
//! capable terminal accepts. Terminals without OSC 8 support ignore the
//! sequence entirely, so the output degrades to the unmodified text.
use crate::text::{
    all_ascii, bytes_to_string, copy_bytes, every_kept, is_ascii_byte, lemma_ascii_valid,
    lemma_encode_kept, lemma_encode_printable, percent_encode, percent_encode_bytes, push_all,
    slice_bytes, str_bytes, string_bytes, Keep,
};
use vstd::prelude::*;
use vstd::utf8::is_ascii_chars_encode_utf8;

verus! {

/// Closes the most recently opened hyperlink.
pub const CLOSE: &'static str = "\x1b]8;;\x1b\\";

/// `ESC ] 8 ; ;`: the start of an opener (empty params field).
pub open spec fn open_prefix() -> Seq<u8> {
    seq![0x1bu8, 0x5d, 0x38, 0x3b, 0x3b]
}

/// The string terminator `ESC \`.
pub open spec fn st() -> Seq<u8> {
    seq![0x1bu8, 0x5c]
}

/// The bytes of [`CLOSE`].
pub open spec fn close_bytes() -> Seq<u8> {
    open_prefix() + st()
}

/// The bytes of the opener for `uri`.
pub open spec fn open_bytes(uri: Seq<u8>) -> Seq<u8> {
    open_prefix() + sanitized(uri) + st()
}

/// What [`sanitize`] turns `uri` into: every byte outside printable ASCII
/// percent-encoded.
pub open spec fn sanitized(uri: Seq<u8>) -> Seq<u8> {
    percent_encode(uri, Keep::Printable)
}

pub proof fn lemma_close_bytes()
    ensures
        str_bytes(CLOSE) == close_bytes(),
{
    reveal_strlit("\x1b]8;;\x1b\\");
    is_ascii_chars_encode_utf8(CLOSE@);
    assert(str_bytes(CLOSE) =~= close_bytes());
}

/// Append the bytes of [`CLOSE`].
pub fn push_close(out: &mut Vec<u8>)
    ensures
        final(out)@ == old(out)@ + close_bytes(),
{
    out.push(0x1b);
    out.push(0x5d);
    out.push(0x38);
    out.push(0x3b);
    out.push(0x3b);
    out.push(0x1b);
    out.push(0x5c);
    proof {
        assert(final(out)@ =~= old(out)@ + close_bytes());
    }
}

/// Append the opener for `uri`.
pub fn push_open(out: &mut Vec<u8>, uri: &[u8])
    ensures
        final(out)@ == old(out)@ + open_bytes(uri@),
{
    let enc = sanitize_bytes(uri);
    out.push(0x1b);
    out.push(0x5d);
    out.push(0x38);
    out.push(0x3b);
    out.push(0x3b);
    push_all(out, enc.as_slice());
    out.push(0x1b);
    out.push(0x5c);
    proof {
        assert(final(out)@ =~= old(out)@ + open_bytes(uri@));
    }
}

/// Byte-level [`sanitize`].
pub fn sanitize_bytes(uri: &[u8]) -> (r: Vec<u8>)
    ensures
        r@ == sanitized(uri@),
{
    if every_kept(uri, Keep::Printable) {
        proof {
            lemma_encode_kept(uri@, Keep::Printable);
        }
        return copy_bytes(uri);
    }
    percent_encode_bytes(uri, Keep::Printable)
}

/// Open a hyperlink to `uri`. The wrapped text follows, then [`CLOSE`].
pub fn open(uri: &str) -> (r: String)
    ensures
        string_bytes(r) == open_bytes(str_bytes(uri)),
{
    let mut out: Vec<u8> = Vec::new();
    push_open(&mut out, slice_bytes(uri));
    proof {
        lemma_encode_printable(str_bytes(uri), Keep::Printable);
        assert(all_ascii(out@)) by {
            assert forall|i: int| 0 <= i < out@.len() implies is_ascii_byte(#[trigger] out@[i]) by {
                let s = sanitized(str_bytes(uri));
                if 5 <= i < 5 + s.len() {
                    assert(out@[i] == s[i - 5]);
                }
            }
        }
        lemma_ascii_valid(out@);
    }
    bytes_to_string(out)
}

/// Make `uri` safe to embed in an OSC payload: only printable ASCII may
/// appear, so control bytes, spaces and non-ASCII bytes are
/// percent-encoded. Already-encoded input passes through unchanged because
/// `%` is printable ASCII.
pub fn sanitize(uri: &str) -> (r: String)
    ensures
        string_bytes(r) == sanitized(str_bytes(uri)),
{
    let out = sanitize_bytes(slice_bytes(uri));
    proof {
        lemma_encode_printable(str_bytes(uri), Keep::Printable);
        lemma_ascii_valid(out@);
    }
    bytes_to_string(out)
}

/// Law: a sanitized URI consists of printable ASCII only, so it can never
/// terminate or corrupt the OSC payload it is embedded in.
pub proof fn sanitize_output_is_printable(uri: Seq<u8>)
    ensures
        forall|i: int|
            0 <= i < sanitized(uri).len() ==> 0x21 <= #[trigger] sanitized(uri)[i] <= 0x7e,
{
    lemma_encode_printable(uri, Keep::Printable);
}

/// Law: URIs made of printable ASCII pass through unchanged.
pub proof fn sanitize_keeps_clean_uris(uri: Seq<u8>)
    requires
        forall|i: int| 0 <= i < uri.len() ==> 0x21 <= #[trigger] uri[i] <= 0x7e,
    ensures
        sanitized(uri) == uri,
{
    lemma_encode_kept(uri, Keep::Printable);
}

/// Law: sanitizing twice is the same as sanitizing once.
pub proof fn sanitize_is_idempotent(uri: Seq<u8>)
    ensures
        sanitized(sanitized(uri)) == sanitized(uri),
{
    lemma_encode_printable(uri, Keep::Printable);
    lemma_encode_kept(sanitized(uri), Keep::Printable);
}

} // verus!
