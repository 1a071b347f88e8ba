//! URI construction: RFC 3986 percent-encoding, `file://` URIs with a host,
//! and the editor link schemes that carry line/column targets.
use crate::text::{
    all_ascii, all_kept, bytes_of, bytes_to_string, contains, contains_bytes, decimal,
    lemma_ascii_valid, lemma_decimal_ascii, lemma_encode_printable, lemma_replace_valid,
    percent_encode, percent_encode_bytes, push_number, push_str, push_valid, replace_all,
    replace_bytes, same, slice_bytes, str_bytes, string_bytes, Keep,
};
use vstd::prelude::*;
use vstd::utf8::*;

verus! {

/// What [`encode_path`] turns a path into.
pub open spec fn encoded_path(path: Seq<u8>) -> Seq<u8> {
    percent_encode(path, Keep::PathSafe)
}

/// The bytes of [`file_uri`].
pub open spec fn file_uri_bytes(host: Seq<u8>, abs_path: Seq<u8>) -> Seq<u8> {
    str_bytes("file://") + host + encoded_path(abs_path)
}

proof fn lemma_encoded_path_valid(path: Seq<u8>)
    ensures
        valid_utf8(encoded_path(path)),
        all_ascii(encoded_path(path)),
{
    lemma_encode_printable(path, Keep::PathSafe);
    lemma_ascii_valid(encoded_path(path));
}

fn encode_path_bytes(path: &[u8]) -> (r: Vec<u8>)
    ensures
        r@ == encoded_path(path@),
        valid_utf8(r@),
{
    let r = percent_encode_bytes(path, Keep::PathSafe);
    proof {
        lemma_encoded_path_valid(path@);
    }
    r
}

/// Percent-encode a filesystem path for use inside a URI. Keeps RFC 3986
/// unreserved characters plus `/` (path separators must survive); encodes
/// everything else byte-by-byte, including UTF-8 multibyte sequences.
pub fn encode_path(path: &str) -> (r: String)
    ensures
        string_bytes(r) == encoded_path(str_bytes(path)),
{
    bytes_to_string(encode_path_bytes(slice_bytes(path)))
}

/// Build a `file://` URI. A non-empty `host` lets terminals distinguish
/// local links from links printed over SSH (GNU `ls --hyperlink` does the
/// same); an empty host yields the plain `file:///path` form.
pub fn file_uri(host: &str, abs_path: &str) -> (r: String)
    ensures
        string_bytes(r) == file_uri_bytes(str_bytes(host), str_bytes(abs_path)),
{
    bytes_to_string(file_uri_vec(slice_bytes(host), slice_bytes(abs_path)))
}

pub(crate) fn file_uri_vec(host: &[u8], abs_path: &[u8]) -> (r: Vec<u8>)
    requires
        valid_utf8(host@),
    ensures
        r@ == file_uri_bytes(host@, abs_path@),
        valid_utf8(r@),
{
    let mut out: Vec<u8> = Vec::new();
    push_str(&mut out, "file://");
    push_valid(&mut out, host);
    let enc = encode_path_bytes(abs_path);
    push_valid(&mut out, enc.as_slice());
    proof {
        assert(out@ =~= file_uri_bytes(host@, abs_path@));
    }
    out
}

/// Law: an encoded path is printable ASCII, so embedding it in a
/// hyperlink needs no further escaping.
pub proof fn encoded_paths_need_no_sanitizing(path: Seq<u8>)
    ensures
        crate::osc8::sanitized(encoded_path(path)) == encoded_path(path),
{
    lemma_encode_printable(path, Keep::PathSafe);
    crate::text::lemma_encode_kept(encoded_path(path), Keep::Printable);
}

/// The value of a hex digit (`0-9`, `A-F`, `a-f`).
pub open spec fn hex_value(d: u8) -> int {
    if 0x30 <= d <= 0x39 {
        d - 0x30
    } else if 0x41 <= d <= 0x46 {
        d - 0x41 + 10
    } else if 0x61 <= d <= 0x66 {
        d - 0x61 + 10
    } else {
        0
    }
}

/// Percent-decoding: `%XY` stands for the byte with hex digits `X` and
/// `Y`; every other byte stands for itself.
pub open spec fn percent_decode(s: Seq<u8>) -> Seq<u8>
    decreases s.len(),
{
    if s.len() == 0 {
        Seq::empty()
    } else if s[0] == 0x25 && s.len() >= 3 {
        seq![(hex_value(s[1]) * 16 + hex_value(s[2])) as u8] + percent_decode(
            s.subrange(3, s.len() as int),
        )
    } else {
        seq![s[0]] + percent_decode(s.drop_first())
    }
}

proof fn lemma_encode_front(s: Seq<u8>, k: Keep)
    requires
        s.len() > 0,
    ensures
        percent_encode(s, k) == crate::text::encode_byte(k, s[0]) + percent_encode(
            s.drop_first(),
            k,
        ),
    decreases s.len(),
{
    if s.len() > 1 {
        let d = s.drop_last();
        let f = s.drop_first();
        lemma_encode_front(d, k);
        assert(d.drop_first() =~= f.drop_last());
        assert(f.last() == s.last());
        assert(d[0] == s[0]);
        let e0 = crate::text::encode_byte(k, s[0]);
        let el = crate::text::encode_byte(k, s.last());
        assert(percent_encode(s, k) == percent_encode(d, k) + el);
        assert(percent_encode(f, k) == percent_encode(f.drop_last(), k) + el);
        assert(percent_encode(d, k) == e0 + percent_encode(d.drop_first(), k));
        assert(percent_encode(d.drop_first(), k) == percent_encode(f.drop_last(), k));
        assert(e0 + percent_encode(f.drop_last(), k) + el =~= e0 + (percent_encode(f.drop_last(), k)
            + el));
        assert(percent_encode(s, k) == e0 + percent_encode(f, k));
    } else {
        assert(s.drop_last().len() == 0);
        assert(s.drop_first().len() == 0);
        assert(percent_encode(s.drop_first(), k) == Seq::<u8>::empty());
        assert(Seq::<u8>::empty() + crate::text::encode_byte(k, s.last())
            =~= crate::text::encode_byte(k, s[0]) + Seq::<u8>::empty());
        assert(percent_encode(s.drop_last(), k) == Seq::<u8>::empty());
        assert(percent_encode(s, k) == percent_encode(s.drop_last(), k) + crate::text::encode_byte(
            k,
            s.last(),
        ));
    }
}

/// Law: percent-decoding an encoded path gives the path back.
pub proof fn decoding_an_encoded_path_gives_it_back(path: Seq<u8>)
    ensures
        percent_decode(encoded_path(path)) == path,
    decreases path.len(),
{
    if path.len() > 0 {
        let b = path[0];
        let rest = path.drop_first();
        lemma_encode_front(path, Keep::PathSafe);
        decoding_an_encoded_path_gives_it_back(rest);
        let e = crate::text::encode_byte(Keep::PathSafe, b);
        let w = e + encoded_path(rest);
        if crate::text::keeps(Keep::PathSafe, b) {
            assert(w[0] == b);
            assert(w.drop_first() =~= encoded_path(rest));
        } else {
            assert(w[0] == 0x25);
            assert(w.subrange(3, w.len() as int) =~= encoded_path(rest));
            let hi = b / 16;
            let lo = b % 16;
            assert(hex_value(crate::text::hex_digit(hi)) == hi as int);
            assert(hex_value(crate::text::hex_digit(lo)) == lo as int);
            assert(w[1] == crate::text::hex_digit(hi));
            assert(w[2] == crate::text::hex_digit(lo));
            assert((hi as int * 16 + lo as int) as u8 == b);
        }
        assert(path =~= seq![b] + rest);
    } else {
        assert(encoded_path(path) =~= Seq::<u8>::empty());
        assert(path =~= Seq::<u8>::empty());
    }
}

/// Law: an encoded path holds only the bytes a path keeps (letters,
/// digits, `-`, `_`, `.`, `~`, `/`), `%`, and upper-case hex digits; so no
/// space, `?` or `#`.
pub proof fn encoded_path_bytes(path: Seq<u8>)
    ensures
        forall|i: int|
            0 <= i < encoded_path(path).len() ==> {
                let c = #[trigger] encoded_path(path)[i];
                crate::text::keeps(Keep::PathSafe, c) || c == 0x25 || (0x30 <= c <= 0x39) || (0x41
                    <= c <= 0x46)
            },
    decreases path.len(),
{
    if path.len() > 0 {
        let d = path.drop_last();
        encoded_path_bytes(d);
        let a = encoded_path(d);
        let e = crate::text::encode_byte(Keep::PathSafe, path.last());
        assert(encoded_path(path) == a + e);
        assert forall|i: int| 0 <= i < (a + e).len() implies {
            let c = #[trigger] (a + e)[i];
            crate::text::keeps(Keep::PathSafe, c) || c == 0x25 || (0x30 <= c <= 0x39) || (0x41 <= c
                <= 0x46)
        } by {
            if i < a.len() {
                assert((a + e)[i] == a[i]);
            } else {
                assert((a + e)[i] == e[i - a.len()]);
            }
        }
    }
}

/// Where a clicked file link should open.
#[derive(Debug, Clone, PartialEq, Eq)]
pub enum Editor {
    /// `vscode://file/path:line:col`, also used by compatible forks via the
    /// scheme stored alongside (`vscode`, `vscode-insiders`, `cursor`).
    CodeFamily(&'static str),
    /// `zed://file/path:line:col`
    Zed,
    /// `idea://open?file=path&line=n&column=n` (JetBrains IDEs)
    Idea,
    /// `subl://open?url=file://path&line=n&column=n`
    Sublime,
    /// `txmt://open?url=file://path&line=n&column=n`
    TextMate,
    /// User template with `{path}`, `{line}`, `{col}` placeholders.
    Custom(String),
}

/// The message for an `--editor` value that is neither a preset nor a
/// template.
pub open spec fn unknown_editor_message(arg: Seq<u8>) -> Seq<u8> {
    str_bytes("unknown editor '") + arg + str_bytes(
        "' (presets: vscode, vscode-insiders, cursor, zed, idea, subl, txmt; or a template containing {path})",
    )
}

/// `arg` names one of the presets.
pub open spec fn is_preset(arg: Seq<u8>) -> bool {
    ||| arg == str_bytes("vscode")
    ||| arg == str_bytes("vscode-insiders")
    ||| arg == str_bytes("cursor")
    ||| arg == str_bytes("zed")
    ||| arg == str_bytes("idea")
    ||| arg == str_bytes("jetbrains")
    ||| arg == str_bytes("subl")
    ||| arg == str_bytes("sublime")
    ||| arg == str_bytes("txmt")
    ||| arg == str_bytes("textmate")
}

/// What `--editor arg` selects: `Ok(e)` holds exactly when `e` is the
/// editor `arg` names.
pub open spec fn editor_matches(arg: Seq<u8>, e: Editor) -> bool {
    if arg == str_bytes("vscode") {
        e matches Editor::CodeFamily(s) && str_bytes(s) == str_bytes("vscode")
    } else if arg == str_bytes("vscode-insiders") {
        e matches Editor::CodeFamily(s) && str_bytes(s) == str_bytes("vscode-insiders")
    } else if arg == str_bytes("cursor") {
        e matches Editor::CodeFamily(s) && str_bytes(s) == str_bytes("cursor")
    } else if arg == str_bytes("zed") {
        e is Zed
    } else if arg == str_bytes("idea") || arg == str_bytes("jetbrains") {
        e is Idea
    } else if arg == str_bytes("subl") || arg == str_bytes("sublime") {
        e is Sublime
    } else if arg == str_bytes("txmt") || arg == str_bytes("textmate") {
        e is TextMate
    } else {
        e matches Editor::Custom(t) && string_bytes(t) == arg
    }
}

/// `:12` / `&line=12`, then the column only when a line is present.
pub open spec fn location_suffix(
    line_sep: Seq<u8>,
    col_sep: Seq<u8>,
    line: Option<u32>,
    col: Option<u32>,
) -> Seq<u8> {
    match line {
        None => Seq::empty(),
        Some(l) => line_sep + decimal(l as nat) + match col {
            None => Seq::empty(),
            Some(c) => col_sep + decimal(c as nat),
        },
    }
}

/// The number a template placeholder stands for (missing values are 1).
pub open spec fn placeholder_value(v: Option<u32>) -> nat {
    match v {
        Some(n) => n as nat,
        None => 1,
    }
}

/// The link target an editor builds for an absolute path and location.
pub open spec fn editor_href(e: Editor, abs_path: Seq<u8>, line: Option<u32>, col: Option<u32>) -> Seq<u8> {
    let enc = encoded_path(abs_path);
    match e {
        Editor::CodeFamily(scheme) => str_bytes(scheme) + str_bytes("://file") + enc
            + location_suffix(str_bytes(":"), str_bytes(":"), line, col),
        Editor::Zed => str_bytes("zed://file") + enc + location_suffix(
            str_bytes(":"),
            str_bytes(":"),
            line,
            col,
        ),
        Editor::Idea => str_bytes("idea://open?file=") + enc + location_suffix(
            str_bytes("&line="),
            str_bytes("&column="),
            line,
            col,
        ),
        Editor::Sublime => str_bytes("subl://open?url=file://") + enc + location_suffix(
            str_bytes("&line="),
            str_bytes("&column="),
            line,
            col,
        ),
        Editor::TextMate => str_bytes("txmt://open?url=file://") + enc + location_suffix(
            str_bytes("&line="),
            str_bytes("&column="),
            line,
            col,
        ),
        Editor::Custom(tpl) => replace_all(
            replace_all(
                replace_all(string_bytes(tpl), str_bytes("{path}"), enc),
                str_bytes("{line}"),
                decimal(placeholder_value(line)),
            ),
            str_bytes("{col}"),
            decimal(placeholder_value(col)),
        ),
    }
}


/// The start of a preset editor's link, before any location.
pub open spec fn preset_base(e: Editor, enc: Seq<u8>) -> Seq<u8> {
    match e {
        Editor::CodeFamily(scheme) => str_bytes(scheme) + str_bytes("://file") + enc,
        Editor::Zed => str_bytes("zed://file") + enc,
        Editor::Idea => str_bytes("idea://open?file=") + enc,
        Editor::Sublime => str_bytes("subl://open?url=file://") + enc,
        Editor::TextMate => str_bytes("txmt://open?url=file://") + enc,
        Editor::Custom(_) => Seq::empty(),
    }
}

/// What a preset editor's link puts before the line number.
pub open spec fn preset_line_sep(e: Editor) -> Seq<u8> {
    if e is CodeFamily || e is Zed {
        str_bytes(":")
    } else {
        str_bytes("&line=")
    }
}

/// What a preset editor's link puts before the column number.
pub open spec fn preset_col_sep(e: Editor) -> Seq<u8> {
    if e is CodeFamily || e is Zed {
        str_bytes(":")
    } else {
        str_bytes("&column=")
    }
}

/// Law: a preset editor's link is its base for the encoded path, then
/// the line number (whenever there is one, with or without a column),
/// then the column (only after a line).
pub proof fn preset_links_carry_the_line(e: Editor, abs_path: Seq<u8>, l: u32, c: u32)
    requires
        !(e is Custom),
    ensures
        editor_href(e, abs_path, None, None) == preset_base(e, encoded_path(abs_path)),
        editor_href(e, abs_path, None, Some(c)) == preset_base(e, encoded_path(abs_path)),
        editor_href(e, abs_path, Some(l), None) == preset_base(e, encoded_path(abs_path))
            + preset_line_sep(e) + decimal(l as nat),
        editor_href(e, abs_path, Some(l), Some(c)) == preset_base(e, encoded_path(abs_path))
            + preset_line_sep(e) + decimal(l as nat) + preset_col_sep(e) + decimal(c as nat),
{
    let enc = encoded_path(abs_path);
    let b = preset_base(e, enc);
    let ls = preset_line_sep(e);
    let cs = preset_col_sep(e);
    assert(b + Seq::<u8>::empty() =~= b);
    assert(b + (ls + decimal(l as nat) + Seq::<u8>::empty()) =~= b + ls + decimal(l as nat));
    assert(b + (ls + decimal(l as nat) + (cs + decimal(c as nat))) =~= b + ls + decimal(l as nat)
        + cs + decimal(c as nat));
}

/// Law: a custom template's link is the template with `{path}` replaced by
/// the encoded path, then `{line}` and `{col}` by their numbers, 1 standing
/// in for a missing one.
pub proof fn custom_links_fill_the_template(t: String, abs_path: Seq<u8>, line: Option<u32>, col: Option<u32>)
    ensures
        editor_href(Editor::Custom(t), abs_path, line, col) == replace_all(
            replace_all(
                replace_all(string_bytes(t), str_bytes("{path}"), encoded_path(abs_path)),
                str_bytes("{line}"),
                decimal(
                    match line {
                        Some(l) => l as nat,
                        None => 1nat,
                    },
                ),
            ),
            str_bytes("{col}"),
            decimal(
                match col {
                    Some(c) => c as nat,
                    None => 1nat,
                },
            ),
        ),
{
}

fn push_location(
    out: &mut Vec<u8>,
    line_sep: &str,
    col_sep: &str,
    line: Option<u32>,
    col: Option<u32>,
)
    ensures
        final(out)@ == old(out)@ + location_suffix(
            str_bytes(line_sep),
            str_bytes(col_sep),
            line,
            col,
        ),
        valid_utf8(old(out)@) ==> valid_utf8(final(out)@),
{
    if let Some(l) = line {
        push_str(out, line_sep);
        push_number(out, l as u64);
        if let Some(c) = col {
            push_str(out, col_sep);
            push_number(out, c as u64);
        }
    }
    proof {
        assert(final(out)@ =~= old(out)@ + location_suffix(
            str_bytes(line_sep),
            str_bytes(col_sep),
            line,
            col,
        ));
    }
}

fn number_bytes(n: u32) -> (r: Vec<u8>)
    ensures
        r@ == decimal(n as nat),
        valid_utf8(r@),
{
    let mut out: Vec<u8> = Vec::new();
    push_number(&mut out, n as u64);
    proof {
        assert(out@ =~= decimal(n as nat));
    }
    out
}

proof fn lemma_literal_ascii(s: &str)
    requires
        vstd::string::is_ascii(s),
    ensures
        all_ascii(str_bytes(s)),
{
    is_ascii_chars_encode_utf8(s@);
    assert forall|i: int| 0 <= i < str_bytes(s).len() implies #[trigger] str_bytes(s)[i] < 0x80 by {
        assert(s@[i] as u8 == str_bytes(s)[i]);
    }
}

impl Editor {
    /// Parse the `--editor` argument: a known preset name, or a custom
    /// template containing `{path}`.
    pub fn from_arg(arg: &str) -> (r: Result<Editor, String>)
        ensures
            match r {
                Ok(e) => (is_preset(str_bytes(arg)) || contains(str_bytes(arg), str_bytes("{path}")))
                    && editor_matches(str_bytes(arg), e),
                Err(m) => !is_preset(str_bytes(arg)) && !contains(
                    str_bytes(arg),
                    str_bytes("{path}"),
                ) && string_bytes(m) == unknown_editor_message(str_bytes(arg)),
            },
    {
        let a = slice_bytes(arg);
        if same(a, "vscode") {
            Ok(Editor::CodeFamily("vscode"))
        } else if same(a, "vscode-insiders") {
            Ok(Editor::CodeFamily("vscode-insiders"))
        } else if same(a, "cursor") {
            Ok(Editor::CodeFamily("cursor"))
        } else if same(a, "zed") {
            Ok(Editor::Zed)
        } else if same(a, "idea") || same(a, "jetbrains") {
            Ok(Editor::Idea)
        } else if same(a, "subl") || same(a, "sublime") {
            Ok(Editor::Sublime)
        } else if same(a, "txmt") || same(a, "textmate") {
            Ok(Editor::TextMate)
        } else if contains_bytes(a, slice_bytes("{path}")) {
            Ok(Editor::Custom(bytes_to_string(crate::text::copy_bytes(a))))
        } else {
            let mut out: Vec<u8> = Vec::new();
            proof {
                lemma_ascii_valid(out@);
            }
            push_str(&mut out, "unknown editor '");
            push_valid(&mut out, a);
            push_str(
                &mut out,
                "' (presets: vscode, vscode-insiders, cursor, zed, idea, subl, txmt; or a template containing {path})",
            );
            Err(bytes_to_string(out))
        }
    }

    /// Build the link target for an absolute path plus optional line/column.
    pub fn href(&self, abs_path: &str, line: Option<u32>, col: Option<u32>) -> (r: String)
        ensures
            string_bytes(r) == editor_href(*self, str_bytes(abs_path), line, col),
    {
        bytes_to_string(self.href_bytes(slice_bytes(abs_path), line, col))
    }

    pub(crate) fn href_bytes(&self, abs_path: &[u8], line: Option<u32>, col: Option<u32>) -> (r:
        Vec<u8>)
        ensures
            r@ == editor_href(*self, abs_path@, line, col),
            valid_utf8(r@),
    {
        let enc = encode_path_bytes(abs_path);
        let mut out: Vec<u8> = Vec::new();
        proof {
            lemma_ascii_valid(out@);
        }
        match self {
            Editor::CodeFamily(scheme) => {
                push_str(&mut out, scheme);
                push_str(&mut out, "://file");
                push_valid(&mut out, enc.as_slice());
                push_location(&mut out, ":", ":", line, col);
            },
            Editor::Zed => {
                push_str(&mut out, "zed://file");
                push_valid(&mut out, enc.as_slice());
                push_location(&mut out, ":", ":", line, col);
            },
            Editor::Idea => {
                push_str(&mut out, "idea://open?file=");
                push_valid(&mut out, enc.as_slice());
                push_location(&mut out, "&line=", "&column=", line, col);
            },
            Editor::Sublime => {
                push_str(&mut out, "subl://open?url=file://");
                push_valid(&mut out, enc.as_slice());
                push_location(&mut out, "&line=", "&column=", line, col);
            },
            Editor::TextMate => {
                push_str(&mut out, "txmt://open?url=file://");
                push_valid(&mut out, enc.as_slice());
                push_location(&mut out, "&line=", "&column=", line, col);
            },
            Editor::Custom(tpl) => {
                let t = bytes_of(tpl);
                let p1 = slice_bytes("{path}");
                let p2 = slice_bytes("{line}");
                let p3 = slice_bytes("{col}");
                proof {
                    reveal_strlit("{path}");
                    reveal_strlit("{line}");
                    reveal_strlit("{col}");
                    lemma_literal_ascii("{path}");
                    lemma_literal_ascii("{line}");
                    lemma_literal_ascii("{col}");
                }
                let lv = match line {
                    Some(l) => l,
                    None => 1,
                };
                let cv = match col {
                    Some(c) => c,
                    None => 1,
                };
                let ln = number_bytes(lv);
                let cn = number_bytes(cv);
                let s1 = replace_bytes(t, p1, enc.as_slice());
                proof {
                    lemma_replace_valid(t@, p1@, enc@);
                }
                let s2 = replace_bytes(s1.as_slice(), p2, ln.as_slice());
                proof {
                    lemma_replace_valid(s1@, p2@, ln@);
                }
                let s3 = replace_bytes(s2.as_slice(), p3, cn.as_slice());
                proof {
                    lemma_replace_valid(s2@, p3@, cn@);
                }
                return s3;
            },
        }
        proof {
            assert(out@ =~= editor_href(*self, abs_path@, line, col));
        }
        out
    }
}

} // verus!
