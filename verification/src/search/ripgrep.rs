//! What a ripgrep run reports: the decoding of the text and path fields of its JSON
//! events, the hits built from match events, and the errors for a failed run.
//!
//! Starting ripgrep and reading its JSON stream is left to the caller.
use vstd::prelude::*;

use base64::Engine;

use crate::search::GrepHit;
use crate::text::{opt_text, push_str, trim};
use crate::{other, ZgError};

verus! {

/// The bytes that a text decodes to under standard base64, or `None` when it is not valid
/// standard base64.
pub uninterp spec fn base64_decoded(text: Seq<char>) -> Option<Seq<u8>>;

/// `Engine::decode` of `base64`'s `STANDARD` engine: it succeeds exactly when the text is
/// valid standard base64, with the bytes named by `base64_decoded`. The text of its error is
/// the crate's `DecodeError` message and is not stated.
#[verifier::external_body]
fn base64_decode(text: &str) -> (r: Result<Vec<u8>, String>)
    ensures
        match r {
            Ok(bytes) => base64_decoded(text@) == Some(bytes@),
            Err(_) => base64_decoded(text@) is None,
        },
{
    match base64::engine::general_purpose::STANDARD.decode(text) {
        Ok(bytes) => Ok(bytes),
        Err(error) => Err(error.to_string()),
    }
}

/// The text `String::from_utf8_lossy` makes of bytes.
pub uninterp spec fn utf8_lossy(bytes: Seq<u8>) -> Seq<char>;

/// `String::from_utf8_lossy`: well-formed UTF-8 reads as what it encodes; malformed
/// sequences become U+FFFD, which is not stated further.
#[verifier::external_body]
fn lossy_text(bytes: &[u8]) -> (r: String)
    ensures
        r@ == utf8_lossy(bytes@),
        vstd::utf8::valid_utf8(bytes@) ==> r@ == vstd::utf8::decode_utf8(bytes@),
{
    String::from_utf8_lossy(bytes).into_owned()
}

/// The text of a JSON text field that ripgrep writes either as `text` or, when it is not
/// UTF-8, as base64 `bytes`: the plain text, else the decoded bytes read lossily, else empty.
pub open spec fn rg_field_text(text: Option<Seq<char>>, bytes: Option<Seq<char>>) -> Seq<char> {
    match text {
        Some(t) => t,
        None => match bytes {
            Some(b) => match base64_decoded(b) {
                Some(raw) => utf8_lossy(raw),
                None => Seq::empty(),
            },
            None => Seq::empty(),
        },
    }
}

/// Decodes the text of a JSON text field of a ripgrep event.
pub fn decode_rg_text(text: Option<String>, bytes: Option<String>) -> (r: String)
    ensures
        r@ == rg_field_text(opt_text(text), opt_text(bytes)),
{
    match text {
        Some(t) => t,
        None => match bytes {
            Some(b) => match base64_decode(b.as_str()) {
                Ok(raw) => lossy_text(raw.as_slice()),
                Err(_) => String::new(),
            },
            None => String::new(),
        },
    }
}

/// The path of a ripgrep event: its text, or its raw bytes when ripgrep had to encode them.
#[derive(Debug)]
pub enum RgPath {
    Text(String),
    Bytes(Vec<u8>),
}

/// The error for an event that names no path.
pub open spec fn missing_path_text() -> Seq<char> {
    "ripgrep JSON event missing path"@
}

/// Decodes the path field of a ripgrep event: its text when given, else its base64 bytes;
/// an event with neither, or with bytes that are not base64, is an error.
pub fn decode_rg_path(text: Option<String>, bytes: Option<String>) -> (r: Result<RgPath, ZgError>)
    ensures
        text matches Some(t) ==> (r matches Ok(RgPath::Text(p)) && p@ == t@),
        text is None && bytes is None ==> (r matches Err(e) && e.message@ == missing_path_text()),
        text is None && bytes is Some ==> match base64_decoded(bytes->Some_0@) {
            Some(raw) => (r matches Ok(RgPath::Bytes(v)) && v@ == raw),
            None => r is Err,
        },
{
    match text {
        Some(t) => Ok(RgPath::Text(t)),
        None => match bytes {
            Some(b) => match base64_decode(b.as_str()) {
                Ok(raw) => Ok(RgPath::Bytes(raw)),
                Err(message) => Err(other(message)),
            },
            None => Err(other("ripgrep JSON event missing path".to_owned())),
        },
    }
}

/// A line without its trailing newlines.
pub open spec fn without_trailing_newlines(s: Seq<char>) -> Seq<char>
    decreases s.len(),
{
    if s.len() > 0 && s.last() == '\n' {
        without_trailing_newlines(s.drop_last())
    } else {
        s
    }
}

/// The hit of a ripgrep match event: the line loses its trailing newlines, and a missing
/// line number reads as line 1.
pub fn rg_match_hit(path: String, text: String, line_number: Option<usize>) -> (r: GrepHit)
    ensures
        r.path@ == path@,
        r.line@ == without_trailing_newlines(text@),
        r.line_number == match line_number {
            Some(n) => n,
            None => 1,
        },
{
    let chars = crate::text::chars_of(text.as_str());
    let mut end: usize = chars.len();
    assert(chars@.take(chars@.len() as int) =~= chars@);
    while end > 0 && chars[end - 1] == '\n'
        invariant
            end <= chars@.len(),
            without_trailing_newlines(text@) == without_trailing_newlines(chars@.take(end as int)),
        decreases end,
    {
        assert(chars@.take(end as int).drop_last() =~= chars@.take(end - 1));
        end = end - 1;
    }
    let line = crate::text::string_of(&chars.as_slice()[0..end]);
    assert(chars@.subrange(0, end as int) =~= chars@.take(end as int));
    let line_number = match line_number {
        Some(n) => n,
        None => 1,
    };
    GrepHit { path, line_number, line }
}

/// The error for a ripgrep run that exited with a status other than 0 (matches) or 1 (none).
pub open spec fn rg_failed_text(status: Seq<char>, stderr: Seq<char>) -> Seq<char> {
    "ripgrep search failed with status "@ + status + ": "@ + trim(stderr)
}

/// Builds the error for a failed ripgrep run, from its exit status and error output.
pub fn rg_search_failed(status: &str, stderr: &str) -> (r: ZgError)
    ensures
        r.message@ == rg_failed_text(status@, stderr@),
{
    let mut s = String::new();
    push_str(&mut s, "ripgrep search failed with status ");
    push_str(&mut s, status);
    push_str(&mut s, ": ");
    let chars = crate::text::chars_of(stderr);
    let trimmed = crate::text::trim_chars(chars.as_slice());
    crate::text::push_chars(&mut s, trimmed.as_slice());
    other(s)
}

/// What the error for an unusable ripgrep binary advises.
pub open spec fn rg_install_advice() -> Seq<char> {
    "; install ripgrep, set ZG_RG_BIN, or bundle `rg` next to `zg` / under `../libexec/rg`"@
}

/// The error for a ripgrep binary whose `--version` check exited unsuccessfully.
pub fn rg_exit_error(candidate: &str, source: &str, status: &str) -> (r: ZgError)
    ensures
        r.message@ == "ripgrep runtime dependency is unavailable: `"@ + candidate@ + "` from "@
            + source@ + " exited with status "@ + status@ + rg_install_advice(),
{
    let mut s = String::new();
    push_str(&mut s, "ripgrep runtime dependency is unavailable: `");
    push_str(&mut s, candidate);
    push_str(&mut s, "` from ");
    push_str(&mut s, source);
    push_str(&mut s, " exited with status ");
    push_str(&mut s, status);
    push_str(
        &mut s,
        "; install ripgrep, set ZG_RG_BIN, or bundle `rg` next to `zg` / under `../libexec/rg`",
    );
    other(s)
}

/// The error for a ripgrep binary that could not be started.
pub fn rg_launch_error(candidate: &str, source: &str, error: &str) -> (r: ZgError)
    ensures
        r.message@ == "ripgrep runtime dependency is unavailable: failed to execute `"@
            + candidate@ + "` from "@ + source@ + ": "@ + error@ + rg_install_advice(),
{
    let mut s = String::new();
    push_str(&mut s, "ripgrep runtime dependency is unavailable: failed to execute `");
    push_str(&mut s, candidate);
    push_str(&mut s, "` from ");
    push_str(&mut s, source);
    push_str(&mut s, ": ");
    push_str(&mut s, error);
    push_str(
        &mut s,
        "; install ripgrep, set ZG_RG_BIN, or bundle `rg` next to `zg` / under `../libexec/rg`",
    );
    other(s)
}

} // verus!
