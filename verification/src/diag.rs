//! Span translation and diagnostic rendering. A decode failure carries a
//! span relative to a key's raw value text; its absolute position in the
//! full document is the key's line offset, plus the key's length, plus one
//! for the colon, plus the relative offset. The rendered diagnostic names
//! the failing key, includes the underlying message, and highlights the
//! absolute span against the full original text.

use vstd::prelude::*;

use crate::config::{spec_find, RawConfig};
use crate::decode::{BCFParseError, Span};

verus! {

/// `a + b`, stopping at `usize::MAX` instead of wrapping.
fn sat_add(a: usize, b: usize) -> (r: usize)
    ensures
        r == if a + b <= usize::MAX {
            a + b
        } else {
            usize::MAX as int
        },
{
    if a > usize::MAX - b {
        usize::MAX
    } else {
        a + b
    }
}

/// Absolute document position of a relative offset `rel` into the value
/// of a key of length `key_len` on the line at `line_offset`, saturating
/// at `usize::MAX`.
pub open spec fn spec_abs(line_offset: int, key_len: int, rel: int) -> int {
    let v = line_offset + key_len + 1 + rel;
    if v <= usize::MAX {
        v
    } else {
        usize::MAX as int
    }
}

/// Translate a span relative to a key's raw value into an absolute span
/// in the full document.
pub fn absolute_span(line_offset: usize, key_len: usize, rel: &Span) -> (r: Span)
    ensures
        r.start == spec_abs(line_offset as int, key_len as int, rel.start as int),
        r.end == spec_abs(line_offset as int, key_len as int, rel.end as int),
{
    let base = sat_add(sat_add(line_offset, key_len), 1);
    Span { start: sat_add(base, rel.start), end: sat_add(base, rel.end) }
}

/// What codespan_reporting's renderer writes, with its default
/// configuration, for one error diagnostic over one file: a function of
/// the file text, the failing key, the message, and the highlighted span.
pub uninterp spec fn rendered_diagnostic(
    text: Seq<u8>,
    key: Seq<u8>,
    msg: Seq<char>,
    start: int,
    end: int,
) -> Seq<u8>;

/// Relies on codespan_reporting's `term::emit_into_string`: it renders an
/// error diagnostic, with the given message and a primary label over
/// `start..end`, against the file text, into a plain string; with the
/// default `Config` the output depends on these inputs alone. Out-of-range
/// spans are reported as errors by the renderer, not panics, in which case
/// the rendering is empty.
#[verifier::external_body]
fn render_with_codespan(full: &[u8], key: &[u8], msg: &str, start: usize, end: usize) -> (r: Vec<
    u8,
>)
    requires
        start <= end,
    ensures
        r@ == rendered_diagnostic(full@, key@, msg@, start as int, end as int),
{
    let mut files = codespan_reporting::files::SimpleFiles::new();
    let fid = files.add("config", String::from_utf8_lossy(full).into_owned());
    let message = format!("{}: {}", String::from_utf8_lossy(key), msg);
    let diag = codespan_reporting::diagnostic::Diagnostic::error()
        .with_message(message.clone())
        .with_code("ERROR")
        .with_label(codespan_reporting::diagnostic::Label::primary(fid, start..end).with_message(
            message,
        ));
    let config = codespan_reporting::term::Config::default();
    match codespan_reporting::term::emit_into_string(&config, &files, &diag) {
        Ok(s) => s.into_bytes(),
        Err(_) => Vec::new(),
    }
}

/// Render a human-readable, source-pointing diagnostic for a decode
/// failure of `key`'s value: the failing key is named, the underlying
/// message included, and the absolute span highlighted against the full
/// original document, so the caret lands under the exact offending byte.
/// A key absent from the document is shown at its relative position from
/// offset zero, as if its line began the document.
pub fn render_error(conf: &RawConfig, key: &[u8], err: &BCFParseError) -> (r: Vec<u8>)
    requires
        err.span.start <= err.span.end,
    ensures
        ({
            let off = match spec_find(conf.spec_entries(), key@) {
                Some(e) => e.offset,
                None => 0,
            };
            r@ == rendered_diagnostic(
                conf.spec_full(),
                key@,
                err.error@,
                spec_abs(off, key@.len() as int, err.span.start as int),
                spec_abs(off, key@.len() as int, err.span.end as int),
            )
        }),
{
    let off = conf.key_offset(key);
    let sp = absolute_span(off, key.len(), &err.span);
    render_with_codespan(conf.full_text(), key, err.error.as_str(), sp.start, sp.end)
}

} // verus!
