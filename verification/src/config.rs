//! Run configuration: pattern-source selection, the match separator's escape
//! sequences, and the empty-pattern short circuit.

use crate::records::OutputMode;
use vstd::prelude::*;

verus! {

/// Where the pattern text comes from, or why the configuration is rejected:
/// exactly one of the inline pattern and the pattern file must be given.
#[derive(Clone, Copy, Debug, PartialEq, Eq, Structural)]
pub enum QuerySourceRule {
    UseInline,
    UseFile,
    ErrNeither,
    ErrBoth,
}

/// Decides the pattern source from which of the two options were supplied.
pub fn choose_query_source(has_inline: bool, has_file: bool) -> (r: QuerySourceRule)
    ensures
        r is UseInline <==> has_inline && !has_file,
        r is UseFile <==> !has_inline && has_file,
        r is ErrNeither <==> !has_inline && !has_file,
        r is ErrBoth <==> has_inline && has_file,
{
    if has_inline && has_file {
        QuerySourceRule::ErrBoth
    } else if has_inline {
        QuerySourceRule::UseInline
    } else if has_file {
        QuerySourceRule::UseFile
    } else {
        QuerySourceRule::ErrNeither
    }
}

/// The well-formed "no matches" output for an empty pattern: the run ends
/// successfully with `[]` in records mode and nothing otherwise.
pub fn empty_query_output(mode: OutputMode) -> (r: String)
    ensures
        mode is Records ==> r@ == "[]"@,
        !(mode is Records) ==> r@ == Seq::<char>::empty(),
{
    match mode {
        OutputMode::Records => String::from_str("[]"),
        OutputMode::TextOnly => String::new(),
        OutputMode::ListOnly => String::new(),
    }
}

/// The separator's escape-sequence error type, opaque to verification.
#[verifier::external_type_specification]
#[verifier::external_body]
pub struct ExUnescaperError(unescaper::Error);

/// What `unescaper::unescape` yields: a function of the characters alone.
pub uninterp spec fn unescaped_of(s: Seq<char>) -> Option<Seq<char>>;

/// Relies on `unescaper::unescape`: it rewrites backslash escape sequences,
/// fails exactly on a malformed escape, and its result depends on the input
/// characters alone.
#[verifier::external_body]
fn unescape_call(s: &str) -> (r: Result<String, unescaper::Error>)
    ensures
        r is Ok <==> unescaped_of(s@) is Some,
        r matches Ok(t) ==> Some(t@) == unescaped_of(s@),
{
    unescaper::unescape(s)
}

/// Relies on the `Display` impl of `unescaper::Error` for the human-readable
/// diagnostic.
#[verifier::external_body]
fn unescape_error_text(e: &unescaper::Error) -> String {
    format!("{e}")
}

/// Rewrites the separator's escape sequences (`\n`, `\t`, ...); `Err` holds
/// the diagnostic for a malformed escape.
pub fn unescape_separator(s: &str) -> (r: Result<String, String>)
    ensures
        r is Ok <==> unescaped_of(s@) is Some,
        r matches Ok(t) ==> Some(t@) == unescaped_of(s@),
{
    match unescape_call(s) {
        Ok(t) => Ok(t),
        Err(e) => Err(unescape_error_text(&e)),
    }
}

} // verus!
