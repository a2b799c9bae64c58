//! The parse-and-match engine boundary: trusted declarations of the external
//! capability, and the verified per-file pipeline around it.

use crate::language::Language;
use crate::records::{
    CaptureEvent, MatchRecord, Position, any_visible, count_undecodable, events_to_records,
    has_visible_event, hidden_slot, lemma_visible_models_hidden_filter,
    lemma_visible_models_span_ordered, pos_le, span_ordered, undecodable_count, views_of,
    visible_models,
};
use crate::text::{decode_utf8_bytes, normalize_path, normalized_spec};
use streaming_iterator::StreamingIterator;
use tree_sitter::Language as TsLanguage;
use vstd::prelude::*;

verus! {

/// The engine's compiled pattern object, opaque to verification.
#[verifier::external_type_specification]
#[verifier::external_body]
pub struct ExQuery(tree_sitter::Query);

/// The engine's pattern-compilation error, opaque to verification.
#[verifier::external_type_specification]
#[verifier::external_body]
pub struct ExQueryError(tree_sitter::QueryError);

/// The engine's parser instance, opaque to verification.
#[verifier::external_type_specification]
#[verifier::external_body]
pub struct ExParser(tree_sitter::Parser);

/// The engine's syntax tree, opaque to verification.
#[verifier::external_type_specification]
#[verifier::external_body]
pub struct ExTree(tree_sitter::Tree);

/// The engine's grammar-mismatch error, opaque to verification.
#[verifier::external_type_specification]
#[verifier::external_body]
pub struct ExLanguageError(tree_sitter::LanguageError);

/// Whether the engine compiles a pattern source against a language's
/// grammar: a function of the language and the characters alone.
pub uninterp spec fn pattern_ok_of(language: Language, source: Seq<char>) -> bool;

/// The compiled pattern's capture-slot names, in declaration order: a
/// function of the language and the characters alone.
pub uninterp spec fn pattern_names_of(language: Language, source: Seq<char>) -> Seq<Seq<char>>;

/// Relies on `tree_sitter::Query::new` and `Query::capture_names`: whether a
/// pattern compiles, and which capture-slot names it declares in which
/// order, depend only on the grammar (fixed per language) and the pattern
/// source.
#[verifier::external_body]
fn query_compile(language: Language, source: &str) -> (r: Result<
    (tree_sitter::Query, Vec<String>),
    tree_sitter::QueryError,
>)
    ensures
        r is Ok <==> pattern_ok_of(language, source@),
        r matches Ok(p) ==> p.1.deep_view() == pattern_names_of(language, source@),
{
    match tree_sitter::Query::new(&language.ts_lang(), source) {
        Ok(q) => {
            let names = q.capture_names().iter().map(|n| (*n).to_string()).collect();
            Ok((q, names))
        }
        Err(e) => Err(e),
    }
}

/// Relies on the `Display` impl of `tree_sitter::QueryError` for the
/// human-readable diagnostic.
#[verifier::external_body]
fn query_error_text(e: &tree_sitter::QueryError) -> String {
    format!("{e}")
}

/// Relies on `tree_sitter::Parser::new`.
#[verifier::external_body]
fn parser_new() -> tree_sitter::Parser {
    tree_sitter::Parser::new()
}

/// Relies on `tree_sitter::Parser::set_language`: `Err` when the grammar was
/// built against an incompatible engine version.
#[verifier::external_body]
fn parser_set_language(p: &mut tree_sitter::Parser, lang: &TsLanguage) -> Result<
    (),
    tree_sitter::LanguageError,
> {
    p.set_language(lang)
}

/// Relies on `tree_sitter::Parser::parse`: `None` on a hard parse failure
/// (no grammar set, or the parse was halted), otherwise the syntax tree.
#[verifier::external_body]
fn parser_parse(p: &mut tree_sitter::Parser, src: &[u8]) -> Option<tree_sitter::Tree> {
    p.parse(src, None)
}

/// Relies on `tree_sitter::QueryCursor::captures` and the match objects it
/// streams out (driven through `StreamingIterator::next`): the pattern's
/// capture events over the tree, in the engine's natural order, each
/// converted to plain values — slot index, node positions and byte span.
/// A node's span is ordered: its start does not exceed its end, in bytes
/// and in (row, column).
#[verifier::external_body]
fn collect_capture_events(
    q: &tree_sitter::Query,
    tree: &tree_sitter::Tree,
    src: &[u8],
) -> (r: Vec<CaptureEvent>)
    ensures
        forall|i: int|
            0 <= i < r@.len() ==> (#[trigger] r@[i]).byte_start <= r@[i].byte_end && pos_le(
                r@[i].start,
                r@[i].end,
            ),
{
    let mut cursor = tree_sitter::QueryCursor::new();
    let mut it = cursor.captures(q, tree.root_node(), src);
    let mut events = Vec::new();
    while let Some(&(ref m, ci)) = it.next() {
        let c = m.captures()[ci];
        let (s, e) = (c.node.start_position(), c.node.end_position());
        events.push(CaptureEvent {
            slot: c.index as usize,
            start: Position { row: s.row, column: s.column },
            end: Position { row: e.row, column: e.column },
            byte_start: c.node.start_byte(),
            byte_end: c.node.end_byte(),
        });
    }
    events
}

/// A compiled pattern with its capture-slot names, shared read-only by every
/// file worker of a run.
pub struct CompiledPattern {
    pub query: tree_sitter::Query,
    pub names: Vec<String>,
}

/// Compiles the pattern source against a language's grammar: `Ok` exactly
/// when the pattern is well-formed for that grammar, carrying the compiled
/// pattern and its capture-slot names in declaration order; `Err` carries
/// the engine's diagnostic for an ill-formed pattern.
pub fn compile_pattern(language: Language, source: &str) -> (r: Result<CompiledPattern, String>)
    ensures
        r is Ok <==> pattern_ok_of(language, source@),
        r matches Ok(p) ==> p.names.deep_view() == pattern_names_of(language, source@),
{
    match query_compile(language, source) {
        Ok((query, names)) => Ok(CompiledPattern { query, names }),
        Err(e) => Err(query_error_text(&e)),
    }
}

/// How processing one file ended.
#[derive(Clone, Copy, Debug, PartialEq, Eq, Structural)]
pub enum FileStatus {
    /// The file was parsed and the pattern evaluated.
    Processed,
    /// The file is not valid UTF-8 text: skipped silently, not an error.
    SkippedNonUtf8,
    /// The engine could not parse the file at all: a per-file error.
    ParseFailed,
}

/// The outcome of processing one file: its reported name, the records it
/// contributed, whether it matched at all (in list mode), and how many
/// visible captures covered a span that did not decode as UTF-8 (each a
/// non-fatal per-node error).
pub struct FileReport {
    pub status: FileStatus,
    pub file: String,
    pub records: Vec<MatchRecord>,
    pub matched: bool,
    pub bad_spans: usize,
}

/// Runs the compiled pattern over one file's bytes: validates UTF-8, parses,
/// collects the engine's capture events, and converts them to records — or,
/// in list mode, only notes whether a visible capture exists.
pub fn process_file(
    pattern: &CompiledPattern,
    language: Language,
    path: &str,
    src: &[u8],
    include_hidden: bool,
    list_mode: bool,
) -> (r: FileReport)
    ensures
        r.file@ == normalized_spec(path@),
        r.status is SkippedNonUtf8 <==> !vstd::utf8::valid_utf8(src@),
        !(r.status is Processed) ==> r.records@ == Seq::<MatchRecord>::empty() && !r.matched
            && r.bad_spans == 0,
        list_mode ==> r.records@ == Seq::<MatchRecord>::empty() && r.bad_spans == 0,
        !list_mode ==> !r.matched,
        r.status is Processed && !list_mode ==> exists|ev: Seq<CaptureEvent>|
            views_of(r.records@) == visible_models(
                ev,
                pattern.names.deep_view(),
                include_hidden,
                src@,
                normalized_spec(path@),
            ) && r.bad_spans == undecodable_count(
                ev,
                pattern.names.deep_view(),
                include_hidden,
                src@,
            ),
        r.status is Processed && list_mode ==> exists|ev: Seq<CaptureEvent>|
            r.matched == any_visible(ev, pattern.names.deep_view(), include_hidden),
        !include_hidden ==> forall|i: int|
            0 <= i < r.records@.len() ==> !hidden_slot(#[trigger] r.records@[i]@.capture),
        forall|i: int| 0 <= i < r.records@.len() ==> span_ordered(#[trigger] r.records@[i]@),
{
    let file = normalize_path(path);
    if decode_utf8_bytes(src).is_none() {
        return FileReport {
            status: FileStatus::SkippedNonUtf8,
            file,
            records: Vec::new(),
            matched: false,
            bad_spans: 0,
        };
    }
    let mut parser = parser_new();
    if parser_set_language(&mut parser, &language.ts_lang()).is_err() {
        return FileReport {
            status: FileStatus::ParseFailed,
            file,
            records: Vec::new(),
            matched: false,
            bad_spans: 0,
        };
    }
    match parser_parse(&mut parser, src) {
        None => FileReport {
            status: FileStatus::ParseFailed,
            file,
            records: Vec::new(),
            matched: false,
            bad_spans: 0,
        },
        Some(tree) => {
            let events = collect_capture_events(&pattern.query, &tree, src);
            if list_mode {
                let matched = has_visible_event(&events, &pattern.names, include_hidden);
                FileReport {
                    status: FileStatus::Processed,
                    file,
                    records: Vec::new(),
                    matched,
                    bad_spans: 0,
                }
            } else {
                let records = events_to_records(
                    &file,
                    src,
                    &events,
                    &pattern.names,
                    include_hidden,
                );
                let bad_spans = count_undecodable(&events, &pattern.names, include_hidden, src);
                proof {
                    lemma_visible_models_hidden_filter(
                        events@,
                        pattern.names.deep_view(),
                        include_hidden,
                        src@,
                        file@,
                    );
                    lemma_visible_models_span_ordered(
                        events@,
                        pattern.names.deep_view(),
                        include_hidden,
                        src@,
                        file@,
                    );
                    if !include_hidden {
                        assert forall|i: int| 0 <= i < records@.len() implies !hidden_slot(
                            records@[i]@.capture,
                        ) by {
                            assert(views_of(records@)[i] == records@[i]@);
                        }
                    }
                    assert forall|i: int| 0 <= i < records@.len() implies span_ordered(
                        records@[i]@,
                    ) by {
                        assert(views_of(records@)[i] == records@[i]@);
                    }
                }
                FileReport { status: FileStatus::Processed, file, records, matched: false, bad_spans }
            }
        },
    }
}

} // verus!
