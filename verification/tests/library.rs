use tsgrep::aggregate::Aggregator;
use tsgrep::config::{QuerySourceRule, choose_query_source, empty_query_output, unescape_separator};
use tsgrep::language::Language;
use tsgrep::records::{
    CaptureEvent, MatchRecord, OutputMode, Position, count_undecodable, events_to_records,
    is_hidden_slot,
};
use tsgrep::sorting::{dedup_path_vec, sort_path_vec};
use tsgrep::text::normalize_path;

fn rec(file: &str, srow: usize, scol: usize, erow: usize, ecol: usize, capture: &str, text: &str) -> MatchRecord {
    MatchRecord {
        file: file.to_string(),
        start: Position { row: srow, column: scol },
        end: Position { row: erow, column: ecol },
        capture: capture.to_string(),
        text: text.to_string(),
    }
}

#[test]
fn language_names() {
    assert_eq!(Language::Rust.name(), "rust");
    assert_eq!(Language::Go.name(), "go");
    assert_eq!(Language::JS.name(), "js");
    assert_eq!(Language::TS.name(), "ts");
    assert_eq!(Language::TSX.name(), "ts");
    assert_eq!(Language::PHP.name(), "php");
    assert_eq!(Language::PHPOnly.name(), "php");
}

#[test]
fn normalize_path_strips_leading_dot_slash() {
    assert_eq!(normalize_path("./src/a.rs"), "src/a.rs");
    assert_eq!(normalize_path("src/a.rs"), "src/a.rs");
    assert_eq!(normalize_path("."), ".");
    assert_eq!(normalize_path("./"), "");
    assert_eq!(normalize_path("././a"), "./a");
}

#[test]
fn hidden_slot_marker() {
    assert!(is_hidden_slot("_x"));
    assert!(is_hidden_slot("_"));
    assert!(!is_hidden_slot("x"));
    assert!(!is_hidden_slot(""));
}

#[test]
fn claim_is_exclusive() {
    let mut agg = Aggregator::new();
    assert!(agg.claim(&"./a.rs".to_string()));
    assert!(!agg.claim(&"./a.rs".to_string()));
    assert!(agg.claim(&"./b.rs".to_string()));
    assert!(!agg.claim(&"./a.rs".to_string()));
    assert!(!agg.claim(&"./b.rs".to_string()));
}

#[test]
fn empty_run_outputs() {
    let agg = Aggregator::new();
    assert_eq!(agg.finalize(OutputMode::Records, "\n"), "[]");
    assert_eq!(agg.finalize(OutputMode::TextOnly, "\n"), "");
    assert_eq!(agg.finalize(OutputMode::ListOnly, "\n"), "");
}

#[test]
fn single_record_json() {
    let mut agg = Aggregator::new();
    agg.add_records(vec![rec("f.rs", 0, 3, 0, 8, "fn", "hello")]);
    assert_eq!(
        agg.finalize(OutputMode::Records, "\n"),
        r#"[{"file":"f.rs","start":{"row":0,"column":3},"end":{"row":0,"column":8},"capture":"fn","text":"hello"}]"#
    );
}

#[test]
fn json_string_escaping() {
    let mut agg = Aggregator::new();
    agg.add_records(vec![rec("f.rs", 1, 2, 3, 4, "t", "a\"b\\c\nd\u{1}e\tf\rg")]);
    assert_eq!(
        agg.finalize(OutputMode::Records, "\n"),
        "[{\"file\":\"f.rs\",\"start\":{\"row\":1,\"column\":2},\"end\":{\"row\":3,\"column\":4},\"capture\":\"t\",\"text\":\"a\\\"b\\\\c\\nd\\u0001e\\tf\\rg\"}]"
    );
}

#[test]
fn large_positions_render_in_decimal() {
    let mut agg = Aggregator::new();
    agg.add_records(vec![rec("f.rs", 123, 4567, 890, 0, "c", "x")]);
    assert_eq!(
        agg.finalize(OutputMode::Records, "\n"),
        r#"[{"file":"f.rs","start":{"row":123,"column":4567},"end":{"row":890,"column":0},"capture":"c","text":"x"}]"#
    );
}

#[test]
fn output_sorted_by_file_and_stable_within_file() {
    let mut agg = Aggregator::new();
    agg.add_records(vec![rec("b.rs", 0, 0, 0, 1, "c", "b1"), rec("b.rs", 1, 0, 1, 1, "c", "b2")]);
    agg.add_records(vec![rec("a.rs", 0, 0, 0, 1, "c", "a1"), rec("a.rs", 1, 0, 1, 1, "c", "a2")]);
    assert_eq!(agg.finalize(OutputMode::TextOnly, ","), "a1,a2,b1,b2");
}

#[test]
fn output_independent_of_completion_order() {
    let mut first = Aggregator::new();
    first.add_records(vec![rec("b.rs", 0, 0, 0, 1, "c", "b1")]);
    first.add_records(vec![rec("a.rs", 0, 0, 0, 1, "c", "a1")]);
    let mut second = Aggregator::new();
    second.add_records(vec![rec("a.rs", 0, 0, 0, 1, "c", "a1")]);
    second.add_records(vec![rec("b.rs", 0, 0, 0, 1, "c", "b1")]);
    let out1 = first.finalize(OutputMode::Records, "\n");
    let out2 = second.finalize(OutputMode::Records, "\n");
    assert_eq!(out1, out2);
    let again = {
        let mut agg = Aggregator::new();
        agg.add_records(vec![rec("b.rs", 0, 0, 0, 1, "c", "b1")]);
        agg.add_records(vec![rec("a.rs", 0, 0, 0, 1, "c", "a1")]);
        agg.finalize(OutputMode::Records, "\n")
    };
    assert_eq!(out1, again);
}

#[test]
fn list_output_independent_of_completion_order() {
    let mut first = Aggregator::new();
    first.add_matched_file("b.rs".to_string());
    first.add_matched_file("a.rs".to_string());
    first.add_matched_file("c.rs".to_string());
    let mut second = Aggregator::new();
    second.add_matched_file("c.rs".to_string());
    second.add_matched_file("b.rs".to_string());
    second.add_matched_file("a.rs".to_string());
    assert_eq!(
        first.finalize(OutputMode::ListOnly, "\n"),
        second.finalize(OutputMode::ListOnly, "\n"),
    );
}

#[test]
fn list_output_dedups_and_sorts() {
    let mut agg = Aggregator::new();
    agg.add_matched_file("b.rs".to_string());
    agg.add_matched_file("a.rs".to_string());
    agg.add_matched_file("b.rs".to_string());
    assert_eq!(agg.finalize(OutputMode::ListOnly, "\n"), "a.rs\nb.rs");
}

#[test]
fn text_mode_custom_separator_no_trailing() {
    let mut agg = Aggregator::new();
    agg.add_records(vec![rec("f.rs", 0, 0, 0, 1, "c", "x"), rec("f.rs", 0, 2, 0, 3, "c", "y")]);
    assert_eq!(agg.finalize(OutputMode::TextOnly, "--"), "x--y");
}

#[test]
fn unescape_separator_sequences() {
    assert_eq!(unescape_separator("\\n"), Ok("\n".to_string()));
    assert_eq!(unescape_separator("\\t"), Ok("\t".to_string()));
    assert_eq!(unescape_separator(","), Ok(",".to_string()));
    assert!(unescape_separator("\\").is_err());
}

#[test]
fn query_source_rule() {
    assert_eq!(choose_query_source(true, false), QuerySourceRule::UseInline);
    assert_eq!(choose_query_source(false, true), QuerySourceRule::UseFile);
    assert_eq!(choose_query_source(false, false), QuerySourceRule::ErrNeither);
    assert_eq!(choose_query_source(true, true), QuerySourceRule::ErrBoth);
}

#[test]
fn empty_query_short_circuit() {
    assert_eq!(empty_query_output(OutputMode::Records), "[]");
    assert_eq!(empty_query_output(OutputMode::TextOnly), "");
    assert_eq!(empty_query_output(OutputMode::ListOnly), "");
}

#[test]
fn path_helpers_dedup_and_sort() {
    let paths = vec!["b".to_string(), "a".to_string(), "ab".to_string(), "a".to_string()];
    let distinct = dedup_path_vec(&paths);
    assert_eq!(distinct, vec!["b".to_string(), "a".to_string(), "ab".to_string()]);
    let sorted = sort_path_vec(&distinct);
    assert_eq!(sorted, vec!["a".to_string(), "ab".to_string(), "b".to_string()]);
}

#[test]
fn events_skip_hidden_and_bad_spans() {
    let src = "h\u{e9}llo fn".as_bytes();
    let names = vec!["_h".to_string(), "v".to_string()];
    let events = vec![
        CaptureEvent { slot: 0, start: Position { row: 0, column: 0 }, end: Position { row: 0, column: 1 }, byte_start: 0, byte_end: 1 },
        CaptureEvent { slot: 1, start: Position { row: 0, column: 1 }, end: Position { row: 0, column: 2 }, byte_start: 1, byte_end: 2 },
        CaptureEvent { slot: 1, start: Position { row: 0, column: 0 }, end: Position { row: 0, column: 3 }, byte_start: 0, byte_end: 3 },
        CaptureEvent { slot: 7, start: Position { row: 0, column: 0 }, end: Position { row: 0, column: 1 }, byte_start: 0, byte_end: 1 },
        CaptureEvent { slot: 1, start: Position { row: 0, column: 0 }, end: Position { row: 0, column: 9 }, byte_start: 9, byte_end: 3 },
    ];
    let path = "x.rs".to_string();
    let records = events_to_records(&path, src, &events, &names, false);
    assert_eq!(records.len(), 1);
    assert_eq!(records[0].capture, "v");
    assert_eq!(records[0].text, "h\u{e9}");

    let with_hidden = events_to_records(&path, src, &events, &names, true);
    assert_eq!(with_hidden.len(), 2);
    assert_eq!(with_hidden[0].capture, "_h");
    assert_eq!(with_hidden[0].text, "h");

    assert_eq!(count_undecodable(&events, &names, false, src), 2);
    assert_eq!(count_undecodable(&events, &names, true, src), 2);
}

#[test]
fn json_keeps_non_ascii_text_unescaped() {
    let mut agg = Aggregator::new();
    agg.add_records(vec![rec("f.rs", 0, 0, 0, 1, "c", "h\u{e9}llo\u{2192}")]);
    assert_eq!(
        agg.finalize(OutputMode::Records, "\n"),
        "[{\"file\":\"f.rs\",\"start\":{\"row\":0,\"column\":0},\"end\":{\"row\":0,\"column\":1},\"capture\":\"c\",\"text\":\"h\u{e9}llo\u{2192}\"}]"
    );
}

#[test]
fn text_mode_keeps_separator_inside_text() {
    let mut agg = Aggregator::new();
    agg.add_records(vec![rec("f.rs", 0, 0, 0, 1, "c", "x,y"), rec("f.rs", 1, 0, 1, 1, "c", "z")]);
    assert_eq!(agg.finalize(OutputMode::TextOnly, ","), "x,y,z");
}
