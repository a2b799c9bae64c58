use tsgrep::aggregate::Aggregator;
use tsgrep::engine::{FileStatus, compile_pattern, process_file};
use tsgrep::language::Language;
use tsgrep::records::OutputMode;

const FN_PATTERN: &str = "(function_item name: (identifier) @fn)";

#[test]
fn three_functions_text_mode_round_trip() {
    let pattern = compile_pattern(Language::Rust, FN_PATTERN).unwrap();
    let src = b"fn a() {}\nfn b() {}\nfn c() {}\n";
    let mut agg = Aggregator::new();
    assert!(agg.claim(&"./m.rs".to_string()));
    let report = process_file(&pattern, Language::Rust, "./m.rs", src, false, false);
    assert_eq!(report.status, FileStatus::Processed);
    agg.add_records(report.records);
    assert_eq!(agg.finalize(OutputMode::TextOnly, ","), "a,b,c");
}

#[test]
fn records_mode_positions_and_normalized_path() {
    let pattern = compile_pattern(Language::Rust, FN_PATTERN).unwrap();
    let src = b"fn a() {}\n";
    let mut agg = Aggregator::new();
    let report = process_file(&pattern, Language::Rust, "./x.rs", src, false, false);
    assert_eq!(report.status, FileStatus::Processed);
    assert_eq!(report.file, "x.rs");
    agg.add_records(report.records);
    assert_eq!(
        agg.finalize(OutputMode::Records, "\n"),
        r#"[{"file":"x.rs","start":{"row":0,"column":3},"end":{"row":0,"column":4},"capture":"fn","text":"a"}]"#
    );
}

#[test]
fn non_utf8_file_skipped_silently_siblings_processed() {
    let pattern = compile_pattern(Language::Rust, FN_PATTERN).unwrap();
    let mut agg = Aggregator::new();

    let binary: &[u8] = &[0xff, 0xfe, 0x00, 0x41];
    let skipped = process_file(&pattern, Language::Rust, "./bin.rs", binary, false, false);
    assert_eq!(skipped.status, FileStatus::SkippedNonUtf8);
    assert!(skipped.records.is_empty());
    assert!(!skipped.matched);

    let good = process_file(&pattern, Language::Rust, "./ok.rs", b"fn a() {}", false, false);
    assert_eq!(good.status, FileStatus::Processed);
    agg.add_records(good.records);
    assert_eq!(agg.finalize(OutputMode::TextOnly, "\n"), "a");
}

#[test]
fn hidden_captures_filtered_unless_requested() {
    let pattern = compile_pattern(Language::Rust, "(function_item name: (identifier) @_fn)").unwrap();
    let src = b"fn a() {}\n";
    let without = process_file(&pattern, Language::Rust, "f.rs", src, false, false);
    assert_eq!(without.status, FileStatus::Processed);
    assert!(without.records.is_empty());
    let with = process_file(&pattern, Language::Rust, "f.rs", src, true, false);
    assert_eq!(with.records.len(), 1);
    assert_eq!(with.records[0].capture, "_fn");
    assert_eq!(with.records[0].text, "a");
}

#[test]
fn list_mode_reports_matching_files_sorted() {
    let pattern = compile_pattern(Language::Rust, FN_PATTERN).unwrap();
    let mut agg = Aggregator::new();
    let files: [(&str, &[u8]); 3] = [
        ("./f2.rs", b"fn b() {}"),
        ("./f1.rs", b"fn a() {}"),
        ("./f3.rs", b"const X: i32 = 1;"),
    ];
    for (path, src) in files {
        let owned = path.to_string();
        if agg.claim(&owned) {
            let report = process_file(&pattern, Language::Rust, path, src, false, true);
            assert!(report.records.is_empty());
            if report.matched {
                agg.add_matched_file(report.file);
            }
        }
    }
    assert_eq!(agg.finalize(OutputMode::ListOnly, "\n"), "f1.rs\nf2.rs");
}

#[test]
fn overlapping_roots_contribute_once() {
    let pattern = compile_pattern(Language::Rust, FN_PATTERN).unwrap();
    let mut agg = Aggregator::new();
    for _root in 0..2 {
        let path = "./sub/m.rs".to_string();
        if agg.claim(&path) {
            let report = process_file(&pattern, Language::Rust, &path, b"fn a() {}", false, false);
            agg.add_records(report.records);
        }
    }
    assert_eq!(agg.finalize(OutputMode::TextOnly, ","), "a");
}

#[test]
fn every_language_compiles_a_pattern() {
    assert!(compile_pattern(Language::Rust, "(function_item) @x").is_ok());
    assert!(compile_pattern(Language::Go, "(function_declaration) @x").is_ok());
    assert!(compile_pattern(Language::JS, "(function_declaration) @x").is_ok());
    assert!(compile_pattern(Language::TS, "(function_declaration) @x").is_ok());
    assert!(compile_pattern(Language::TSX, "(function_declaration) @x").is_ok());
    assert!(compile_pattern(Language::PHP, "(function_definition) @x").is_ok());
    assert!(compile_pattern(Language::PHPOnly, "(function_definition) @x").is_ok());
}

#[test]
fn malformed_pattern_is_rejected() {
    assert!(compile_pattern(Language::Rust, "(((").is_err());
    assert!(compile_pattern(Language::Rust, "(no_such_node_kind) @x").is_err());
}

#[test]
fn go_functions_match_in_order() {
    let pattern =
        compile_pattern(Language::Go, "(function_declaration name: (identifier) @fn)").unwrap();
    let src = b"package p\n\nfunc a() {}\n\nfunc b() {}\n";
    let mut agg = Aggregator::new();
    let report = process_file(&pattern, Language::Go, "m.go", src, false, false);
    assert_eq!(report.status, FileStatus::Processed);
    agg.add_records(report.records);
    assert_eq!(agg.finalize(OutputMode::TextOnly, ","), "a,b");
}

#[test]
fn capture_names_in_declaration_order() {
    let pattern = compile_pattern(Language::Rust, FN_PATTERN).unwrap();
    assert_eq!(pattern.names, vec!["fn".to_string()]);
    let two = compile_pattern(
        Language::Rust,
        "(function_item name: (identifier) @name) @item",
    )
    .unwrap();
    assert_eq!(two.names, vec!["name".to_string(), "item".to_string()]);
}
