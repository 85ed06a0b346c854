use openace::chunker::ChunkConfig;
use openace::errors::ParserError;
use openace::incremental::plan_incremental;
use openace::language::Language;
use openace::pipeline::{collect_outcomes, process_file, skip_before_read, FileOutcome};
use openace::report::SkipReason;
use openace::symbol::SymbolKind;

#[test]
fn size_check_before_read() {
    assert_eq!(skip_before_read(1_048_577), Some(SkipReason::TooLarge));
    assert_eq!(skip_before_read(1_048_576), None);
}

#[test]
fn parser_error_text() {
    let e = ParserError::FileTooLarge { path: "a.py".to_string(), size: 2000000, max: 1048576 };
    assert_eq!(e.message(), "file too large (2000000 bytes, max 1048576): a.py");
    let e = ParserError::ParseFailed { path: "b.rs".to_string(), reason: "boom".to_string() };
    assert_eq!(e.message(), "parse failed for b.rs: boom");
    let e = ParserError::UnsupportedLanguage { path: "c.txt".to_string() };
    assert_eq!(e.message(), "unsupported language for file: c.txt");
    let e = ParserError::InvalidEncoding { path: "d.py".to_string() };
    assert_eq!(e.message(), "invalid encoding (non-UTF-8): d.py");
}

#[test]
fn process_file_outcomes() {
    assert!(matches!(process_file("r", "a.py", b"\x00\x01", 2, None), FileOutcome::Skipped(SkipReason::Binary)));
    assert!(matches!(
        process_file("r", "a.txt", b"hello", 5, None),
        FileOutcome::Skipped(SkipReason::UnsupportedLanguage)
    ));
    assert!(matches!(process_file("r", "a.py", b"x = 1\n", 2_000_000, None), FileOutcome::Skipped(SkipReason::TooLarge)));
    assert!(matches!(process_file("r", "a.py", &[b'x', 0xff, b'y'], 3, None), FileOutcome::Skipped(SkipReason::Binary)));
    let src = "def f():\n    return 1\n";
    match process_file("r", "src/a.py", src.as_bytes(), src.len() as u64, Some(&ChunkConfig::default())) {
        FileOutcome::Parsed(p) => {
            assert_eq!(p.rel_path, "src/a.py");
            assert_eq!(p.language, Language::Python);
            assert_eq!(p.content_hash, xxhash_rust::xxh3::xxh3_64(src.as_bytes()));
            assert_eq!(p.symbols.len(), 2);
            assert_eq!(p.symbols[1].body_text.as_deref(), Some("def f():\n    return 1"));
            assert_eq!(p.bodies.len(), 2);
            assert_eq!(p.bodies[1], (p.symbols[1].id, "def f():\n    return 1".to_string()));
            assert_eq!(p.symbols[0].kind, SymbolKind::Module);
            assert!(p.symbols.iter().all(|s| s.file_path == "src/a.py" && s.language == Language::Python));
            assert_eq!(p.chunks.len(), 1);
        }
        other => panic!("unexpected outcome {other:?}"),
    }
    match process_file("r", "src/a.py", src.as_bytes(), src.len() as u64, None) {
        FileOutcome::Parsed(p) => assert!(p.chunks.is_empty()),
        other => panic!("unexpected outcome {other:?}"),
    }
}

#[test]
fn collect_counts_every_outcome() {
    let src = "def f():\n    g()\n";
    let parsed = process_file("r", "a.py", src.as_bytes(), src.len() as u64, None);
    let outcomes = vec![
        parsed,
        FileOutcome::Skipped(SkipReason::Binary),
        FileOutcome::Skipped(SkipReason::Binary),
        FileOutcome::Skipped(SkipReason::TooLarge),
        FileOutcome::Failed("b.py".to_string(), "bad".to_string()),
    ];
    let b = collect_outcomes(&outcomes, "123Z");
    assert_eq!(b.files_indexed, 1);
    assert_eq!(b.files_failed, 1);
    assert_eq!(b.failed_details, vec![("b.py".to_string(), "bad".to_string())]);
    let binary = b.files_skipped.iter().find(|(r, _)| *r == SkipReason::Binary).map(|(_, c)| *c);
    let large = b.files_skipped.iter().find(|(r, _)| *r == SkipReason::TooLarge).map(|(_, c)| *c);
    assert_eq!(binary, Some(2));
    assert_eq!(large, Some(1));
    assert_eq!(b.total_symbols, 2);
    assert_eq!(b.symbols.len(), 2);
    assert_eq!(b.files.len(), 1);
    assert_eq!(b.files[0].path, "a.py");
    assert_eq!(b.files[0].symbol_count, 2);
    assert_eq!(b.files[0].last_indexed, "123Z");
    // Contains (module -> f) and Calls (f -> g), both from known symbols.
    assert_eq!(b.total_relations, 2);
}

#[test]
fn incremental_plan_sorts_files() {
    let disk = vec!["a.py".to_string(), "b.py".to_string(), "new.py".to_string()];
    let db = vec![("a.py".to_string(), 1u64), ("gone.py".to_string(), 2u64), ("b.py".to_string(), 3u64)];
    let plan = plan_incremental(&disk, &db);
    assert_eq!(plan.deleted, vec!["gone.py".to_string()]);
    assert_eq!(
        plan.on_disk,
        vec![("a.py".to_string(), Some(1)), ("b.py".to_string(), Some(3)), ("new.py".to_string(), None)]
    );
}
