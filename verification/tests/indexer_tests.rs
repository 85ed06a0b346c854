use std::collections::HashSet;

use openace::errors::{IndexerError, ParserError, StorageError};
use openace::incremental::{
    check_update, diff_symbols, latest_event_per_path, needs_reindex, IncrementalOutcome, IncrementalReport,
    IncrementalTally, UpdateCheck,
};
use openace::language::Language;
use openace::pipeline::{
    attach_body_texts, classify_content, normalize_path, relations_with_known_source,
    skip_for_parse_error,
};
use openace::relation::{CodeRelation, RelationKind};
use openace::report::{IndexConfig, IndexReport, SkipReason};
use openace::resolver::{
    build_phantom_lookup, pick_best, resolve_relations, Candidate, MatchTier, SymbolRef,
};
use openace::scanner::{is_generated_file, is_vendor_dir};
use openace::symbol::{CodeSymbol, SymbolId, SymbolKind};
use openace::watcher::{is_watchable_path, should_reindex, ChangeEvent};

fn diff_symbol(name: &str, file: &str, byte_start: usize, byte_end: usize, body_hash: u64) -> CodeSymbol {
    CodeSymbol {
        id: SymbolId::generate("test-repo", file, name, byte_start, byte_end),
        name: name.split('.').last().unwrap_or(name).to_string(),
        qualified_name: name.to_string(),
        kind: SymbolKind::Function,
        language: Language::Python,
        file_path: file.to_string(),
        byte_range: byte_start..byte_end,
        line_range: 0..10,
        signature: Some(format!("def {}()", name)),
        doc_comment: None,
        body_hash,
        body_text: None,
    }
}

#[test]
fn diff_detects_added_symbols() {
    let old = vec![];
    let new = vec![diff_symbol("foo", "a.py", 0, 50, 100)];
    let diff = diff_symbols(&old, &new);
    assert_eq!(diff.added.len(), 1);
    assert_eq!(diff.removed.len(), 0);
    assert_eq!(diff.modified.len(), 0);
    assert_eq!(diff.unchanged_count, 0);
}

#[test]
fn diff_detects_removed_symbols() {
    let old = vec![diff_symbol("foo", "a.py", 0, 50, 100)];
    let new = vec![];
    let diff = diff_symbols(&old, &new);
    assert_eq!(diff.added.len(), 0);
    assert_eq!(diff.removed.len(), 1);
    assert_eq!(diff.modified.len(), 0);
    assert_eq!(diff.unchanged_count, 0);
}

#[test]
fn diff_detects_modified_symbols() {
    let old = vec![diff_symbol("foo", "a.py", 0, 50, 100)];
    let new = vec![diff_symbol("foo", "a.py", 0, 50, 200)];
    let diff = diff_symbols(&old, &new);
    assert_eq!(diff.added.len(), 0);
    assert_eq!(diff.removed.len(), 0);
    assert_eq!(diff.modified.len(), 1);
    assert_eq!(diff.unchanged_count, 0);
}

#[test]
fn diff_detects_unchanged_symbols() {
    let old = vec![diff_symbol("foo", "a.py", 0, 50, 100)];
    let new = vec![diff_symbol("foo", "a.py", 0, 50, 100)];
    let diff = diff_symbols(&old, &new);
    assert_eq!(diff.added.len(), 0);
    assert_eq!(diff.removed.len(), 0);
    assert_eq!(diff.modified.len(), 0);
    assert_eq!(diff.unchanged_count, 1);
}

#[test]
fn diff_rename_shows_remove_and_add() {
    let old = vec![diff_symbol("foo", "a.py", 0, 50, 100)];
    let new = vec![diff_symbol("bar", "a.py", 0, 50, 100)];
    let diff = diff_symbols(&old, &new);
    assert_eq!(diff.added.len(), 1);
    assert_eq!(diff.removed.len(), 1);
    assert_eq!(diff.modified.len(), 0);
    assert_eq!(diff.unchanged_count, 0);
}

#[test]
fn diff_mixed_changes() {
    let old = vec![
        diff_symbol("a", "f.py", 0, 10, 1),
        diff_symbol("b", "f.py", 20, 30, 2),
        diff_symbol("c", "f.py", 40, 50, 3),
    ];
    let new = vec![
        diff_symbol("a", "f.py", 0, 10, 1),
        diff_symbol("b", "f.py", 20, 30, 99),
        diff_symbol("d", "f.py", 60, 70, 4),
    ];
    let diff = diff_symbols(&old, &new);
    assert_eq!(diff.added.len(), 1);
    assert_eq!(diff.removed.len(), 1);
    assert_eq!(diff.modified.len(), 1);
    assert_eq!(diff.unchanged_count, 1);
}

#[test]
fn diff_duplicate_ids_count_once() {
    let old = vec![diff_symbol("a", "f.py", 0, 10, 1), diff_symbol("a", "f.py", 0, 10, 7)];
    let new = vec![diff_symbol("a", "f.py", 0, 10, 1), diff_symbol("a", "f.py", 0, 10, 7)];
    let diff = diff_symbols(&old, &new);
    assert_eq!(diff.added.len(), 0);
    assert_eq!(diff.removed.len(), 0);
    assert_eq!(diff.modified.len(), 0);
    assert_eq!(diff.unchanged_count, 1);
    let removed = diff_symbols(&old, &[]);
    assert_eq!(removed.removed, vec![old[0].id]);
}

#[test]
fn diff_reports_the_new_symbol_and_the_removed_id() {
    let old = vec![diff_symbol("c", "f.py", 40, 50, 3), diff_symbol("b", "f.py", 20, 30, 2)];
    let new = vec![diff_symbol("b", "f.py", 20, 30, 99), diff_symbol("d", "f.py", 60, 70, 4)];
    let diff = diff_symbols(&old, &new);
    assert_eq!(diff.added[0].qualified_name, "d");
    assert_eq!(diff.modified[0].body_hash, 99);
    assert_eq!(diff.removed, vec![old[0].id]);
}

fn make_symbol(
    repo_id: &str,
    file: &str,
    name: &str,
    qualified_name: &str,
    byte_start: usize,
    byte_end: usize,
) -> CodeSymbol {
    CodeSymbol {
        id: SymbolId::generate(repo_id, file, qualified_name, byte_start, byte_end),
        name: name.to_string(),
        qualified_name: qualified_name.to_string(),
        kind: SymbolKind::Function,
        language: Language::Python,
        file_path: file.to_string(),
        byte_range: byte_start..byte_end,
        line_range: 0..10,
        signature: None,
        doc_comment: None,
        body_hash: 0,
        body_text: None,
    }
}

fn make_relation(source_id: SymbolId, target_name: &str, file: &str) -> CodeRelation {
    CodeRelation {
        source_id,
        target_id: SymbolId::generate("", "", target_name, 0, 0),
        kind: RelationKind::Calls,
        file_path: file.to_string(),
        line: 5,
    }
}

fn sym_refs(symbols: &[CodeSymbol]) -> Vec<SymbolRef> {
    symbols.iter().map(SymbolRef::from_symbol).collect()
}

fn known_of(symbols: &[CodeSymbol]) -> HashSet<u128> {
    symbols.iter().map(|s| s.id.0).collect()
}

#[test]
fn exact_qualified_name_resolution() {
    let target = make_symbol("repo", "lib/utils.py", "helper", "utils.helper", 10, 50);
    let source = make_symbol("repo", "src/main.py", "main", "main.main", 0, 100);
    let symbols = vec![source.clone(), target.clone()];
    let refs = sym_refs(&symbols);
    let known = known_of(&symbols);

    let mut relations = vec![make_relation(source.id, "utils.helper", "src/main.py")];
    let stats = resolve_relations(&mut relations, &refs, &known);

    assert_eq!(relations[0].target_id, target.id);
    assert_eq!(stats.resolved_by_qualified_name, 1);
    assert_eq!(stats.unresolved, 0);
}

#[test]
fn suffix_match_resolution() {
    let target = make_symbol(
        "repo",
        "magic_model/boxbase.py",
        "MagicBoxBase",
        "boxbase.MagicBoxBase",
        10,
        500,
    );
    let source = make_symbol("repo", "src/caller.py", "call_it", "caller.call_it", 0, 100);
    let symbols = vec![source.clone(), target.clone()];
    let refs = sym_refs(&symbols);
    let known = known_of(&symbols);

    let mut relations = vec![make_relation(source.id, "MagicBoxBase", "src/caller.py")];
    let stats = resolve_relations(&mut relations, &refs, &known);

    assert_eq!(relations[0].target_id, target.id);
    assert_eq!(stats.unresolved, 0);
}

#[test]
fn name_match_resolution() {
    let target = make_symbol("repo", "lib/foo.py", "bar", "foo.bar", 0, 50);
    let source = make_symbol("repo", "src/main.py", "main", "main.main", 0, 100);
    let symbols = vec![source.clone(), target.clone()];
    let refs = sym_refs(&symbols);
    let known = known_of(&symbols);

    let mut relations = vec![make_relation(source.id, "bar", "src/main.py")];
    let stats = resolve_relations(&mut relations, &refs, &known);

    assert_eq!(relations[0].target_id, target.id);
    assert_eq!(stats.resolved_by_name, 1);
}

#[test]
fn already_resolved_untouched() {
    let target = make_symbol("repo", "lib/utils.py", "helper", "utils.helper", 10, 50);
    let source = make_symbol("repo", "src/main.py", "main", "main.main", 0, 100);
    let symbols = vec![source.clone(), target.clone()];
    let refs = sym_refs(&symbols);
    let known = known_of(&symbols);

    let mut relations = vec![CodeRelation {
        source_id: source.id,
        target_id: target.id,
        kind: RelationKind::Contains,
        file_path: "src/main.py".to_string(),
        line: 1,
    }];

    let original_target = relations[0].target_id;
    let stats = resolve_relations(&mut relations, &refs, &known);

    assert_eq!(relations[0].target_id, original_target);
    assert_eq!(stats.already_resolved, 1);
    assert_eq!(stats.unresolved, 0);
}

#[test]
fn unresolvable_preserved() {
    let source = make_symbol("repo", "src/main.py", "main", "main.main", 0, 100);
    let symbols = vec![source.clone()];
    let refs = sym_refs(&symbols);
    let known = known_of(&symbols);

    let mut relations = vec![make_relation(source.id, "external.library.Thing", "src/main.py")];
    let original_target = relations[0].target_id;
    let stats = resolve_relations(&mut relations, &refs, &known);

    assert_eq!(relations[0].target_id, original_target);
    assert_eq!(stats.unresolved, 1);
}

#[test]
fn disambiguation_prefers_same_directory() {
    let target_a = make_symbol("repo", "pkg_a/utils.py", "helper", "utils.helper", 0, 50);
    let target_b = make_symbol("repo", "pkg_b/utils.py", "helper", "utils.helper", 0, 50);
    let source = make_symbol("repo", "pkg_a/main.py", "main", "main.main", 0, 100);
    let symbols = vec![source.clone(), target_a.clone(), target_b.clone()];
    let refs = sym_refs(&symbols);
    let known = known_of(&symbols);

    let mut relations = vec![make_relation(source.id, "helper", "pkg_a/main.py")];
    let stats = resolve_relations(&mut relations, &refs, &known);

    assert_eq!(relations[0].target_id, target_a.id);
    assert_eq!(stats.unresolved, 0);
}

#[test]
fn priority_ordering() {
    let target = make_symbol("repo", "lib/module.py", "MyClass", "module.MyClass", 10, 200);
    let other = make_symbol("repo", "lib/other.py", "MyClass", "other.MyClass", 10, 200);
    let source = make_symbol("repo", "src/main.py", "main", "main.main", 0, 100);
    let symbols = vec![source.clone(), target.clone(), other.clone()];
    let refs = sym_refs(&symbols);
    let known = known_of(&symbols);

    let mut relations = vec![make_relation(source.id, "module.MyClass", "src/main.py")];
    let stats = resolve_relations(&mut relations, &refs, &known);

    assert_eq!(relations[0].target_id, target.id);
    assert_eq!(stats.resolved_by_qualified_name, 1);
}

#[test]
fn build_phantom_lookup_correct_entries() {
    let sym = make_symbol("repo", "pkg/module.py", "MyClass", "module.MyClass", 10, 200);
    let refs = sym_refs(&[sym.clone()]);
    let lookup = build_phantom_lookup(&refs);

    let phantom_qname = SymbolId::generate("", "", "module.MyClass", 0, 0);
    assert!(lookup.contains_key(&phantom_qname.0));

    let phantom_name = SymbolId::generate("", "", "MyClass", 0, 0);
    assert!(lookup.contains_key(&phantom_name.0));

    let qname_candidates = &lookup[&phantom_qname.0];
    assert_eq!(qname_candidates.len(), 1);
    assert_eq!(qname_candidates[0].tier, MatchTier::ExactQualifiedName);

    let name_candidates = &lookup[&phantom_name.0];
    assert_eq!(name_candidates.len(), 1);
    assert_eq!(name_candidates[0].tier, MatchTier::ExactName);
}

#[test]
fn phantom_lookup_files_every_dot_suffix() {
    let sym = make_symbol("repo", "m/box.py", "MagicBoxBase", "magic_model.boxbase.MagicBoxBase", 0, 9);
    let lookup = build_phantom_lookup(&sym_refs(&[sym.clone()]));
    let suffix = SymbolId::generate("", "", "boxbase.MagicBoxBase", 0, 0);
    assert_eq!(lookup[&suffix.0][0].tier, MatchTier::SuffixMatch);
    assert_eq!(lookup[&suffix.0][0].real_id, sym.id);
    assert_eq!(lookup.len(), 3);
}

#[test]
fn resolution_counts_add_up() {
    let target = make_symbol("repo", "lib/foo.py", "bar", "foo.bar", 0, 50);
    let source = make_symbol("repo", "src/main.py", "main", "main.main", 0, 100);
    let symbols = vec![source.clone(), target.clone()];
    let refs = sym_refs(&symbols);
    let known = known_of(&symbols);
    let mut relations = vec![
        make_relation(source.id, "bar", "src/main.py"),
        make_relation(source.id, "foo.bar", "src/main.py"),
        make_relation(source.id, "nothing", "src/main.py"),
        CodeRelation {
            source_id: source.id,
            target_id: target.id,
            kind: RelationKind::Calls,
            file_path: "src/main.py".to_string(),
            line: 3,
        },
    ];
    let stats = resolve_relations(&mut relations, &refs, &known);
    assert_eq!(stats.total, 4);
    assert_eq!(stats.resolved_by_name, 1);
    assert_eq!(stats.resolved_by_qualified_name, 1);
    assert_eq!(stats.unresolved, 1);
    assert_eq!(stats.already_resolved, 1);
    assert_eq!(
        stats.already_resolved
            + stats.resolved_by_qualified_name
            + stats.resolved_by_suffix
            + stats.resolved_by_name
            + stats.unresolved,
        stats.total
    );
}

fn cand(id: u128, path: &str, tier: MatchTier) -> Candidate {
    Candidate { real_id: SymbolId(id), file_path: path.to_string(), tier }
}

#[test]
fn pick_best_breaks_ties_by_smallest_path() {
    let cands = vec![
        cand(1, "z/a.py", MatchTier::ExactName),
        cand(2, "b/a.py", MatchTier::ExactName),
        cand(3, "b/a.py", MatchTier::ExactName),
        cand(4, "a/a.py", MatchTier::SuffixMatch),
        cand(5, "0/a.py", MatchTier::SuffixMatch),
    ];
    assert_eq!(pick_best(&cands, None).unwrap().real_id, SymbolId(5));
    assert_eq!(pick_best(&cands[..3], Some("q")).unwrap().real_id, SymbolId(2));
    assert_eq!(pick_best(&cands[..3], Some("z")).unwrap().real_id, SymbolId(1));
    assert!(pick_best(&[], None).is_none());
    assert_eq!(pick_best(&cands[..1], Some("b")).unwrap().real_id, SymbolId(1));
}

#[test]
fn is_watchable_accepts_source_files() {
    assert!(is_watchable_path("src/main.py"));
    assert!(is_watchable_path("lib.rs"));
    assert!(is_watchable_path("index.ts"));
    assert!(is_watchable_path("App.tsx"));
    assert!(is_watchable_path("main.go"));
    assert!(is_watchable_path("Main.java"));
}

#[test]
fn is_watchable_rejects_vendor_dirs() {
    assert!(!is_watchable_path("node_modules/dep/index.js"));
    assert!(!is_watchable_path("vendor/lib/main.go"));
    assert!(!is_watchable_path(".venv/lib/site.py"));
}

#[test]
fn is_watchable_rejects_hidden_dirs() {
    assert!(!is_watchable_path(".git/config"));
    assert!(!is_watchable_path(".secret/key.py"));
}

#[test]
fn is_watchable_rejects_generated_files() {
    assert!(!is_watchable_path("schema.generated.ts"));
    assert!(!is_watchable_path("bundle.min.js"));
    assert!(!is_watchable_path("proto_pb2.py"));
    assert!(!is_watchable_path("api.pb.go"));
}

#[test]
fn is_watchable_rejects_unsupported_extensions() {
    assert!(!is_watchable_path("readme.md"));
    assert!(!is_watchable_path("data.json"));
    assert!(!is_watchable_path("image.png"));
    assert!(!is_watchable_path("Makefile"));
}

#[test]
fn is_watchable_path_edge_cases() {
    assert!(is_watchable_path("./src/main.py"));
    assert!(is_watchable_path("a//b/./c.rs"));
    assert!(!is_watchable_path("src/.hidden.py"));
    assert!(!is_watchable_path("src/main.py/.."));
    assert!(!is_watchable_path(".py"));
    assert!(!is_watchable_path("main."));
    assert!(!is_watchable_path(""));
}

#[test]
fn should_reindex_detects_content_change() {
    let content_v1 = b"fn main() { println!(\"hello\"); }";
    let hash_v1 = xxhash_rust::xxh3::xxh3_64(content_v1);
    assert!(!should_reindex(content_v1, hash_v1));
    let content_v2 = b"fn main() { println!(\"world\"); }";
    assert!(should_reindex(content_v2, hash_v1));
}

#[test]
fn should_reindex_metadata_only_change_ignored() {
    let content = b"x = 42\n";
    let stored_hash = xxhash_rust::xxh3::xxh3_64(content);
    assert!(!should_reindex(content, stored_hash));
}

#[test]
fn generated_and_vendor_names() {
    assert!(is_generated_file("web/app.min.css"));
    assert!(is_generated_file("x_pb2.py"));
    assert!(!is_generated_file("src/app.py"));
    assert!(!is_generated_file("min.js/"));
    assert!(is_vendor_dir("third_party"));
    assert!(is_vendor_dir("venv"));
    assert!(!is_vendor_dir("vendored"));
}

#[test]
fn latest_event_wins_per_path() {
    let events = vec![
        ChangeEvent::Changed("src\\a.py".to_string()),
        ChangeEvent::Changed("src/b.py".to_string()),
        ChangeEvent::Removed("src/a.py".to_string()),
    ];
    let latest = latest_event_per_path(&events);
    assert_eq!(
        latest,
        vec![
            ChangeEvent::Changed("src/b.py".to_string()),
            ChangeEvent::Removed("src/a.py".to_string()),
        ]
    );
    assert!(latest_event_per_path(&[]).is_empty());
}

#[test]
fn normalize_path_uses_forward_slashes() {
    assert_eq!(normalize_path("a\\b\\c.py"), "a/b/c.py");
    assert_eq!(normalize_path("a/b"), "a/b");
}

#[test]
fn check_update_decisions() {
    let content = b"x = 1\n";
    let h = xxhash_rust::xxh3::xxh3_64(content);
    assert!(matches!(check_update("a.py", content, Some(h)), Ok(UpdateCheck::Unchanged)));
    assert!(matches!(
        check_update("a.py", content, Some(h ^ 1)),
        Ok(UpdateCheck::Reindex(Language::Python))
    ));
    assert!(matches!(check_update("a.rs", content, None), Ok(UpdateCheck::Reindex(Language::Rust))));
    match check_update("a.md", content, None) {
        Err(IndexerError::PipelineFailed { stage, reason }) => {
            assert_eq!(stage, "incremental_language_check");
            assert_eq!(reason, "unsupported extension: md");
        }
        other => panic!("unexpected {:?}", other),
    }
    match check_update("a.py", b"ab\x00", None) {
        Err(IndexerError::PipelineFailed { stage, reason }) => {
            assert_eq!(stage, "incremental_binary_check");
            assert_eq!(reason, "file is binary");
        }
        other => panic!("unexpected {:?}", other),
    }
    let big = vec![b'a'; 1_048_577];
    match check_update("a.py", &big, None) {
        Err(IndexerError::PipelineFailed { stage, reason }) => {
            assert_eq!(stage, "incremental_size_check");
            assert_eq!(reason, "file too large: 1048577 bytes");
        }
        other => panic!("unexpected {:?}", other),
    }
}

#[test]
fn incremental_reports() {
    let diff = diff_symbols(&[diff_symbol("a", "f.py", 0, 1, 1)], &[diff_symbol("b", "f.py", 0, 1, 1)]);
    let r = IncrementalReport::from_diff("f.py", &diff);
    assert_eq!((r.added, r.removed, r.modified, r.unchanged), (1, 1, 0, 0));
    assert!(!r.skipped_unchanged_hash);
    let u = IncrementalReport::unchanged_hash("g.py");
    assert!(u.skipped_unchanged_hash);
    assert_eq!(u.file_path, "g.py");
    let d = IncrementalReport::deleted("h.py", 4);
    assert_eq!(d.removed, 4);
}

#[test]
fn skip_reasons_for_parse_errors() {
    let too_large = ParserError::FileTooLarge { path: "a".into(), size: 2, max: 1 };
    assert_eq!(skip_for_parse_error(&too_large), Some(SkipReason::TooLarge));
    let enc = ParserError::InvalidEncoding { path: "a".into() };
    assert_eq!(skip_for_parse_error(&enc), Some(SkipReason::Binary));
    let lang = ParserError::UnsupportedLanguage { path: "a".into() };
    assert_eq!(skip_for_parse_error(&lang), Some(SkipReason::UnsupportedLanguage));
    let failed = ParserError::ParseFailed { path: "a".into(), reason: "r".into() };
    assert_eq!(skip_for_parse_error(&failed), None);
}

#[test]
fn classify_content_skips() {
    assert_eq!(classify_content("a.py", b"x=1"), Ok(Language::Python));
    assert_eq!(classify_content("a.css", b"x=1"), Err(SkipReason::UnsupportedLanguage));
    assert_eq!(classify_content("a.py", b"x\x00"), Err(SkipReason::Binary));
    assert_eq!(classify_content("Makefile", b"all:"), Err(SkipReason::UnsupportedLanguage));
}

#[test]
fn body_texts_follow_byte_ranges() {
    let source = "def foo():\n    return 1\n".as_bytes();
    let mut syms = vec![
        diff_symbol("foo", "a.py", 0, 10, 1),
        diff_symbol("empty", "a.py", 5, 5, 1),
        diff_symbol("tail", "a.py", 20, 999, 1),
    ];
    let pairs = attach_body_texts(&mut syms, source);
    assert_eq!(syms[0].body_text.as_deref(), Some("def foo():"));
    assert_eq!(syms[1].body_text, None);
    assert_eq!(syms[2].body_text.as_deref(), Some("n 1\n"));
    assert_eq!(pairs.len(), 2);
    assert_eq!(pairs[0], (syms[0].id, "def foo():".to_string()));
}

#[test]
fn body_text_is_capped_at_10kb() {
    let source = vec![b'x'; 20_000];
    let mut syms = vec![diff_symbol("big", "a.py", 0, 20_000, 1)];
    attach_body_texts(&mut syms, &source);
    assert_eq!(syms[0].body_text.as_ref().unwrap().len(), 10240);
}

#[test]
fn relations_keep_known_sources() {
    let a = diff_symbol("a", "f.py", 0, 1, 1);
    let rels = vec![
        CodeRelation { source_id: a.id, target_id: SymbolId(9), kind: RelationKind::Calls, file_path: "f.py".into(), line: 1 },
        CodeRelation { source_id: SymbolId(7), target_id: a.id, kind: RelationKind::Calls, file_path: "f.py".into(), line: 2 },
    ];
    let kept = relations_with_known_source(&rels, &[a.clone()]);
    assert_eq!(kept.len(), 1);
    assert_eq!(kept[0].line, 1);
}

#[test]
fn index_report_skip_counts() {
    let mut report = IndexReport {
        total_files_scanned: 3,
        files_indexed: 0,
        files_skipped: Vec::new(),
        files_failed: 0,
        failed_details: Vec::new(),
        total_symbols: 0,
        total_relations: 0,
        duration: std::time::Duration::from_millis(1),
    };
    report.record_skip(SkipReason::Binary);
    report.record_skip(SkipReason::Binary);
    report.record_skip(SkipReason::TooLarge);
    assert_eq!(report.skipped(SkipReason::Binary), 2);
    assert_eq!(report.skipped(SkipReason::TooLarge), 1);
    assert_eq!(report.skipped(SkipReason::Ignored), 0);
    assert_eq!(report.total_skipped(), 3);
    let config = IndexConfig::default();
    assert_eq!(config.batch_size, 1000);
    assert_eq!(config.repo_id, "");
}

#[test]
fn error_retryability() {
    let busy = StorageError::Sqlite { busy: true, corrupt: false, message: "locked".into() };
    assert!(busy.is_retryable());
    assert!(!busy.should_purge());
    let corrupt = StorageError::Sqlite { busy: false, corrupt: true, message: "bad".into() };
    assert!(!corrupt.is_retryable());
    assert!(corrupt.should_purge());
    assert!(IndexerError::Storage(busy).is_retryable());
    assert!(!IndexerError::Watcher("w".into()).is_retryable());
    assert!(StorageError::SchemaMismatch { expected: 1, actual: 2 }.should_purge());
    assert!(!StorageError::DimensionMismatch { expected: 1, actual: 2 }.should_purge());
    assert!(!ParserError::InvalidEncoding { path: "p".into() }.is_retryable());
}

#[test]
fn needs_reindex_by_stored_hash() {
    let content = b"fn main() {}";
    let h = xxhash_rust::xxh3::xxh3_64(content);
    assert!(!needs_reindex(Some(h), content));
    assert!(needs_reindex(Some(h ^ 1), content));
    assert!(needs_reindex(None, content));
}

#[test]
fn tally_counts_each_outcome_once() {
    let mut t = IncrementalTally::new();
    t.record(IncrementalOutcome::Unchanged);
    t.record(IncrementalOutcome::Indexed);
    t.record(IncrementalOutcome::Indexed);
    t.record(IncrementalOutcome::Deleted);
    t.record(IncrementalOutcome::Failed);
    assert_eq!((t.files_unchanged, t.files_indexed, t.files_deleted, t.files_failed), (1, 2, 1, 1));
}
