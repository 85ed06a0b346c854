use openace::fusion::{
    best_symbol_index, effective_graph_depth, effective_limit, first_rank_per_file, passes_filters, rank_graph_hits,
    related_hits, select_exact_hits, str_starts_with,
};
use openace::graph::TraversalHit;
use openace::language::Language;
use openace::relation::RelationKind;
use openace::symbol::{CodeSymbol, SymbolId, SymbolKind};

fn symbol(id: u128, kind: SymbolKind, language: Language, path: &str) -> CodeSymbol {
    CodeSymbol {
        id: SymbolId(id),
        name: format!("s{id}"),
        qualified_name: format!("m.s{id}"),
        kind,
        language,
        file_path: path.to_string(),
        byte_range: 0..1,
        line_range: 0..1,
        signature: None,
        doc_comment: None,
        body_hash: 0,
        body_text: None,
    }
}

fn hit(id: u128, depth: u32) -> TraversalHit {
    TraversalHit { symbol_id: SymbolId(id), depth, relation_kind: RelationKind::Calls }
}

#[test]
fn limit_and_depth_are_capped() {
    assert_eq!(effective_limit(500), 200);
    assert_eq!(effective_limit(10), 10);
    assert_eq!(effective_graph_depth(9), 5);
    assert_eq!(effective_graph_depth(2), 2);
}

#[test]
fn prefix_test_on_chars() {
    assert!(str_starts_with("src/auth/login.py", "src/auth"));
    assert!(str_starts_with("abc", ""));
    assert!(!str_starts_with("src", "src/auth"));
    assert!(!str_starts_with("lib/a.rs", "src"));
}

#[test]
fn filters_by_language_and_prefix() {
    let s = symbol(1, SymbolKind::Function, Language::Python, "src/a.py");
    assert!(passes_filters(&s, None, None));
    assert!(passes_filters(&s, Some(Language::Python), Some("src")));
    assert!(!passes_filters(&s, Some(Language::Rust), None));
    assert!(!passes_filters(&s, None, Some("lib")));
}

#[test]
fn exact_hits_drop_repeats_filter_and_cut() {
    let found = vec![
        symbol(1, SymbolKind::Function, Language::Python, "src/a.py"),
        symbol(2, SymbolKind::Class, Language::Python, "src/b.py"),
        symbol(1, SymbolKind::Function, Language::Python, "src/a.py"),
        symbol(3, SymbolKind::Function, Language::Rust, "src/c.rs"),
        symbol(4, SymbolKind::Function, Language::Python, "src/d.py"),
    ];
    let all = select_exact_hits(&found, Some(Language::Python), None, 10);
    let ids: Vec<u128> = all.iter().map(|s| s.id.0).collect();
    assert_eq!(ids, vec![1, 2, 4]);
    let cut = select_exact_hits(&found, Some(Language::Python), None, 2);
    let ids: Vec<u128> = cut.iter().map(|s| s.id.0).collect();
    assert_eq!(ids, vec![1, 2]);
}

#[test]
fn graph_hits_keep_min_depth_skip_seeds_and_sort() {
    let seeds = vec![SymbolId(99)];
    let hits = vec![hit(30, 2), hit(20, 1), hit(30, 1), hit(99, 1), hit(10, 1), hit(40, 2)];
    let ranked = rank_graph_hits(&seeds, &hits);
    assert_eq!(
        ranked,
        vec![(SymbolId(10), 1), (SymbolId(20), 1), (SymbolId(30), 1), (SymbolId(40), 2)]
    );
}

#[test]
fn graph_hits_empty_when_only_seeds() {
    let seeds = vec![SymbolId(1), SymbolId(2)];
    let hits = vec![hit(1, 1), hit(2, 2)];
    assert!(rank_graph_hits(&seeds, &hits).is_empty());
}

#[test]
fn best_symbol_prefers_types_then_functions() {
    let syms = vec![
        symbol(1, SymbolKind::Variable, Language::Python, "a.py"),
        symbol(2, SymbolKind::Function, Language::Python, "a.py"),
        symbol(3, SymbolKind::Class, Language::Python, "a.py"),
        symbol(4, SymbolKind::Struct, Language::Python, "a.py"),
    ];
    assert_eq!(best_symbol_index(&syms), Some(2));
    assert_eq!(best_symbol_index(&syms[..2]), Some(1));
    assert_eq!(best_symbol_index(&[]), None);
}

#[test]
fn first_rank_of_each_file() {
    let paths: Vec<String> = ["a", "b", "a", "c", "b"].iter().map(|s| s.to_string()).collect();
    let r = first_rank_per_file(&paths);
    assert_eq!(r, vec![("a".to_string(), 0), ("b".to_string(), 1), ("c".to_string(), 3)]);
}

#[test]
fn related_hits_skip_self_and_repeats() {
    let hits = vec![(SymbolId(1), 0), (SymbolId(2), 0), (SymbolId(3), 1), (SymbolId(2), 2)];
    assert_eq!(related_hits(SymbolId(1), &hits, true), vec![(SymbolId(2), 0), (SymbolId(3), 1)]);
    assert_eq!(
        related_hits(SymbolId(1), &hits, false),
        vec![(SymbolId(2), 0), (SymbolId(3), 1), (SymbolId(2), 2)]
    );
}

#[test]
fn limit_capped_at_200() {
    assert_eq!(effective_limit(500), 200);
}

#[test]
fn graph_depth_capped_at_5() {
    assert_eq!(effective_graph_depth(10), 5);
}
