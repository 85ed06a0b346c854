use openace::errors::{RetrievalError, StorageError};
use openace::language::Language;
use openace::retrieval::{context_limits, snippet_of, sort_chain_nodes, symbol_to_chain_node, CallChainNode};
use openace::symbol::{CodeSymbol, SymbolId, SymbolKind};

fn rust_symbol(qname: &str, body: Option<&str>) -> CodeSymbol {
    CodeSymbol {
        id: SymbolId(3),
        name: "f".to_string(),
        qualified_name: qname.to_string(),
        kind: SymbolKind::Function,
        language: Language::Rust,
        file_path: "src/lib.rs".to_string(),
        byte_range: 0..10,
        line_range: 4..9,
        signature: Some("fn f()".to_string()),
        doc_comment: None,
        body_hash: 1,
        body_text: body.map(|b| b.to_string()),
    }
}

#[test]
fn chain_node_uses_native_names_and_snippets() {
    let node = symbol_to_chain_node(&rust_symbol("crate.util.f", Some("fn f() {\r\n  1\r\n}\r\n")), 2);
    assert_eq!(node.qualified_name, "crate::util::f");
    assert_eq!(node.depth, 2);
    assert_eq!(node.line_range, (4, 9));
    assert_eq!(node.snippet.as_deref(), Some("fn f() {\n  1\n}"));
    let bare = symbol_to_chain_node(&rust_symbol("f", None), 0);
    assert!(bare.snippet.is_none());
}

#[test]
fn snippets_keep_fifty_lines() {
    let text: String = (0..60).map(|i| format!("line{i}\n")).collect();
    let snippet = snippet_of(&text);
    assert_eq!(snippet.lines().count(), 50);
    assert!(snippet.ends_with("line49"));
    assert_eq!(snippet_of(""), "");
    assert_eq!(snippet_of("a\n\nb"), "a\n\nb");
    assert_eq!(snippet_of("a\rb\r"), "a\rb\r");
}

fn node(qname: &str, depth: u32, id: u128) -> CallChainNode {
    let mut n = symbol_to_chain_node(&rust_symbol(qname, None), depth);
    n.symbol_id = SymbolId(id);
    n
}

#[test]
fn chain_nodes_sort_by_depth_then_name() {
    let nodes = vec![node("b", 2, 1), node("a", 2, 2), node("z", 1, 3), node("a", 2, 4)];
    let sorted = sort_chain_nodes(&nodes);
    let ids: Vec<u128> = sorted.iter().map(|n| n.symbol_id.0).collect();
    assert_eq!(ids, vec![3, 2, 4, 1]);
}

#[test]
fn function_context_limits() {
    assert_eq!(context_limits(10, 1000), (5, 200, 2));
    assert_eq!(context_limits(1, 7), (1, 7, 1));
}

#[test]
fn retrieval_error_retryability() {
    let busy = StorageError::Sqlite { busy: true, corrupt: false, message: "locked".into() };
    assert!(RetrievalError::Storage(busy).is_retryable());
    assert!(!RetrievalError::QueryFailed { reason: "q".into() }.is_retryable());
}
