use openace::chunk::{ChunkId, CodeChunk};
use openace::labels::{file_summary_chunk, kind_to_string, parse_language, relation_kind_to_string};
use openace::language::Language;
use openace::relation::RelationKind;
use openace::symbol::SymbolKind;

#[test]
fn kind_labels() {
    assert_eq!(kind_to_string(SymbolKind::TypeAlias), "type_alias");
    assert_eq!(kind_to_string(SymbolKind::Function), "function");
    assert_eq!(kind_to_string(SymbolKind::Package), "package");
    assert_eq!(relation_kind_to_string(RelationKind::Implements), "implements");
    assert_eq!(relation_kind_to_string(RelationKind::Contains), "contains");
}

#[test]
fn language_names_ignore_case() {
    assert_eq!(parse_language("Python"), Some(Language::Python));
    assert_eq!(parse_language("JAVA"), Some(Language::Java));
    assert_eq!(parse_language("TypeScript"), Some(Language::TypeScript));
    assert_eq!(parse_language("javascript"), Some(Language::JavaScript));
    assert_eq!(parse_language("gO"), Some(Language::Go));
    assert_eq!(parse_language("rust"), Some(Language::Rust));
    assert_eq!(parse_language("golang"), None);
    assert_eq!(parse_language(""), None);
    assert_eq!(parse_language("py"), None);
}

#[test]
fn summary_chunks() {
    let c = file_summary_chunk("repo", "src/a.rs", "Rust", "Parses things.");
    assert_eq!(c.id, ChunkId::generate("repo", "src/a.rs", 0, 0));
    assert_eq!(c.language, Language::Rust);
    assert_eq!(c.file_path, "src/a.rs");
    assert_eq!((c.byte_range.start, c.byte_range.end), (0, 0));
    assert_eq!((c.chunk_index, c.total_chunks), (0, 1));
    assert_eq!(c.context_path, "__file_summary__");
    assert_eq!(c.content, "Parses things.");
    assert_eq!(c.content_hash, CodeChunk::compute_content_hash(b"Parses things."));
    assert_eq!(file_summary_chunk("repo", "x.md", "markdown", "").language, Language::Python);
}
