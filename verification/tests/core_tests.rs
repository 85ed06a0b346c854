use openace::chunk::{ChunkId, CodeChunk};
use openace::language::Language;
use openace::qualified_name::QualifiedName;
use openace::relation::RelationKind;
use openace::symbol::{SymbolId, SymbolKind};
use openace::text::truncate_utf8_bytes;

#[test]
fn chunk_id_deterministic() {
    let id1 = ChunkId::generate("repo1", "src/main.py", 100, 200);
    let id2 = ChunkId::generate("repo1", "src/main.py", 100, 200);
    assert_eq!(id1, id2);
}

#[test]
fn chunk_id_changes_on_path_change() {
    let id1 = ChunkId::generate("repo1", "src/a.py", 0, 50);
    let id2 = ChunkId::generate("repo1", "src/b.py", 0, 50);
    assert_ne!(id1, id2);
}

#[test]
fn chunk_id_changes_on_span_change() {
    let id1 = ChunkId::generate("repo1", "src/a.py", 0, 50);
    let id2 = ChunkId::generate("repo1", "src/a.py", 0, 51);
    assert_ne!(id1, id2);
}

#[test]
fn chunk_id_differs_from_symbol_id() {
    let chunk_id = ChunkId::generate("repo1", "src/main.py", 0, 100);
    let symbol_id = SymbolId::generate("repo1", "src/main.py", "some_name", 0, 100);
    assert_ne!(chunk_id.0, symbol_id.0);
}

#[test]
fn chunk_id_bytes_round_trip() {
    let id = ChunkId::generate("repo1", "src/main.rs", 10, 20);
    let bytes = id.as_bytes();
    let id2 = ChunkId::from_bytes(bytes);
    assert_eq!(id, id2);
}

#[test]
fn chunk_id_display_hex() {
    let id = ChunkId(0xDEAD_BEEF_CAFE_BABE_1234_5678_9ABC_DEF0);
    let hex = id.to_hex();
    assert_eq!(hex, "deadbeefcafebabe123456789abcdef0");
}

#[test]
fn content_hash_deterministic() {
    let h1 = CodeChunk::compute_content_hash(b"def foo(): pass");
    let h2 = CodeChunk::compute_content_hash(b"def foo(): pass");
    assert_eq!(h1, h2);
}

#[test]
fn content_hash_differs() {
    let h1 = CodeChunk::compute_content_hash(b"def foo(): pass");
    let h2 = CodeChunk::compute_content_hash(b"def bar(): pass");
    assert_ne!(h1, h2);
}

#[test]
fn content_hash_is_xxh3_64() {
    assert_eq!(
        CodeChunk::compute_content_hash(b"def foo(): pass"),
        xxhash_rust::xxh3::xxh3_64(b"def foo(): pass")
    );
}

#[test]
fn chunk_id_is_xxh3_128_of_fields() {
    let id = ChunkId::generate("repo1", "src/main.py", 100, 200);
    assert_eq!(id.0, xxhash_rust::xxh3::xxh3_128(b"repo1|src/main.py|chunk|100|200"));
}

#[test]
fn language_extension_mapping() {
    assert_eq!(Language::from_extension("py"), Some(Language::Python));
    assert_eq!(Language::from_extension("ts"), Some(Language::TypeScript));
    assert_eq!(Language::from_extension("tsx"), Some(Language::TypeScript));
    assert_eq!(Language::from_extension("js"), Some(Language::JavaScript));
    assert_eq!(Language::from_extension("jsx"), Some(Language::JavaScript));
    assert_eq!(Language::from_extension("rs"), Some(Language::Rust));
    assert_eq!(Language::from_extension("go"), Some(Language::Go));
    assert_eq!(Language::from_extension("java"), Some(Language::Java));
    assert_eq!(Language::from_extension("txt"), None);
}

#[test]
fn ordinal_round_trip() {
    for n in 0..=5u8 {
        let lang = Language::from_ordinal(n).unwrap();
        assert_eq!(lang.ordinal(), n);
    }
    assert!(Language::from_ordinal(6).is_none());
}

#[test]
fn language_names_and_separators() {
    assert_eq!(Language::Python.name(), "python");
    assert_eq!(Language::TypeScript.name(), "typescript");
    assert_eq!(Language::JavaScript.name(), "javascript");
    assert_eq!(Language::Rust.name(), "rust");
    assert_eq!(Language::Go.name(), "go");
    assert_eq!(Language::Java.name(), "java");
    assert_eq!(Language::Rust.native_separator(), "::");
    assert_eq!(Language::Go.native_separator(), ".");
    assert_eq!(Language::Python.native_separator(), ".");
}

#[test]
fn truncate_utf8_bytes_ascii() {
    assert_eq!(truncate_utf8_bytes("hello", 3), "hel");
    assert_eq!(truncate_utf8_bytes("hello", 100), "hello");
    assert_eq!(truncate_utf8_bytes("hello", 0), "");
}

#[test]
fn truncate_utf8_bytes_multibyte() {
    assert_eq!(truncate_utf8_bytes("café", 4), "caf");
    assert_eq!(truncate_utf8_bytes("café", 5), "café");
    assert_eq!(truncate_utf8_bytes("日本語", 3), "日");
    assert_eq!(truncate_utf8_bytes("日本語", 5), "日");
    assert_eq!(truncate_utf8_bytes("日本語", 6), "日本");
}

#[test]
fn truncate_utf8_bytes_emoji() {
    assert_eq!(truncate_utf8_bytes("🦀rust", 3), "");
    assert_eq!(truncate_utf8_bytes("🦀rust", 4), "🦀");
    assert_eq!(truncate_utf8_bytes("🦀rust", 5), "🦀r");
}

#[test]
fn normalize_rust() {
    assert_eq!(
        QualifiedName::normalize("std::collections::HashMap", Language::Rust),
        "std.collections.HashMap"
    );
}

#[test]
fn normalize_go() {
    assert_eq!(
        QualifiedName::normalize("net/http.Client.Do", Language::Go),
        "net.http.Client.Do"
    );
}

#[test]
fn normalize_python_identity() {
    assert_eq!(
        QualifiedName::normalize("module.Class.method", Language::Python),
        "module.Class.method"
    );
}

#[test]
fn to_native_rust() {
    assert_eq!(
        QualifiedName::to_native("std.collections.HashMap", Language::Rust),
        "std::collections::HashMap"
    );
}

#[test]
fn round_trip_rust() {
    let native = "std::collections::HashMap";
    let canonical = QualifiedName::normalize(native, Language::Rust);
    let back = QualifiedName::to_native(&canonical, Language::Rust);
    assert_eq!(back, native);
}

#[test]
fn join_segments() {
    assert_eq!(QualifiedName::join(&["module", "Class", "method"]), "module.Class.method");
}

#[test]
fn join_no_segments_is_empty() {
    assert_eq!(QualifiedName::join(&[]), "");
    assert_eq!(QualifiedName::join(&["only"]), "only");
}

#[test]
fn relation_kind_ordinal_round_trip() {
    for n in 0..=5u8 {
        let kind = RelationKind::from_ordinal(n).unwrap();
        assert_eq!(kind.ordinal(), n);
    }
    assert!(RelationKind::from_ordinal(6).is_none());
}

#[test]
fn symbol_id_deterministic() {
    let id1 = SymbolId::generate("repo1", "src/main.py", "main.MyClass.run", 100, 200);
    let id2 = SymbolId::generate("repo1", "src/main.py", "main.MyClass.run", 100, 200);
    assert_eq!(id1, id2);
}

#[test]
fn symbol_id_changes_on_path_change() {
    let id1 = SymbolId::generate("repo1", "src/a.py", "a.Foo", 0, 50);
    let id2 = SymbolId::generate("repo1", "src/b.py", "a.Foo", 0, 50);
    assert_ne!(id1, id2);
}

#[test]
fn symbol_id_changes_on_span_change() {
    let id1 = SymbolId::generate("repo1", "src/a.py", "a.Foo", 0, 50);
    let id2 = SymbolId::generate("repo1", "src/a.py", "a.Foo", 0, 51);
    assert_ne!(id1, id2);
}

#[test]
fn symbol_id_bytes_round_trip() {
    let id = SymbolId::generate("repo1", "src/main.rs", "main.foo", 10, 20);
    let bytes = id.as_bytes();
    let id2 = SymbolId::from_bytes(bytes);
    assert_eq!(id, id2);
}

#[test]
fn symbol_id_is_xxh3_128_of_fields() {
    let id = SymbolId::generate("repo1", "src/a.py", "a.Foo", 0, 50);
    assert_eq!(id.0, xxhash_rust::xxh3::xxh3_128(b"repo1|src/a.py|a.Foo|0|50"));
}

#[test]
fn symbol_id_bytes_are_little_endian() {
    let id = SymbolId(0x0102_0304_0506_0708_090A_0B0C_0D0E_0F10);
    assert_eq!(id.as_bytes(), id.0.to_le_bytes());
    assert_eq!(id.to_hex(), "0102030405060708090a0b0c0d0e0f10");
}

#[test]
fn symbol_kind_ordinal_round_trip() {
    for n in 0..=11u8 {
        let kind = SymbolKind::from_ordinal(n).unwrap();
        assert_eq!(kind.ordinal(), n);
    }
    assert!(SymbolKind::from_ordinal(12).is_none());
}

#[test]
fn join_of_concatenation_puts_dot_between() {
    let a = ["pkg", "mod"];
    let b = ["Class", "method"];
    let ab = ["pkg", "mod", "Class", "method"];
    assert_eq!(
        QualifiedName::join(&ab),
        format!("{}.{}", QualifiedName::join(&a), QualifiedName::join(&b))
    );
}
