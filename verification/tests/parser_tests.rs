use openace::chunk::ChunkId;
use openace::chunker::{build_nws_cumsum, chunk_file, nws_size, ChunkConfig, SyntaxNode};
use openace::errors::ParserError;
use openace::language::Language;
use openace::naming::{
    format_import_name, is_constant_name, python_module_name, qualified_name, rust_module_name,
    typescript_module_name,
};
use openace::parser::{
    check_file_size, compute_body_hash, is_binary, prepare_source, ParserRegistry, MAX_FILE_SIZE,
};

fn to_syntax(node: tree_sitter::Node<'_>, field: Option<&str>) -> SyntaxNode {
    let mut children = Vec::new();
    let mut cursor = node.walk();
    if cursor.goto_first_child() {
        loop {
            let child_field = cursor.field_name();
            children.push(to_syntax(cursor.node(), child_field));
            if !cursor.goto_next_sibling() {
                break;
            }
        }
    }
    SyntaxNode {
        kind: node.kind().to_string(),
        field: field.map(|f| f.to_string()),
        start_byte: node.start_byte(),
        end_byte: node.end_byte(),
        start_row: node.start_position().row,
        end_row: node.end_position().row,
        children,
    }
}

fn parse_python(source: &str) -> SyntaxNode {
    let mut parser = tree_sitter::Parser::new();
    let lang: tree_sitter::Language = tree_sitter_python::LANGUAGE.into();
    parser.set_language(&lang).unwrap();
    let tree = parser.parse(source, None).unwrap();
    to_syntax(tree.root_node(), None)
}

#[test]
fn deterministic() {
    let body = b"def foo():\n    return 42\n";
    assert_eq!(compute_body_hash(body), compute_body_hash(body));
}

#[test]
fn different_content_different_hash() {
    let h1 = compute_body_hash(b"def foo(): pass");
    let h2 = compute_body_hash(b"def bar(): pass");
    assert_ne!(h1, h2);
}

#[test]
fn empty_body() {
    let _ = compute_body_hash(b"");
}

#[test]
fn body_hash_is_low_half_of_xxh3_128() {
    let body = b"def foo(): pass";
    assert_eq!(compute_body_hash(body), xxhash_rust::xxh3::xxh3_128(body) as u64);
}

#[test]
fn single_chunk_small_file() {
    let source = "def foo():\n    return 42\n";
    let tree = parse_python(source);
    let config = ChunkConfig::default();
    let chunks = chunk_file("repo", "test.py", source, &tree, Language::Python, &config);

    assert_eq!(chunks.len(), 1);
    assert_eq!(chunks[0].chunk_index, 0);
    assert_eq!(chunks[0].total_chunks, 1);
    assert_eq!(chunks[0].byte_range, 0..source.len());
    assert_eq!(chunks[0].content, source);
    assert_eq!(chunks[0].id, ChunkId::generate("repo", "test.py", 0, source.len()));
}

#[test]
fn multi_chunk_large_file() {
    let mut source = String::new();
    for i in 0..50 {
        source.push_str(&format!(
            "def function_{}():\n    x = {}\n    y = x * 2\n    return y + x\n\n",
            i, i
        ));
    }
    let tree = parse_python(&source);
    let config = ChunkConfig { max_chunk_chars: 200, overlap_nodes: 1 };
    let chunks = chunk_file("repo", "big.py", &source, &tree, Language::Python, &config);

    assert!(chunks.len() > 1, "Expected multiple chunks, got {}", chunks.len());
    for chunk in &chunks {
        assert_eq!(chunk.total_chunks, chunks.len() as u32);
    }
    for (i, chunk) in chunks.iter().enumerate() {
        assert_eq!(chunk.chunk_index, i as u32);
    }
    assert!(chunks.first().unwrap().byte_range.start <= 10);
}

#[test]
fn chunk_content_hash_differs() {
    let mut source = String::new();
    for i in 0..50 {
        source.push_str(&format!("def unique_func_{}():\n    return {}\n\n", i, i * 1000));
    }
    let tree = parse_python(&source);
    let config = ChunkConfig { max_chunk_chars: 200, overlap_nodes: 0 };
    let chunks = chunk_file("repo", "test.py", &source, &tree, Language::Python, &config);
    if chunks.len() >= 2 {
        let hashes: Vec<u64> = chunks.iter().map(|c| c.content_hash).collect();
        let unique: std::collections::HashSet<u64> = hashes.iter().copied().collect();
        assert!(unique.len() > 1, "Expected different content hashes across chunks");
    }
}

#[test]
fn chunk_ids_deterministic() {
    let source = "def foo():\n    pass\ndef bar():\n    pass\n";
    let tree = parse_python(source);
    let config = ChunkConfig::default();
    let chunks1 = chunk_file("repo", "test.py", source, &tree, Language::Python, &config);
    let chunks2 = chunk_file("repo", "test.py", source, &tree, Language::Python, &config);
    assert_eq!(chunks1.len(), chunks2.len());
    for (c1, c2) in chunks1.iter().zip(chunks2.iter()) {
        assert_eq!(c1.id, c2.id);
    }
}

#[test]
fn nws_cumsum_basic() {
    let source = b"  hello  world  ";
    let cumsum = build_nws_cumsum(source);
    assert_eq!(nws_size(&cumsum, 0, source.len()), 10);
    assert_eq!(nws_size(&cumsum, 2, 7), 5);
}

#[test]
fn empty_file_produces_no_chunks() {
    let source = "";
    let tree = parse_python(source);
    let config = ChunkConfig::default();
    let chunks = chunk_file("repo", "empty.py", source, &tree, Language::Python, &config);
    assert_eq!(chunks.len(), 1);
    assert_eq!(chunks[0].content, "");
}

#[test]
fn chunk_config_default() {
    let config = ChunkConfig::default();
    assert_eq!(config.max_chunk_chars, 1500);
    assert_eq!(config.overlap_nodes, 1);
}

#[test]
fn context_path_for_nested_class() {
    let source = "class MyClass:\n    def my_method(self):\n        x = 1\n        y = 2\n        z = 3\n        return x + y + z\n";
    let tree = parse_python(source);
    let config = ChunkConfig { max_chunk_chars: 30, overlap_nodes: 0 };
    let chunks = chunk_file("repo", "test.py", source, &tree, Language::Python, &config);
    let has_class_context = chunks.iter().any(|c| c.context_path.contains("MyClass"));
    assert!(
        has_class_context || chunks.len() == 1,
        "Expected context_path with 'MyClass', chunks: {:?}",
        chunks.iter().map(|c| &c.context_path).collect::<Vec<_>>()
    );
}

#[test]
fn file_within_limit() {
    assert!(check_file_size("test.py", 500_000).is_ok());
}

#[test]
fn file_at_limit() {
    assert!(check_file_size("test.py", MAX_FILE_SIZE).is_ok());
}

#[test]
fn file_over_limit() {
    let err = check_file_size("test.py", MAX_FILE_SIZE + 1).unwrap_err();
    match err {
        ParserError::FileTooLarge { size, max, .. } => {
            assert_eq!(size, MAX_FILE_SIZE + 1);
            assert_eq!(max, MAX_FILE_SIZE);
        }
        _ => panic!("expected FileTooLarge"),
    }
}

#[test]
fn text_content_not_binary() {
    assert!(!is_binary(b"def hello():\n    pass\n"));
}

#[test]
fn binary_content_detected() {
    let mut data = vec![0u8; 100];
    data[50] = 0;
    assert!(is_binary(&data));
}

#[test]
fn null_in_text_is_binary() {
    assert!(is_binary(b"hello\x00world"));
}

#[test]
fn empty_content_not_binary() {
    assert!(!is_binary(b""));
}

#[test]
fn null_after_8kb_not_detected() {
    let mut data = vec![b'a'; 10_000];
    data[9000] = 0;
    assert!(!is_binary(&data));
}

#[test]
fn null_at_last_checked_byte_detected() {
    let mut data = vec![b'a'; 10_000];
    data[8191] = 0;
    assert!(is_binary(&data));
    data[8191] = b'a';
    data[8192] = 0;
    assert!(!is_binary(&data));
}

#[test]
fn registry_extension_mapping() {
    assert_eq!(ParserRegistry::language_for_extension("py"), Some(Language::Python));
    assert_eq!(ParserRegistry::language_for_extension("ts"), Some(Language::TypeScript));
    assert_eq!(ParserRegistry::language_for_extension("tsx"), Some(Language::TypeScript));
    assert_eq!(ParserRegistry::language_for_extension("js"), Some(Language::JavaScript));
    assert_eq!(ParserRegistry::language_for_extension("jsx"), Some(Language::JavaScript));
    assert_eq!(ParserRegistry::language_for_extension("rs"), Some(Language::Rust));
    assert_eq!(ParserRegistry::language_for_extension("go"), Some(Language::Go));
    assert_eq!(ParserRegistry::language_for_extension("java"), Some(Language::Java));
    assert_eq!(ParserRegistry::language_for_extension("txt"), None);
}

#[test]
fn prepare_source_checks_in_order() {
    assert!(matches!(prepare_source("a.py", b"x = 1", 5), Ok(("x = 1", Language::Python))));
    assert!(matches!(
        prepare_source("a.py", b"x", MAX_FILE_SIZE + 1),
        Err(ParserError::FileTooLarge { size, .. }) if size == MAX_FILE_SIZE + 1
    ));
    assert!(matches!(prepare_source("a.py", b"x\x00", 2), Err(ParserError::InvalidEncoding { .. })));
    assert!(matches!(prepare_source("a.py", b"\xff\xfe", 2), Err(ParserError::InvalidEncoding { .. })));
    assert!(matches!(prepare_source("a.txt", b"x", 1), Err(ParserError::UnsupportedLanguage { .. })));
    assert!(matches!(prepare_source("Makefile", b"x", 1), Err(ParserError::UnsupportedLanguage { .. })));
}

#[test]
fn qualified_names_and_imports() {
    assert_eq!(qualified_name(&["mod", "Class"], "method"), "mod.Class.method");
    assert_eq!(qualified_name(&[], "top"), "top");
    assert_eq!(format_import_name("", "os"), "os");
    assert_eq!(format_import_name("os", "path"), "os.path");
}

#[test]
fn constant_names() {
    assert!(is_constant_name("MAX_SIZE"));
    assert!(is_constant_name("A1"));
    assert!(!is_constant_name("_1"));
    assert!(!is_constant_name("MaxSize"));
    assert!(!is_constant_name(""));
}

#[test]
fn module_names_from_paths() {
    assert_eq!(python_module_name("pkg/mod.py"), "mod");
    assert_eq!(python_module_name("pkg/__init__.py"), "pkg");
    assert_eq!(python_module_name("__init__.py"), "module");
    assert_eq!(rust_module_name("src/lib.rs"), "src");
    assert_eq!(rust_module_name("src/parser/mod.rs"), "parser");
    assert_eq!(rust_module_name("main.rs"), "main");
    assert_eq!(rust_module_name("src/util.rs"), "util");
    assert_eq!(typescript_module_name("app/index.ts"), "app");
    assert_eq!(typescript_module_name("index.ts"), "module");
    assert_eq!(typescript_module_name("app/button.tsx"), "button");
    assert_eq!(python_module_name(".hidden"), ".hidden");
    assert_eq!(python_module_name("a/b.tar.gz"), "b.tar");
}

fn leaf(start: usize, end: usize) -> SyntaxNode {
    SyntaxNode {
        kind: "identifier".to_string(),
        field: None,
        start_byte: start,
        end_byte: end,
        start_row: 0,
        end_row: 0,
        children: Vec::new(),
    }
}

fn root_of(len: usize, children: Vec<SyntaxNode>) -> SyntaxNode {
    SyntaxNode {
        kind: "module".to_string(),
        field: None,
        start_byte: 0,
        end_byte: len,
        start_row: 0,
        end_row: 0,
        children,
    }
}

#[test]
fn overlap_carry_respects_budget() {
    let source = "aaaa bbbbb ccccc";
    let tree = root_of(source.len(), vec![leaf(0, 4), leaf(5, 10), leaf(11, 16)]);
    let config = ChunkConfig { max_chunk_chars: 9, overlap_nodes: 1 };
    let chunks = chunk_file("repo", "t.txt", source, &tree, Language::Python, &config);
    let ranges: Vec<(usize, usize)> = chunks.iter().map(|c| (c.byte_range.start, c.byte_range.end)).collect();
    assert_eq!(ranges, vec![(0, 10), (11, 16)]);
}

#[test]
fn overlap_carry_kept_when_it_fits() {
    let source = "aaaa bbbbb cc";
    let tree = root_of(source.len(), vec![leaf(0, 4), leaf(5, 10), leaf(11, 13)]);
    let config = ChunkConfig { max_chunk_chars: 9, overlap_nodes: 1 };
    let chunks = chunk_file("repo", "t.txt", source, &tree, Language::Python, &config);
    let ranges: Vec<(usize, usize)> = chunks.iter().map(|c| (c.byte_range.start, c.byte_range.end)).collect();
    assert_eq!(ranges, vec![(0, 10), (5, 13)]);
}

#[test]
fn budget_above_u32_range_keeps_single_chunk() {
    let source = "ab cd";
    let tree = root_of(source.len(), vec![leaf(0, 2), leaf(3, 5)]);
    let config = ChunkConfig { max_chunk_chars: (u32::MAX as usize) + 1, overlap_nodes: 0 };
    let chunks = chunk_file("repo", "t.txt", source, &tree, Language::Python, &config);
    assert_eq!(chunks.len(), 1);
    assert_eq!(chunks[0].byte_range, 0..5);
}
