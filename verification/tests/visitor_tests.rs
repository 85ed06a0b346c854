use openace::comments::{comment_lines, join_newlines};
use openace::errors::ParserError;
use openace::language::Language;
use openace::python::docstring_text;
use openace::rust_lang::name_before_generics;
use openace::relation::RelationKind;
use openace::symbol::{SymbolId, SymbolKind};
use openace::text::trim_str;
use openace::typescript::unquote;
use openace::parser::ParserRegistry;
use openace::visitor::{grammar_kind, parse_file, parse_file_with_tree, Grammar};

#[test]
fn docstring_quotes_are_stripped_then_trimmed() {
    assert_eq!(docstring_text("\"\"\"  Hello there \"\"\""), "Hello there");
    assert_eq!(docstring_text("'''x'''"), "x");
    assert_eq!(docstring_text("'single'"), "single");
    assert_eq!(docstring_text("\"\"\""), "\"");
    assert_eq!(docstring_text("plain"), "plain");
}

#[test]
fn trim_drops_unicode_whitespace() {
    assert_eq!(trim_str("  a b \n"), "a b");
    assert_eq!(trim_str("\u{3000}x\u{a0}"), "x");
    assert_eq!(trim_str("   "), "");
}

#[test]
fn module_specifier_unquoted() {
    assert_eq!(unquote("'./mod'"), "./mod");
    assert_eq!(unquote("\"\"x\"'"), "x");
    assert_eq!(unquote("''"), "");
}

#[test]
fn block_comment_lines_cleaned() {
    let lines = comment_lines("/**\n * Hello\n *\n * World\n */", "/**");
    assert_eq!(lines, vec!["Hello".to_string(), "World".to_string()]);
    assert_eq!(join_newlines(&lines), "Hello\nWorld");
    let go = comment_lines("/* one\r\n   ** two */", "/*");
    assert_eq!(go, vec!["one".to_string(), "two".to_string()]);
}

#[test]
fn grammar_choice_by_extension() {
    assert_eq!(grammar_kind(Language::TypeScript, "tsx"), Grammar::Tsx);
    assert_eq!(grammar_kind(Language::TypeScript, "ts"), Grammar::TypeScript);
    assert_eq!(grammar_kind(Language::JavaScript, "js"), Grammar::Tsx);
    assert_eq!(grammar_kind(Language::Go, "go"), Grammar::Go);
}

#[test]
fn parse_keeps_tree_and_source() {
    let src = "def f():\n    return 1\n";
    let out = parse_file_with_tree("r", "m.py", src.as_bytes(), src.len() as u64).unwrap();
    assert_eq!(out.source, src);
    assert_eq!(out.language, Language::Python);
    assert_eq!(out.tree.kind, "module");
    assert!(out.tree.end_byte <= src.len());
    assert_eq!(out.output.symbols[0].kind, SymbolKind::Module);
    assert_eq!(out.output.symbols[0].name, "m");
}

#[test]
fn parse_errors_by_stage() {
    assert!(matches!(parse_file("r", "a.py", b"x", 2_000_000), Err(ParserError::FileTooLarge { .. })));
    assert!(matches!(parse_file("r", "a.py", b"\x00x", 2), Err(ParserError::InvalidEncoding { .. })));
    assert!(matches!(parse_file("r", "a.py", &[0xff, 0xfe], 2), Err(ParserError::InvalidEncoding { .. })));
    assert!(matches!(parse_file("r", "a.txt", b"x", 1), Err(ParserError::UnsupportedLanguage { .. })));
}

#[test]
fn typescript_jsdoc_attached() {
    let src = "/** Greets someone. */\nfunction greet(name: string): string { return name; }\n";
    let out = parse_file("r", "src/greet.ts", src.as_bytes(), src.len() as u64).unwrap();
    let f = out.symbols.iter().find(|s| s.name == "greet" && s.kind == SymbolKind::Function).unwrap();
    assert_eq!(f.doc_comment.as_deref(), Some("Greets someone."));
    // The return-type node holds its own colon, and the signature adds one.
    assert_eq!(f.signature.as_deref(), Some("function greet(name: string): : string"));
}

#[test]
fn rust_doc_comment_skips_attributes() {
    let src = "/// Adds two numbers.\n#[inline]\nfn add(a: i32, b: i32) -> i32 { a + b }\n";
    let out = parse_file("r", "src/math.rs", src.as_bytes(), src.len() as u64).unwrap();
    let f = out.symbols.iter().find(|s| s.name == "add").unwrap();
    assert_eq!(f.doc_comment.as_deref(), Some("Adds two numbers."));
    assert_eq!(f.signature.as_deref(), Some("fn add(a: i32, b: i32) -> i32"));
}

#[test]
fn rust_impl_trait_relates_phantoms() {
    let src = "struct Foo;\nimpl Display<T> for Foo<T> {\n    fn fmt(&self) {}\n}\n";
    let out = parse_file("r", "src/shapes.rs", src.as_bytes(), src.len() as u64).unwrap();
    let imp = out.relations.iter().find(|r| r.kind == RelationKind::Implements).unwrap();
    assert_eq!(imp.source_id, SymbolId::generate("", "", "shapes.Foo", 0, 0));
    assert_eq!(imp.target_id, SymbolId::generate("", "", "Display", 0, 0));
    let m = out.symbols.iter().find(|s| s.name == "fmt").unwrap();
    assert_eq!(m.qualified_name, "shapes.Foo.fmt");
    assert_eq!(m.kind, SymbolKind::Method);
}

#[test]
fn go_doc_comment_lines() {
    let src = "package main\n\n// Hello says hi\n// twice.\nfunc Hello() {}\n";
    let out = parse_file("r", "main.go", src.as_bytes(), src.len() as u64).unwrap();
    let f = out.symbols.iter().find(|s| s.name == "Hello").unwrap();
    assert_eq!(f.doc_comment.as_deref(), Some("Hello says hi\ntwice."));
}

#[test]
fn go_method_scoped_by_receiver() {
    let src = "package svc\n\ntype Server struct{}\n\nfunc (s *Server) Start() {}\n";
    let out = parse_file("r", "svc.go", src.as_bytes(), src.len() as u64).unwrap();
    let m = out.symbols.iter().find(|s| s.name == "Start").unwrap();
    assert_eq!(m.qualified_name, "svc.Server.Start");
    assert_eq!(m.kind, SymbolKind::Method);
}

#[test]
fn java_javadoc_attached() {
    let src = "/** A service. */\npublic class Svc {\n    void run() { helper.go(); }\n}\n";
    let out = parse_file("r", "Svc.java", src.as_bytes(), src.len() as u64).unwrap();
    let c = out.symbols.iter().find(|s| s.name == "Svc" && s.kind == SymbolKind::Class).unwrap();
    assert_eq!(c.doc_comment.as_deref(), Some("A service."));
    let call = out.relations.iter().find(|r| r.kind == RelationKind::Calls).unwrap();
    assert_eq!(call.target_id, SymbolId::generate("", "", "helper.go", 0, 0));
}

#[test]
fn python_relations_come_from_extracted_symbols() {
    let src = "import os\nclass A(B):\n    def m(self):\n        os.path.join()\n";
    let out = parse_file("r", "pkg/mod.py", src.as_bytes(), src.len() as u64).unwrap();
    for r in &out.relations {
        assert!(out.symbols.iter().any(|s| s.id == r.source_id));
        assert_eq!(r.file_path, "pkg/mod.py");
    }
    let call = out.relations.iter().find(|r| r.kind == RelationKind::Calls).unwrap();
    assert_eq!(call.target_id, SymbolId::generate("", "", "os.path.join", 0, 0));
}

#[test]
fn generic_arguments_are_cut_from_names() {
    assert_eq!(name_before_generics(" Display<T> "), "Display");
    assert_eq!(name_before_generics("Vec<Box<u8>>"), "Vec");
    assert_eq!(name_before_generics("  Plain "), "Plain");
}

#[test]
fn every_symbol_but_the_module_is_contained() {
    let files: [(&str, &str); 5] = [
        ("m.py", "class A:\n    def f(self):\n        pass\nX = 1\n"),
        ("m.ts", "interface I {}\nclass C { m() {} }\nenum E { A }\n"),
        ("m.rs", "struct S;\nimpl S { fn f(&self) {} }\nconst K: u8 = 1;\n"),
        ("m.go", "package m\n\ntype T struct{}\n\nfunc (t T) F() {}\n"),
        ("M.java", "class M { int x; void f() {} enum E { A } }\n"),
    ];
    for (path, src) in files {
        let out = parse_file("r", path, src.as_bytes(), src.len() as u64).unwrap();
        assert!(out.symbols.len() > 1, "{path}");
        for s in &out.symbols {
            let q = &s.qualified_name;
            assert!(q == &s.name || q.ends_with(&format!(".{}", s.name)), "{path}: {q} does not end in {}", s.name);
        }
        for (i, s) in out.symbols.iter().enumerate().skip(1) {
            let earlier = |id: SymbolId| out.symbols[..i].iter().any(|e| e.id == id);
            let phantom = |id: SymbolId| out.symbols.iter().all(|e| e.id != id);
            assert!(
                out.relations
                    .iter()
                    .any(|r| r.kind == RelationKind::Contains && r.target_id == s.id && (earlier(r.source_id) || phantom(r.source_id))),
                "{path}: {} is not contained",
                s.qualified_name
            );
        }
    }
}

#[test]
fn all_languages_have_grammars() {
    let cases = [
        (Language::Python, "py"),
        (Language::TypeScript, "ts"),
        (Language::TypeScript, "tsx"),
        (Language::JavaScript, "js"),
        (Language::JavaScript, "jsx"),
        (Language::Rust, "rs"),
        (Language::Go, "go"),
        (Language::Java, "java"),
    ];
    for (lang, ext) in cases {
        let _grammar = ParserRegistry::grammar_for_extension(lang, ext);
    }
}

#[test]
fn tsx_gets_tsx_grammar() {
    let ts = ParserRegistry::grammar_for_extension(Language::TypeScript, "ts");
    let tsx = ParserRegistry::grammar_for_extension(Language::TypeScript, "tsx");
    let _ = (ts, tsx);
    assert_eq!(grammar_kind(Language::TypeScript, "tsx"), Grammar::Tsx);
    assert_eq!(grammar_kind(Language::TypeScript, "ts"), Grammar::TypeScript);
}
