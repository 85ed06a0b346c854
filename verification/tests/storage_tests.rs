use openace::chunk::ChunkId;
use openace::errors::StorageError;
use openace::fulltext::{
    chunk_document_content, chunk_document_key, commit_due, parse_chunk_id_hex, parse_symbol_id_hex, PendingWrites,
    path_tokens, symbol_document_content,
};
use openace::graph::{
    compute_relation_id, decode_neighbor, file_metadata_from_row, incoming_limit, reads_outgoing,
    symbol_from_row, FileRow, KhopTraversal, SymbolRow, TraversalDirection,
};
use openace::language::Language;
use openace::manager::{meta_content, parse_embedding_dim, DEFAULT_VECTOR_DIMENSION};
use openace::relation::{CodeRelation, RelationKind};
use openace::symbol::{SymbolId, SymbolKind};
use openace::text::truncate_utf8_bytes;
use openace::timestamp::{days_to_ymd, format_timestamp, is_leap, now_rfc3339};
use openace::tokenizer::tokenize as code_tokens;
use openace::vector::{decode_key_map, encode_key_map, symbol_id_to_key};

fn tokenize(text: &str) -> Vec<String> {
    code_tokens(text).into_iter().map(|t| t.text.to_lowercase()).collect()
}

#[test]
fn tokenizer_html_parser() {
    assert_eq!(tokenize("HTMLParser"), vec!["html", "parser"]);
}

#[test]
fn tokenizer_parse_xml_stream() {
    assert_eq!(tokenize("parseXMLStream"), vec!["parse", "xml", "stream"]);
}

#[test]
fn tokenizer_dunder_init() {
    assert_eq!(tokenize("__init__"), vec!["init"]);
}

#[test]
fn tokenizer_i18n() {
    assert_eq!(tokenize("i18n"), vec!["i", "18", "n"]);
}

#[test]
fn tokenizer_snake_case() {
    assert_eq!(tokenize("user_service"), vec!["user", "service"]);
}

#[test]
fn tokenizer_pascal_case() {
    assert_eq!(tokenize("MyClassName"), vec!["my", "class", "name"]);
}

#[test]
fn tokenizer_all_upper() {
    assert_eq!(tokenize("HTTP"), vec!["http"]);
}

#[test]
fn tokenizer_mixed_numbers() {
    assert_eq!(tokenize("base64Decode"), vec!["base", "64", "decode"]);
}

#[test]
fn tokenizer_cjk_bigram() {
    assert_eq!(tokenize("识别框"), vec!["识别", "别框"]);
}

#[test]
fn tokenizer_hangul_bigrams() {
    assert_eq!(tokenize("검색엔진"), vec!["검색", "색엔", "엔진"]);
}

#[test]
fn tokenizer_kana_bigrams() {
    assert_eq!(tokenize("けんさく"), vec!["けん", "んさ", "さく"]);
    assert_eq!(tokenize("カタカナ"), vec!["カタ", "タカ", "カナ"]);
}

#[test]
fn tokenizer_cjk_single_char() {
    assert_eq!(tokenize("框"), vec!["框"]);
}

#[test]
fn tokenizer_cjk_two_chars() {
    assert_eq!(tokenize("识别"), vec!["识别"]);
}

#[test]
fn tokenizer_mixed_ascii_cjk() {
    assert_eq!(tokenize("box识别框detect"), vec!["box", "识别", "别框", "detect"]);
}

#[test]
fn tokenizer_cjk_in_comment() {
    assert_eq!(
        tokenize("# 不相交直接退出检测"),
        vec!["不相", "相交", "交直", "直接", "接退", "退出", "出检", "检测"]
    );
}

#[test]
fn tokenizer_cjk_mixed_with_snake_case() {
    assert_eq!(
        tokenize("calculate_iou # 计算交集"),
        vec!["calculate", "iou", "计算", "算交", "交集"]
    );
}

#[test]
fn tokenizer_offsets_and_positions() {
    let toks = code_tokens("getHTTPResponse");
    let texts: Vec<&str> = toks.iter().map(|t| t.text.as_str()).collect();
    assert_eq!(texts, vec!["get", "HTTP", "Response"]);
    assert_eq!((toks[1].offset_from, toks[1].offset_to), (3, 7));
    assert_eq!(toks[2].position, 2);
    assert!(code_tokens("").is_empty());
}

#[test]
fn symbol_id_hex_round_trip() {
    let id = SymbolId(0xDEAD_BEEF_CAFE_BABE_1234_5678_9ABC_DEF0);
    let hex = id.to_hex();
    let parsed = parse_symbol_id_hex(&hex).unwrap();
    assert_eq!(parsed, id);
}

#[test]
fn chunk_id_hex_round_trip() {
    let id = ChunkId(0xDEAD_BEEF_CAFE_BABE_1234_5678_9ABC_DEF0);
    let hex = format!("c:{}", id.to_hex());
    let parsed = parse_chunk_id_hex(&hex).unwrap();
    assert_eq!(parsed, id);
    assert_eq!(chunk_document_key(id), hex);
}

#[test]
fn id_hex_parsing_rejects_malformed_keys() {
    assert_eq!(parse_symbol_id_hex("+ff"), Some(SymbolId(255)));
    assert_eq!(parse_symbol_id_hex("xyz"), None);
    assert_eq!(parse_symbol_id_hex(""), None);
    assert_eq!(parse_symbol_id_hex("1ffffffffffffffffffffffffffffffff"), None);
    assert_eq!(parse_chunk_id_hex("deadbeef"), None);
    assert_eq!(parse_chunk_id_hex("c:"), None);
    assert_eq!(parse_chunk_id_hex("c:10"), Some(ChunkId(16)));
}

#[test]
fn truncate_utf8_on_boundary() {
    assert_eq!(truncate_utf8_bytes("hello", 3), "hel");
    assert_eq!(truncate_utf8_bytes("hello", 100), "hello");
    assert_eq!(truncate_utf8_bytes("café", 4), "caf");
    assert_eq!(truncate_utf8_bytes("café", 5), "café");
}

#[test]
fn path_tokens_split_on_separators() {
    assert_eq!(path_tokens("src/my_module/data-loader.py"), "src my module data loader py");
    assert_eq!(path_tokens("a\\\\b..c"), "a b c");
    assert_eq!(path_tokens(""), "");
    assert_eq!(path_tokens("/_-."), "");
}

#[test]
fn document_contents() {
    assert_eq!(
        symbol_document_content("src/a.py", Some("Docs here"), Some("def a(): pass")),
        "src a py Docs here def a(): pass"
    );
    assert_eq!(symbol_document_content("a.py", None, None), "a py  ");
    let big = "x".repeat(20_000);
    let c = symbol_document_content("a.py", None, Some(&big));
    assert_eq!(c.len(), "a py  ".len() + 10_240);
    assert_eq!(chunk_document_content("lib/m.rs", "m.Foo", "fn f() {}"), "lib m rs m.Foo fn f() {}");
}

#[test]
fn commit_thresholds() {
    assert!(commit_due(500, 0));
    assert!(!commit_due(499, 499));
    assert!(commit_due(0, 500));
}

#[test]
fn relation_id_matches_its_text() {
    let rel = CodeRelation {
        source_id: SymbolId(1),
        target_id: SymbolId(0xab),
        kind: RelationKind::Imports,
        file_path: "src/a.py".to_string(),
        line: 12,
    };
    let text = format!("{:032x}|{:032x}|1|src/a.py|12", 1u128, 0xabu128);
    assert_eq!(compute_relation_id(&rel), xxhash_rust::xxh3::xxh3_128(text.as_bytes()).to_le_bytes());
}

#[test]
fn neighbor_rows_decode() {
    let blob = 5u128.to_le_bytes();
    assert_eq!(decode_neighbor(&blob, 0), Some((SymbolId(5), RelationKind::Calls)));
    assert_eq!(decode_neighbor(&blob, 256 + 5), Some((SymbolId(5), RelationKind::Contains)));
    assert_eq!(decode_neighbor(&blob, 6), None);
    assert_eq!(decode_neighbor(&blob[..15], 0), None);
}

fn symbol_row(id: Vec<u8>, kind: i64, language: i64) -> SymbolRow {
    SymbolRow {
        id,
        name: "f".to_string(),
        qualified_name: "m.f".to_string(),
        kind,
        language,
        file_path: "m.py".to_string(),
        line_start: 1,
        line_end: 3,
        byte_start: 10,
        byte_end: 40,
        signature: Some("def f()".to_string()),
        doc_comment: None,
        body_hash: -1,
    }
}

#[test]
fn symbol_rows_decode() {
    let s = symbol_from_row(symbol_row(7u128.to_le_bytes().to_vec(), 1, 3)).unwrap();
    assert_eq!(s.id, SymbolId(7));
    assert_eq!(s.kind, SymbolKind::Method);
    assert_eq!(s.language, Language::Rust);
    assert_eq!(s.byte_range, 10..40);
    assert_eq!(s.line_range, 1..3);
    assert_eq!(s.body_hash, u64::MAX);
    assert_eq!(s.body_text, None);
    match symbol_from_row(symbol_row(vec![1, 2, 3], 1, 3)) {
        Err(StorageError::TransactionFailed { reason }) => assert_eq!(reason, "invalid symbol id length: 3"),
        other => panic!("unexpected {:?}", other),
    }
    match symbol_from_row(symbol_row(7u128.to_le_bytes().to_vec(), -3, 3)) {
        Err(StorageError::TransactionFailed { reason }) => assert_eq!(reason, "invalid symbol kind ordinal: -3"),
        other => panic!("unexpected {:?}", other),
    }
    match symbol_from_row(symbol_row(7u128.to_le_bytes().to_vec(), 1, 9)) {
        Err(StorageError::TransactionFailed { reason }) => assert_eq!(reason, "invalid language ordinal: 9"),
        other => panic!("unexpected {:?}", other),
    }
}

#[test]
fn file_rows_decode() {
    let row = FileRow {
        path: "a.go".to_string(),
        content_hash: 42,
        language: 4,
        size_bytes: 100,
        symbol_count: 3,
        last_indexed: "t1".to_string(),
        last_modified: "t2".to_string(),
    };
    let m = file_metadata_from_row(row).unwrap();
    assert_eq!(m.language, Language::Go);
    assert_eq!(m.content_hash, 42);
    assert_eq!(m.symbol_count, 3);
}

#[test]
fn neighbor_lookup_limits() {
    assert!(reads_outgoing(TraversalDirection::Outgoing));
    assert!(reads_outgoing(TraversalDirection::Both));
    assert!(!reads_outgoing(TraversalDirection::Incoming));
    assert_eq!(incoming_limit(TraversalDirection::Outgoing, 10, 0), 0);
    assert_eq!(incoming_limit(TraversalDirection::Both, 10, 4), 6);
    assert_eq!(incoming_limit(TraversalDirection::Both, 10, 14), 0);
    assert_eq!(incoming_limit(TraversalDirection::Incoming, 10, 0), 10);
}

fn run_khop(edges: &[(u128, u128)], start: u128, depth: u32) -> Vec<(u128, u32)> {
    let mut t = KhopTraversal::new(SymbolId(start), depth);
    let mut lookups = 0;
    while let Some(node) = t.next_node() {
        lookups += 1;
        assert!(lookups < 1000);
        let nbs: Vec<(SymbolId, RelationKind)> = edges
            .iter()
            .filter(|(s, _)| *s == node.0)
            .map(|(_, d)| (SymbolId(*d), RelationKind::Calls))
            .collect();
        t.feed(&nbs);
    }
    t.into_hits().iter().map(|h| (h.symbol_id.0, h.depth)).collect()
}

#[test]
fn khop_traversal_handles_cycles() {
    let edges = [(1, 2), (2, 3), (3, 1), (3, 4)];
    assert_eq!(run_khop(&edges, 1, 3), vec![(2, 1), (3, 2), (4, 3)]);
    assert_eq!(run_khop(&edges, 1, 1), vec![(2, 1)]);
    assert_eq!(run_khop(&edges, 1, 0), vec![]);
}

#[test]
fn khop_depth_is_capped_at_five() {
    let edges: Vec<(u128, u128)> = (0..10).map(|i| (i, i + 1)).collect();
    let hits = run_khop(&edges, 0, 9);
    assert_eq!(hits.len(), 5);
    assert_eq!(hits.last(), Some(&(5, 5)));
}

#[test]
fn khop_breadth_first_order() {
    let edges = [(1, 2), (1, 3), (2, 4), (3, 4), (3, 5)];
    assert_eq!(run_khop(&edges, 1, 2), vec![(2, 1), (3, 1), (4, 2), (5, 2)]);
}

#[test]
fn vector_keys_use_low_bits() {
    assert_eq!(symbol_id_to_key(SymbolId(0xDEAD_BEEF_CAFE_BABE_1234_5678_9ABC_DEF0)), 0x1234_5678_9ABC_DEF0);
}

#[test]
fn key_map_round_trip() {
    let entries = vec![
        (0x1234_5678_9ABC_DEF0u64, SymbolId(0xDEAD_BEEF_CAFE_BABE_1234_5678_9ABC_DEF0)),
        (7, SymbolId(7)),
    ];
    let bytes = encode_key_map(&entries);
    assert_eq!(bytes.len(), 8 + 24 * 2);
    assert_eq!(&bytes[0..8], &2u64.to_le_bytes());
    assert_eq!(&bytes[16..24], &0x1234_5678_9ABC_DEF0u64.to_le_bytes());
    assert_eq!(&bytes[24..32], &0xDEAD_BEEF_CAFE_BABEu64.to_le_bytes());
    assert_eq!(decode_key_map(&bytes).unwrap(), entries);
}

#[test]
fn key_map_rejects_bad_sizes() {
    match decode_key_map(&[1, 2, 3]) {
        Err(StorageError::VectorIndexUnavailable { reason }) => assert_eq!(reason, "keymap file too short"),
        other => panic!("unexpected {:?}", other),
    }
    let mut bytes = encode_key_map(&[(1, SymbolId(1))]);
    bytes.push(0);
    match decode_key_map(&bytes) {
        Err(StorageError::VectorIndexUnavailable { reason }) => assert_eq!(reason, "keymap file size mismatch"),
        other => panic!("unexpected {:?}", other),
    }
    assert_eq!(decode_key_map(&0u64.to_le_bytes()).unwrap(), vec![]);
}

#[test]
fn embedding_dimension_from_metadata() {
    assert_eq!(parse_embedding_dim("{\"embedding_dim\": 768}\n"), 768);
    assert_eq!(parse_embedding_dim("{\"embedding_dim\":\t\n 1024, \"x\": 1}"), 1024);
    assert_eq!(parse_embedding_dim("{\"embedding_dim\": 0}"), DEFAULT_VECTOR_DIMENSION);
    assert_eq!(parse_embedding_dim("{\"embedding_dim\": \"768\"}"), DEFAULT_VECTOR_DIMENSION);
    assert_eq!(parse_embedding_dim("{}"), 384);
    assert_eq!(parse_embedding_dim("{\"embedding_dim\": 99999999999999999999999}"), 384);
    assert_eq!(parse_embedding_dim(&meta_content(512)), 512);
    assert_eq!(meta_content(384), "{\"embedding_dim\": 384}\n");
}

#[test]
fn civil_dates_from_days() {
    assert_eq!(days_to_ymd(0), (1970, 1, 1));
    assert_eq!(days_to_ymd(31), (1970, 2, 1));
    assert_eq!(days_to_ymd(365), (1971, 1, 1));
    assert_eq!(days_to_ymd(789), (1972, 2, 29));
    assert_eq!(days_to_ymd(10957), (2000, 1, 1));
    assert_eq!(days_to_ymd(11016), (2000, 2, 29));
    assert!(is_leap(2000));
    assert!(!is_leap(1900));
    assert!(is_leap(2024));
}

#[test]
fn timestamps_are_formatted() {
    assert_eq!(format_timestamp(0), "1970-01-01T00:00:00Z");
    assert_eq!(format_timestamp(1_705_314_600), "2024-01-15T10:30:00Z");
    assert_eq!(format_timestamp(951_782_399), "2000-02-28T23:59:59Z");
    assert_eq!(now_rfc3339().len(), 20);
}

#[test]
fn khop_traversal_with_cycle() {
    // A -> B -> C -> A
    let (a, b, c) = (10u128, 20u128, 30u128);
    let hits = run_khop(&[(a, b), (b, c), (c, a)], a, 3);
    let ids: Vec<u128> = hits.iter().map(|h| h.0).collect();
    assert!(ids.contains(&b));
    assert!(ids.contains(&c));
    assert!(!ids.contains(&a));
}

#[test]
fn tokens_are_substrings_at_increasing_offsets() {
    let text = "box识别框detect_HTMLParser 검색 i18n";
    let toks = code_tokens(text);
    let mut last: Option<usize> = None;
    for t in &toks {
        assert!(t.offset_from < t.offset_to && t.offset_to <= text.len());
        assert_eq!(&text[t.offset_from..t.offset_to], t.text.as_str());
        if let Some(l) = last {
            assert!(l < t.offset_from);
        }
        last = Some(t.offset_from);
    }
    assert_eq!(toks.len(), 10);
}

#[test]
fn pending_writes_commit_at_threshold() {
    let mut p = PendingWrites::new();
    for _ in 0..499 {
        assert!(!p.record_write(0));
    }
    assert_eq!(p.count(), 499);
    assert!(p.record_write(0));
    assert_eq!(p.count(), 500);
    p.committed();
    assert_eq!(p.count(), 0);
    assert!(p.record_write(500));
    assert!(!p.record_write(499));
}

#[test]
fn stream_stays_exhausted() {
    let mut s = openace::tokenizer::CodeTokenStream::new("ab");
    assert!(s.advance());
    assert_eq!(s.token().text, "ab");
    assert!(!s.advance());
    assert!(!s.advance());
    assert_eq!(s.emitted(), 1);
}
