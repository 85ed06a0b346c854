use vstd::prelude::*;
use vstd::utf8::*;
use vstd::string::StringSliceAdditionalSpecFns;
use std::collections::HashSet;
use crate::chunk::CodeChunk;
use crate::chunker::{chunk_file, file_chunks, node_ok, nodes_ok, ChunkConfig, SyntaxNode};
use crate::errors::{spec_parser_error_message, ParserError};
use crate::graph::FileMetadata;
use crate::hashing::{xxh3_128_of, xxh3_64, xxh3_64_of};
use crate::extract::{
    all_contained, contained_at, contains_at, dotted_tail, has_symbol_id, owner_ok, relation_ok, symbol_ok,
};
use crate::parser::MAX_FILE_SIZE;
use crate::report::{count_for, distinct_reasons, record_skip_in, IndexReport};
use crate::text::str_to_string;
use crate::visitor::{file_grammar, node_is, parse_file_with_tree, parse_ready, records_within, ts_flat_of, visitor_holds};
use crate::language::{spec_language_for_extension, Language};
use crate::parser::{is_binary, spec_is_binary, ParserRegistry};
use crate::paths::{path_extension, spec_path_extension};
use crate::relation::{CodeRelation, RelationKind};
use crate::report::SkipReason;
use crate::symbol::{spec_symbol_id, CodeSymbol, SymbolId, SymbolKind};
use crate::text::{chars_of, string_push, truncate_utf8_bytes, truncated_len};

verus! {

broadcast use vstd::std_specs::hash::group_hash_axioms;

/// Bytes of body text kept per symbol (10 KB).
pub const BODY_TEXT_MAX_BYTES: usize = 10240;

/// How a parse failure counts in a full index run: as a skip for this
/// reason, or (`None`) as a failed file.
pub open spec fn spec_skip_for_parse_error(e: ParserError) -> Option<SkipReason> {
    match e {
        ParserError::FileTooLarge { .. } => Some(SkipReason::TooLarge),
        ParserError::InvalidEncoding { .. } => Some(SkipReason::Binary),
        ParserError::UnsupportedLanguage { .. } => Some(SkipReason::UnsupportedLanguage),
        ParserError::ParseFailed { .. } => None,
    }
}

/// How a parse failure counts in a full index run: as a skip for this
/// reason, or (`None`) as a failed file.
pub fn skip_for_parse_error(e: &ParserError) -> (r: Option<SkipReason>)
    ensures
        r == spec_skip_for_parse_error(*e),
{
    match e {
        ParserError::FileTooLarge { .. } => Some(SkipReason::TooLarge),
        ParserError::InvalidEncoding { .. } => Some(SkipReason::Binary),
        ParserError::UnsupportedLanguage { .. } => Some(SkipReason::UnsupportedLanguage),
        ParserError::ParseFailed { .. } => None,
    }
}

/// The language of a file's extension; an absent extension reads as empty.
pub open spec fn spec_extension_language(path: Seq<char>) -> Option<Language> {
    match spec_path_extension(path) {
        Some(e) => spec_language_for_extension(e),
        None => spec_language_for_extension(Seq::empty()),
    }
}

/// The checks a full index run makes on a file's content once it is read:
/// binary content is skipped, then a file whose extension names no language.
pub fn classify_content(rel_path: &str, content: &[u8]) -> (r: Result<Language, SkipReason>)
    ensures
        spec_is_binary(content@) ==> r == Err::<Language, SkipReason>(SkipReason::Binary),
        !spec_is_binary(content@) ==> match spec_extension_language(rel_path@) {
            Some(l) => r == Ok::<Language, SkipReason>(l),
            None => r == Err::<Language, SkipReason>(SkipReason::UnsupportedLanguage),
        },
{
    if is_binary(content) {
        return Err(SkipReason::Binary);
    }
    let lang = match path_extension(rel_path) {
        Some(e) => ParserRegistry::language_for_extension(e.as_str()),
        None => ParserRegistry::language_for_extension(""),
    };
    proof {
        reveal_strlit("");
        assert(""@ =~= Seq::<char>::empty());
    }
    match lang {
        Some(l) => Ok(l),
        None => Err(SkipReason::UnsupportedLanguage),
    }
}

/// The text with every `\` replaced by `/`.
pub open spec fn spec_forward_slashes(s: Seq<char>) -> Seq<char> {
    s.map_values(|c: char| if c == '\\' { '/' } else { c })
}

/// Normalize a path to forward-slash form.
pub fn normalize_path(p: &str) -> (r: String)
    ensures
        r@ == spec_forward_slashes(p@),
{
    let cs = chars_of(p);
    let mut out = String::new();
    let mut i: usize = 0;
    while i < cs.len()
        invariant
            cs@ == p@,
            i <= cs@.len(),
            out@ == spec_forward_slashes(p@.take(i as int)),
        decreases cs@.len() - i,
    {
        let c = cs[i];
        if c == '\\' {
            string_push(&mut out, '/');
        } else {
            string_push(&mut out, c);
        }
        i = i + 1;
        assert(out@ =~= spec_forward_slashes(p@.take(i as int)));
    }
    assert(p@.take(i as int) =~= p@);
    out
}

/// What `String::from_utf8_lossy` makes of a byte sequence: its text, with
/// each invalid sequence replaced by U+FFFD.
pub uninterp spec fn utf8_lossy_of(bytes: Seq<u8>) -> Seq<char>;

/// Calls std's `String::from_utf8_lossy`. Claims that the result is the
/// named decoding of the bytes and, as std documents, that valid UTF-8
/// decodes exactly; the replacement rules are not restated.
#[verifier::external_body]
fn utf8_lossy(bytes: &[u8]) -> (r: String)
    ensures
        r@ == utf8_lossy_of(bytes@),
        valid_utf8(bytes@) ==> r@ == decode_utf8(bytes@),
{
    String::from_utf8_lossy(bytes).into_owned()
}

/// A text cut to at most `max` bytes of UTF-8 on a char boundary.
pub open spec fn capped_text(text: Seq<char>, max: int) -> Seq<char> {
    let b = encode_utf8(text);
    decode_utf8(b.subrange(0, truncated_len(b, max)))
}

/// The body text stored for a symbol spanning `[start, end)` of `source`,
/// where the span (cut at the source's end) is not empty.
pub open spec fn spec_body_text(source: Seq<u8>, start: int, end: int) -> Option<Seq<char>> {
    let e = if end < source.len() { end } else { source.len() as int };
    if start < e {
        Some(capped_text(utf8_lossy_of(source.subrange(start, e)), BODY_TEXT_MAX_BYTES as int))
    } else {
        None
    }
}

fn body_text(source: &[u8], start: usize, end: usize) -> (r: Option<String>)
    ensures
        match spec_body_text(source@, start as int, end as int) {
            Some(t) => r matches Some(s) && s@ == t,
            None => r is None,
        },
{
    let e = if end < source.len() { end } else { source.len() };
    if start < e {
        let body = utf8_lossy(&source[start..e]);
        assert(source@.subrange(start as int, e as int) =~= source@.subrange(start as int, e as int));
        let body_bytes = body.as_str().as_bytes();
        let _len = body_bytes.len();
        let capped = truncate_utf8_bytes(body.as_str(), BODY_TEXT_MAX_BYTES);
        proof {
            broadcast use encode_utf8_decode_utf8;
            assert(capped@ == decode_utf8(capped.spec_bytes()));
        }
        Some(capped.to_owned())
    } else {
        None
    }
}

/// Give each symbol the text of its body in the source (cut to 10 KB on a
/// char boundary) where its byte range, cut at the source's end, is not
/// empty; returns the (ID, text) pairs so given, in order.
pub fn attach_body_texts(symbols: &mut Vec<CodeSymbol>, source: &[u8]) -> (r: Vec<(SymbolId, String)>)
    ensures
        final(symbols)@.len() == old(symbols)@.len(),
        forall|i: int|
            0 <= i < old(symbols)@.len() ==> {
                let before = #[trigger] old(symbols)@[i];
                let after = final(symbols)@[i];
                &&& after.id == before.id
                &&& after.name == before.name
                &&& after.qualified_name == before.qualified_name
                &&& after.kind == before.kind
                &&& after.language == before.language
                &&& after.file_path == before.file_path
                &&& after.byte_range == before.byte_range
                &&& after.line_range == before.line_range
                &&& after.signature == before.signature
                &&& after.doc_comment == before.doc_comment
                &&& after.body_hash == before.body_hash
                &&& match spec_body_text(source@, before.byte_range.start as int, before.byte_range.end as int) {
                    Some(t) => after.body_text matches Some(b) && b@ == t,
                    None => after.body_text == before.body_text,
                }
            },
        pair_views(r@) == body_pairs(old(symbols)@, source@, old(symbols)@.len() as int),
{
    let ghost orig = symbols@;
    let mut out: Vec<(SymbolId, String)> = Vec::new();
    let mut i: usize = 0;
    while i < symbols.len()
        invariant
            symbols@.len() == orig.len(),
            i <= orig.len(),
            forall|j: int| i <= j < orig.len() ==> #[trigger] symbols@[j] == orig[j],
            forall|j: int|
                0 <= j < i ==> {
                    let before = #[trigger] orig[j];
                    let after = symbols@[j];
                    &&& after.id == before.id
                    &&& after.name == before.name
                    &&& after.qualified_name == before.qualified_name
                    &&& after.kind == before.kind
                    &&& after.language == before.language
                    &&& after.file_path == before.file_path
                    &&& after.byte_range == before.byte_range
                    &&& after.line_range == before.line_range
                    &&& after.signature == before.signature
                    &&& after.doc_comment == before.doc_comment
                    &&& after.body_hash == before.body_hash
                    &&& match spec_body_text(source@, before.byte_range.start as int, before.byte_range.end as int) {
                        Some(t) => after.body_text matches Some(b) && b@ == t,
                        None => after.body_text == before.body_text,
                    }
                },
            pair_views(out@) == body_pairs(orig, source@, i as int),
        decreases orig.len() - i,
    {
        let start = symbols[i].byte_range.start;
        let end = symbols[i].byte_range.end;
        match body_text(source, start, end) {
            Some(t) => {
                let id = symbols[i].id;
                let copy = t.clone();
                symbols[i].body_text = Some(t);
                let ghost before = out@;
                out.push((id, copy));
                assert(pair_views(out@) =~= pair_views(before).push((id, copy@)));
            },
            None => {},
        }
        i = i + 1;
    }
    out
}

/// The (ID, text) pairs of body texts, as plain values.
pub open spec fn pair_views(v: Seq<(SymbolId, String)>) -> Seq<(SymbolId, Seq<char>)> {
    v.map_values(|p: (SymbolId, String)| (p.0, p.1@))
}

/// The (ID, body text) pairs of the first `n` symbols that get a body text,
/// in order.
pub open spec fn body_pairs(syms: Seq<CodeSymbol>, source: Seq<u8>, n: int) -> Seq<(SymbolId, Seq<char>)>
    decreases n,
{
    if n <= 0 {
        Seq::empty()
    } else {
        let prev = body_pairs(syms, source, n - 1);
        match spec_body_text(source, syms[n - 1].byte_range.start as int, syms[n - 1].byte_range.end as int) {
            Some(t) => prev.push((syms[n - 1].id, t)),
            None => prev,
        }
    }
}

/// The relations among the first `n` whose source is the ID of one of the
/// symbols, in order.
pub open spec fn known_source_relations(rels: Seq<CodeRelation>, ids: Set<u128>, n: int) -> Seq<CodeRelation>
    decreases n,
{
    if n <= 0 {
        Seq::empty()
    } else {
        let prev = known_source_relations(rels, ids, n - 1);
        if ids.contains(rels[n - 1].source_id.0) { prev.push(rels[n - 1]) } else { prev }
    }
}

/// The IDs of a list of symbols.
pub open spec fn symbol_ids(syms: Seq<CodeSymbol>) -> Set<u128> {
    Set::new(|id: u128| exists|k: int| 0 <= k < syms.len() && (#[trigger] syms[k]).id.0 == id)
}

/// Keep the relations whose source is one of the symbols (their targets may
/// dangle), in order.
pub fn relations_with_known_source(relations: &[CodeRelation], symbols: &[CodeSymbol]) -> (r: Vec<CodeRelation>)
    ensures
        r@ == known_source_relations(relations@, symbol_ids(symbols@), relations@.len() as int),
{
    let mut known: HashSet<u128> = HashSet::new();
    let mut i: usize = 0;
    while i < symbols.len()
        invariant
            i <= symbols@.len(),
            forall|id: u128| #[trigger] known@.contains(id) <==> exists|k: int| 0 <= k < i && (#[trigger] symbols@[k]).id.0 == id,
        decreases symbols@.len() - i,
    {
        known.insert(symbols[i].id.0);
        i = i + 1;
    }
    assert(known@ =~= symbol_ids(symbols@));
    let mut out: Vec<CodeRelation> = Vec::new();
    let mut j: usize = 0;
    while j < relations.len()
        invariant
            j <= relations@.len(),
            known@ == symbol_ids(symbols@),
            out@ == known_source_relations(relations@, symbol_ids(symbols@), j as int),
        decreases relations@.len() - j,
    {
        if known.contains(&relations[j].source_id.0) {
            out.push(relations[j].duplicate());
        }
        j = j + 1;
    }
    out
}


/// A file over 1 MB is skipped before it is read.
pub fn skip_before_read(file_size: u64) -> (r: Option<SkipReason>)
    ensures
        r == if file_size > MAX_FILE_SIZE { Some(SkipReason::TooLarge) } else { None::<SkipReason> },
{
    if file_size > MAX_FILE_SIZE {
        Some(SkipReason::TooLarge)
    } else {
        None
    }
}

proof fn lemma_nodes_ok_all(ch: Seq<SyntaxNode>, b: Seq<u8>)
    requires
        forall|k: int| 0 <= k < ch.len() ==> node_ok(#[trigger] ch[k], b),
    ensures
        nodes_ok(ch, b),
    decreases ch.len(),
{
    if ch.len() > 0 {
        assert forall|k: int| 0 <= k < ch.drop_last().len() implies node_ok(#[trigger] ch.drop_last()[k], b) by {
            assert(ch.drop_last()[k] == ch[k]);
        }
        lemma_nodes_ok_all(ch.drop_last(), b);
    }
}

/// Whether every node of the tree spans bytes of the source, in order and
/// on char boundaries.
pub fn check_node_ok(node: &SyntaxNode, source: &str) -> (r: bool)
    ensures
        r == node_ok(*node, source.spec_bytes()),
    decreases *node,
{
    let n = source.as_bytes().len();
    if !(node.start_byte <= node.end_byte && node.end_byte <= n) {
        return false;
    }
    if !source.is_char_boundary(node.start_byte) || !source.is_char_boundary(node.end_byte) {
        return false;
    }
    let mut i: usize = 0;
    while i < node.children.len()
        invariant
            i <= node.children@.len(),
            node.start_byte <= node.end_byte <= source.spec_bytes().len(),
            forall|k: int| 0 <= k < i ==> node_ok(#[trigger] node.children@[k], source.spec_bytes()),
        decreases node.children@.len() - i,
    {
        if !check_node_ok(&node.children[i], source) {
            proof {
                if node_ok(*node, source.spec_bytes()) {
                    crate::chunker::lemma_nodes_ok_index(node.children@, source.spec_bytes(), i as int);
                }
            }
            return false;
        }
        i = i + 1;
    }
    proof {
        lemma_nodes_ok_all(node.children@, source.spec_bytes());
    }
    true
}

/// A symbol as a full run stores it: as the visitor made it (see
/// `symbol_ok`), with the text of its body where it has one.
pub open spec fn stored_symbol_ok(s: CodeSymbol, repo: Seq<char>, path: Seq<char>, src: Seq<u8>, lang: Language) -> bool {
    &&& s.id.0 == spec_symbol_id(repo, path, s.qualified_name@, s.byte_range.start as nat, s.byte_range.end as nat)
    &&& s.file_path@ == path
    &&& s.language == lang
    &&& s.byte_range.start <= s.byte_range.end <= src.len()
    &&& s.body_hash == xxh3_128_of(src.subrange(s.byte_range.start as int, s.byte_range.end as int)) as u64
    &&& match spec_body_text(src, s.byte_range.start as int, s.byte_range.end as int) {
        Some(t) => s.body_text matches Some(b) && b@ == t,
        None => s.body_text is None,
    }
    &&& dotted_tail(s.qualified_name@, s.name@)
}

/// Lists of symbols with the same IDs, index by index, have the same IDs.
proof fn lemma_same_ids(a: Seq<CodeSymbol>, b: Seq<CodeSymbol>, id: SymbolId)
    requires
        a.len() == b.len(),
        forall|k: int| 0 <= k < a.len() ==> (#[trigger] a[k]).id == b[k].id,
        has_symbol_id(a, id),
    ensures
        has_symbol_id(b, id),
{
    let k = choose|k: int| 0 <= k < a.len() && (#[trigger] a[k]).id == id;
    assert(b[k].id == id);
}

/// Body pairs read only IDs and spans.
proof fn lemma_body_pairs_same(a: Seq<CodeSymbol>, b: Seq<CodeSymbol>, src: Seq<u8>, n: int)
    requires
        0 <= n <= a.len(),
        a.len() == b.len(),
        forall|k: int| 0 <= k < a.len() ==> (#[trigger] a[k]).id == b[k].id && a[k].byte_range == b[k].byte_range,
    ensures
        body_pairs(a, src, n) == body_pairs(b, src, n),
    decreases n,
{
    if n > 0 {
        lemma_body_pairs_same(a, b, src, n - 1);
        assert(a[n - 1].id == b[n - 1].id && a[n - 1].byte_range == b[n - 1].byte_range);
    }
}

/// A file parsed in a full index run.
#[derive(Debug)]
pub struct ParsedFile {
    pub rel_path: String,
    /// The file's symbols, each with its body text.
    pub symbols: Vec<CodeSymbol>,
    pub relations: Vec<CodeRelation>,
    pub chunks: Vec<CodeChunk>,
    /// The (ID, body text) pairs given to the symbols.
    pub bodies: Vec<(SymbolId, String)>,
    pub content_hash: u64,
    pub file_size: u64,
    pub language: Language,
}

/// What a full index run makes of one file.
#[derive(Debug)]
pub enum FileOutcome {
    Parsed(ParsedFile),
    Skipped(SkipReason),
    /// The file's path and why it failed.
    Failed(String, String),
}

/// The symbols `b` are those of `a`, but for their body texts.
pub open spec fn same_but_bodies(a: Seq<CodeSymbol>, b: Seq<CodeSymbol>) -> bool {
    &&& a.len() == b.len()
    &&& forall|i: int|
        0 <= i < a.len() ==> {
            let x = #[trigger] a[i];
            let y = b[i];
            &&& y.id == x.id
            &&& y.name == x.name
            &&& y.qualified_name == x.qualified_name
            &&& y.kind == x.kind
            &&& y.language == x.language
            &&& y.file_path == x.file_path
            &&& y.byte_range == x.byte_range
            &&& y.line_range == x.line_range
            &&& y.signature == x.signature
            &&& y.doc_comment == x.doc_comment
            &&& y.body_hash == x.body_hash
        }
}

/// A parsed file is what the visitor and the chunker make of the syntax
/// tree tree-sitter gives for the file: some tree the records describe,
/// whose visitor output its symbols are (but for their body texts) and its
/// relations are, and, with chunking on, whose chunks its chunks are.
pub open spec fn parsed_from_tree(
    p: ParsedFile,
    repo_id: Seq<char>,
    rel_path: Seq<char>,
    content: Seq<u8>,
    chunking: Option<&ChunkConfig>,
) -> bool {
    ts_flat_of(file_grammar(rel_path), decode_utf8(content)) matches Some(t) && exists|n: SyntaxNode, syms: Seq<CodeSymbol>|
        #![trigger node_is(t, 0, n), visitor_holds(content, syms, p.relations@, n, p.language, rel_path)]
        {
            &&& node_is(t, 0, n)
            &&& visitor_holds(content, syms, p.relations@, n, p.language, rel_path)
            &&& same_but_bodies(syms, p.symbols@)
            &&& (chunking matches Some(cfg) ==> file_chunks(p.chunks@, repo_id, rel_path, content, n, p.language, *cfg))
        }
}

proof fn lemma_parsed_from_tree(
    p: ParsedFile,
    repo_id: Seq<char>,
    rel_path: Seq<char>,
    content: Seq<u8>,
    chunking: Option<&ChunkConfig>,
    n: SyntaxNode,
    syms: Seq<CodeSymbol>,
)
    requires
        ts_flat_of(file_grammar(rel_path), decode_utf8(content)) is Some,
        node_is(ts_flat_of(file_grammar(rel_path), decode_utf8(content))->0, 0, n),
        visitor_holds(content, syms, p.relations@, n, p.language, rel_path),
        same_but_bodies(syms, p.symbols@),
        chunking matches Some(cfg) ==> file_chunks(p.chunks@, repo_id, rel_path, content, n, p.language, *cfg),
    ensures
        parsed_from_tree(p, repo_id, rel_path, content, chunking),
{
}

/// Process a file's content in a full index run: binary content and files
/// of no known language are skipped; a parse failure is a skip for its
/// reason, or (for a failed parse) a failure with the error's text; a
/// parsed file carries its symbols with body texts, its relations, its
/// chunks when chunking is on, and its content hash.
pub fn process_file(
    repo_id: &str,
    rel_path: &str,
    content: &[u8],
    file_size: u64,
    chunking: Option<&ChunkConfig>,
) -> (r: FileOutcome)
    ensures
        spec_is_binary(content@) ==> r == FileOutcome::Skipped(SkipReason::Binary),
        !spec_is_binary(content@) && spec_extension_language(rel_path@) is None ==> r == FileOutcome::Skipped(
            SkipReason::UnsupportedLanguage,
        ),
        r matches FileOutcome::Parsed(p) ==> {
            &&& parse_ready(rel_path@, content@, file_size)
            &&& spec_extension_language(rel_path@) == Some(p.language)
            &&& p.rel_path@ == rel_path@
            &&& p.content_hash == xxh3_64_of(content@)
            &&& p.file_size == file_size
            &&& p.symbols@.len() >= 1
            &&& (p.symbols@[0].kind == SymbolKind::Module || p.symbols@[0].kind == SymbolKind::Package)
            &&& forall|i: int|
                0 <= i < p.symbols@.len() ==> stored_symbol_ok(
                    #[trigger] p.symbols@[i],
                    repo_id@,
                    rel_path@,
                    content@,
                    p.language,
                )
            &&& forall|i: int|
                0 <= i < p.relations@.len() ==> relation_ok(#[trigger] p.relations@[i], p.symbols@, rel_path@)
            &&& all_contained(p.symbols@, p.relations@)
            &&& pair_views(p.bodies@) == body_pairs(p.symbols@, content@, p.symbols@.len() as int)
            &&& (chunking is None ==> p.chunks@.len() == 0)
        },
        r matches FileOutcome::Failed(path, msg) ==> path@ == rel_path@,
        !spec_is_binary(content@) && spec_extension_language(rel_path@) is Some && (file_size > MAX_FILE_SIZE
            || content@.len() > MAX_FILE_SIZE) ==> r == FileOutcome::Skipped(SkipReason::TooLarge),
        !spec_is_binary(content@) && spec_extension_language(rel_path@) is Some && file_size <= MAX_FILE_SIZE
            && content@.len() <= MAX_FILE_SIZE && !valid_utf8(content@) ==> r == FileOutcome::Skipped(
            SkipReason::Binary,
        ),
        !spec_is_binary(content@) && spec_extension_language(rel_path@) is Some && parse_ready(
            rel_path@,
            content@,
            file_size,
        ) ==> (r is Parsed || r is Failed),
        !spec_is_binary(content@) && spec_extension_language(rel_path@) is Some && parse_ready(rel_path@, content@, file_size)
            ==> (ts_flat_of(file_grammar(rel_path@), decode_utf8(content@)) matches Some(t) ==> (t.len() > 0 && records_within(
            t,
            content@.len(),
        ) && (chunking is None || forall|n: SyntaxNode| #[trigger] node_is(t, 0, n) ==> node_ok(n, content@)) ==> r is Parsed)),
        r matches FileOutcome::Parsed(p) ==> parsed_from_tree(p, repo_id@, rel_path@, content@, chunking),
{
    let lang = match classify_content(rel_path, content) {
        Ok(l) => l,
        Err(reason) => return FileOutcome::Skipped(reason),
    };
    match parse_file_with_tree(repo_id, rel_path, content, file_size) {
        Ok(result) => {
            let content_hash = xxh3_64(content);
            let chunks = match chunking {
                Some(cfg) => {
                    proof {
                        vstd::utf8::decode_utf8_encode_utf8(content@);
                        assert(encode_utf8(result.source@) == content@);
                    }
                    if !check_node_ok(&result.tree, result.source.as_str()) {
                        return FileOutcome::Failed(
                            str_to_string(rel_path),
                            str_to_string("syntax tree does not lie on char boundaries"),
                        );
                    }
                    let src_text = result.source.as_str();
                    let c = chunk_file(repo_id, rel_path, src_text, &result.tree, result.language, cfg);
                    proof {
                        assert(src_text.spec_bytes() == content@);
                        assert(result.language == lang);
                        assert(file_chunks(c@, repo_id@, rel_path@, content@, result.tree, lang, *cfg));
                    }
                    c
                },
                None => Vec::new(),
            };
            let mut symbols = result.output.symbols;
            let ghost parsed = symbols@;
            let bodies = attach_body_texts(&mut symbols, content);
            proof {
                assert forall|i: int| 0 <= i < symbols@.len() implies stored_symbol_ok(
                    #[trigger] symbols@[i],
                    repo_id@,
                    rel_path@,
                    content@,
                    lang,
                ) by {
                    assert(symbol_ok(parsed[i], repo_id@, rel_path@, content@, result.language));
                }
                assert forall|i: int| 0 <= i < result.output.relations@.len() implies relation_ok(
                    #[trigger] result.output.relations@[i],
                    symbols@,
                    rel_path@,
                ) by {
                    let r = result.output.relations@[i];
                    assert(relation_ok(r, parsed, rel_path@));
                    assert forall|k: int| 0 <= k < parsed.len() implies (#[trigger] parsed[k]).id == symbols@[k].id by {}
                    if has_symbol_id(parsed, r.source_id) {
                        lemma_same_ids(parsed, symbols@, r.source_id);
                    }
                    if r.kind == RelationKind::Contains {
                        lemma_same_ids(parsed, symbols@, r.target_id);
                    }
                }
                lemma_body_pairs_same(parsed, symbols@, content@, parsed.len() as int);
                let rels = result.output.relations@;
                assert forall|i: int| 1 <= i < symbols@.len() implies #[trigger] contained_at(rels, symbols@, i) by {
                    assert(contained_at(rels, parsed, i));
                    let j = choose|j: int| 0 <= j < rels.len() && #[trigger] contains_at(rels[j], parsed, i);
                    let src = rels[j].source_id;
                    assert(owner_ok(parsed.take(i), src));
                    if has_symbol_id(parsed.take(i), src) {
                        assert forall|k: int| 0 <= k < parsed.take(i).len() implies (#[trigger] parsed.take(i)[k]).id
                            == symbols@.take(i)[k].id by {
                            assert(parsed.take(i)[k] == parsed[k]);
                            assert(symbols@.take(i)[k] == symbols@[k]);
                        }
                        lemma_same_ids(parsed.take(i), symbols@.take(i), src);
                    }
                    assert(contains_at(rels[j], symbols@, i));
                }
            }
            proof {
                let t = ts_flat_of(file_grammar(rel_path@), decode_utf8(content@))->0;
                assert(same_but_bodies(parsed, symbols@));
                assert(node_is(t, 0, result.tree));
                assert(visitor_holds(content@, parsed, result.output.relations@, result.tree, lang, rel_path@));
                assert(chunking matches Some(cfg) ==> file_chunks(chunks@, repo_id@, rel_path@, content@, result.tree, lang, *cfg));
            }
            let ghost tree = result.tree;
            let pf = ParsedFile {
                rel_path: str_to_string(rel_path),
                symbols,
                relations: result.output.relations,
                chunks,
                bodies,
                content_hash,
                file_size,
                language: lang,
            };
            proof {
                lemma_parsed_from_tree(pf, repo_id@, rel_path@, content@, chunking, tree, parsed);
            }
            FileOutcome::Parsed(pf)
        },
        Err(e) => match skip_for_parse_error(&e) {
            Some(reason) => FileOutcome::Skipped(reason),
            None => FileOutcome::Failed(str_to_string(rel_path), e.message()),
        },
    }
}


/// The parsed files among the outcomes, in order.
pub open spec fn parsed_files(s: Seq<FileOutcome>) -> Seq<ParsedFile>
    decreases s.len(),
{
    if s.len() == 0 {
        Seq::empty()
    } else {
        let prev = parsed_files(s.drop_last());
        match s.last() {
            FileOutcome::Parsed(p) => prev.push(p),
            _ => prev,
        }
    }
}

/// The (path, reason) pairs of the failed files, in order.
pub open spec fn failures(s: Seq<FileOutcome>) -> Seq<(String, String)>
    decreases s.len(),
{
    if s.len() == 0 {
        Seq::empty()
    } else {
        let prev = failures(s.drop_last());
        match s.last() {
            FileOutcome::Failed(p, m) => prev.push((p, m)),
            _ => prev,
        }
    }
}

/// How many files were skipped for `reason`.
pub open spec fn skip_total(s: Seq<FileOutcome>, reason: SkipReason) -> nat
    decreases s.len(),
{
    if s.len() == 0 {
        0
    } else {
        skip_total(s.drop_last(), reason) + if s.last() == FileOutcome::Skipped(reason) { 1nat } else { 0nat }
    }
}

pub open spec fn all_symbols(ps: Seq<ParsedFile>) -> Seq<CodeSymbol>
    decreases ps.len(),
{
    if ps.len() == 0 { Seq::empty() } else { all_symbols(ps.drop_last()) + ps.last().symbols@ }
}

pub open spec fn all_relations(ps: Seq<ParsedFile>) -> Seq<CodeRelation>
    decreases ps.len(),
{
    if ps.len() == 0 { Seq::empty() } else { all_relations(ps.drop_last()) + ps.last().relations@ }
}

pub open spec fn all_chunks(ps: Seq<ParsedFile>) -> Seq<CodeChunk>
    decreases ps.len(),
{
    if ps.len() == 0 { Seq::empty() } else { all_chunks(ps.drop_last()) + ps.last().chunks@ }
}

pub open spec fn all_bodies(ps: Seq<ParsedFile>) -> Seq<(SymbolId, String)>
    decreases ps.len(),
{
    if ps.len() == 0 { Seq::empty() } else { all_bodies(ps.drop_last()) + ps.last().bodies@ }
}

/// The file record stored for a parsed file at time `now`.
pub open spec fn file_meta_ok(m: FileMetadata, p: ParsedFile, now: Seq<char>) -> bool {
    &&& m.path@ == p.rel_path@
    &&& m.content_hash == p.content_hash
    &&& m.language == p.language
    &&& m.size_bytes == p.file_size
    &&& m.symbol_count == p.symbols@.len() as u32
    &&& m.last_indexed@ == now
    &&& m.last_modified@ == now
}

/// What a full index run stores, and its counts.
#[derive(Debug)]
pub struct IndexBatch {
    pub symbols: Vec<CodeSymbol>,
    /// The relations whose source is one of the symbols.
    pub relations: Vec<CodeRelation>,
    pub bodies: Vec<(SymbolId, String)>,
    pub chunks: Vec<CodeChunk>,
    pub files: Vec<FileMetadata>,
    pub files_indexed: usize,
    pub files_skipped: Vec<(SkipReason, usize)>,
    pub files_failed: usize,
    pub failed_details: Vec<(String, String)>,
    pub total_symbols: usize,
    pub total_relations: usize,
    pub total_chunks: usize,
}

fn append_symbols(dst: &mut Vec<CodeSymbol>, src: &Vec<CodeSymbol>)
    ensures
        final(dst)@ == old(dst)@ + src@,
{
    let ghost start = dst@;
    let mut k: usize = 0;
    while k < src.len()
        invariant
            k <= src@.len(),
            dst@ == start + src@.take(k as int),
        decreases src@.len() - k,
    {
        dst.push(src[k].duplicate());
        k = k + 1;
        assert(dst@ =~= start + src@.take(k as int));
    }
    assert(src@.take(k as int) =~= src@);
}

fn append_relations(dst: &mut Vec<CodeRelation>, src: &Vec<CodeRelation>)
    ensures
        final(dst)@ == old(dst)@ + src@,
{
    let ghost start = dst@;
    let mut k: usize = 0;
    while k < src.len()
        invariant
            k <= src@.len(),
            dst@ == start + src@.take(k as int),
        decreases src@.len() - k,
    {
        dst.push(src[k].duplicate());
        k = k + 1;
        assert(dst@ =~= start + src@.take(k as int));
    }
    assert(src@.take(k as int) =~= src@);
}

fn append_chunks(dst: &mut Vec<CodeChunk>, src: &Vec<CodeChunk>)
    ensures
        final(dst)@ == old(dst)@ + src@,
{
    let ghost start = dst@;
    let mut k: usize = 0;
    while k < src.len()
        invariant
            k <= src@.len(),
            dst@ == start + src@.take(k as int),
        decreases src@.len() - k,
    {
        dst.push(src[k].duplicate());
        k = k + 1;
        assert(dst@ =~= start + src@.take(k as int));
    }
    assert(src@.take(k as int) =~= src@);
}

fn append_bodies(dst: &mut Vec<(SymbolId, String)>, src: &Vec<(SymbolId, String)>)
    ensures
        final(dst)@ == old(dst)@ + src@,
{
    let ghost start = dst@;
    let mut k: usize = 0;
    while k < src.len()
        invariant
            k <= src@.len(),
            dst@ == start + src@.take(k as int),
        decreases src@.len() - k,
    {
        dst.push((src[k].0, src[k].1.clone()));
        k = k + 1;
        assert(dst@ =~= start + src@.take(k as int));
    }
    assert(src@.take(k as int) =~= src@);
}

proof fn lemma_skip_total_bound(s: Seq<FileOutcome>, r: SkipReason)
    ensures
        skip_total(s, r) <= s.len(),
    decreases s.len(),
{
    if s.len() > 0 {
        lemma_skip_total_bound(s.drop_last(), r);
    }
}

proof fn lemma_parsed_bound(s: Seq<FileOutcome>)
    ensures
        parsed_files(s).len() <= s.len(),
        failures(s).len() <= s.len(),
    decreases s.len(),
{
    if s.len() > 0 {
        lemma_parsed_bound(s.drop_last());
    }
}

/// Gather the outcomes of a full index run: every parsed file's symbols,
/// relations, chunks and body texts in order, a file record for each at
/// time `now`, the skips counted per reason and the failures listed; of
/// the relations, those whose source is one of the symbols.
pub fn collect_outcomes(outcomes: &Vec<FileOutcome>, now: &str) -> (b: IndexBatch)
    ensures
        b.symbols@ == all_symbols(parsed_files(outcomes@)),
        b.chunks@ == all_chunks(parsed_files(outcomes@)),
        b.bodies@ == all_bodies(parsed_files(outcomes@)),
        b.relations@ == known_source_relations(
            all_relations(parsed_files(outcomes@)),
            symbol_ids(b.symbols@),
            all_relations(parsed_files(outcomes@)).len() as int,
        ),
        b.files@.len() == parsed_files(outcomes@).len(),
        forall|j: int| 0 <= j < b.files@.len() ==> file_meta_ok(#[trigger] b.files@[j], parsed_files(outcomes@)[j], now@),
        b.files_indexed == parsed_files(outcomes@).len(),
        distinct_reasons(b.files_skipped@),
        forall|r: SkipReason| count_for(b.files_skipped@, r) == skip_total(outcomes@, r),
        b.failed_details@ == failures(outcomes@),
        b.files_failed == failures(outcomes@).len(),
        b.total_symbols == b.symbols@.len(),
        b.total_relations == b.relations@.len(),
        b.total_chunks == b.chunks@.len(),
{
    let mut symbols: Vec<CodeSymbol> = Vec::new();
    let mut relations: Vec<CodeRelation> = Vec::new();
    let mut bodies: Vec<(SymbolId, String)> = Vec::new();
    let mut chunks: Vec<CodeChunk> = Vec::new();
    let mut files: Vec<FileMetadata> = Vec::new();
    let mut skips: Vec<(SkipReason, usize)> = Vec::new();
    let mut failed: Vec<(String, String)> = Vec::new();
    let mut indexed: usize = 0;
    let mut i: usize = 0;
    assert(outcomes@.take(0) =~= Seq::<FileOutcome>::empty());
    while i < outcomes.len()
        invariant
            i <= outcomes@.len(),
            symbols@ == all_symbols(parsed_files(outcomes@.take(i as int))),
            relations@ == all_relations(parsed_files(outcomes@.take(i as int))),
            chunks@ == all_chunks(parsed_files(outcomes@.take(i as int))),
            bodies@ == all_bodies(parsed_files(outcomes@.take(i as int))),
            files@.len() == parsed_files(outcomes@.take(i as int)).len(),
            forall|j: int| 0 <= j < files@.len() ==> file_meta_ok(#[trigger] files@[j], parsed_files(outcomes@.take(i as int))[j], now@),
            indexed == parsed_files(outcomes@.take(i as int)).len(),
            distinct_reasons(skips@),
            forall|r: SkipReason| count_for(skips@, r) == skip_total(outcomes@.take(i as int), r),
            failed@ == failures(outcomes@.take(i as int)),
        decreases outcomes@.len() - i,
    {
        let ghost t = outcomes@.take(i as int);
        proof {
            assert(outcomes@.take(i + 1).drop_last() =~= t);
            assert(outcomes@.take(i + 1).last() == outcomes@[i as int]);
            lemma_parsed_bound(t);
        }
        match &outcomes[i] {
            FileOutcome::Parsed(p) => {
                append_symbols(&mut symbols, &p.symbols);
                append_relations(&mut relations, &p.relations);
                append_chunks(&mut chunks, &p.chunks);
                append_bodies(&mut bodies, &p.bodies);
                #[verifier::truncate]
                let count = p.symbols.len() as u32;
                let ghost before = files@;
                files.push(
                    FileMetadata {
                        path: p.rel_path.clone(),
                        content_hash: p.content_hash,
                        language: p.language,
                        size_bytes: p.file_size,
                        symbol_count: count,
                        last_indexed: str_to_string(now),
                        last_modified: str_to_string(now),
                    },
                );
                indexed = indexed + 1;
                proof {
                    let pt = parsed_files(outcomes@.take(i + 1));
                    assert(pt == parsed_files(t).push(*p));
                    assert(pt.drop_last() =~= parsed_files(t));
                    assert forall|j: int| 0 <= j < files@.len() implies file_meta_ok(#[trigger] files@[j], pt[j], now@) by {
                        if j < before.len() {
                            assert(files@[j] == before[j]);
                            assert(pt[j] == parsed_files(t)[j]);
                        }
                    }
                    assert forall|r: SkipReason| count_for(skips@, r) == skip_total(outcomes@.take(i + 1), r) by {}
                }
            },
            FileOutcome::Skipped(reason) => {
                proof {
                    lemma_skip_total_bound(t, *reason);
                }
                record_skip_in(&mut skips, *reason);
                proof {
                    assert forall|r: SkipReason| count_for(skips@, r) == skip_total(outcomes@.take(i + 1), r) by {}
                }
            },
            FileOutcome::Failed(path, msg) => {
                failed.push((path.clone(), msg.clone()));
                proof {
                    assert forall|r: SkipReason| count_for(skips@, r) == skip_total(outcomes@.take(i + 1), r) by {}
                }
            },
        }
        i = i + 1;
    }
    assert(outcomes@.take(i as int) =~= outcomes@);
    let valid = relations_with_known_source(relations.as_slice(), symbols.as_slice());
    let total_symbols = symbols.len();
    let total_relations = valid.len();
    let total_chunks = chunks.len();
    let files_failed = failed.len();
    IndexBatch {
        symbols,
        relations: valid,
        bodies,
        chunks,
        files,
        files_indexed: indexed,
        files_skipped: skips,
        files_failed,
        failed_details: failed,
        total_symbols,
        total_relations,
        total_chunks,
    }
}


/// Every file of a full index run is counted once: as indexed, failed, or
/// skipped for one reason.
pub proof fn lemma_outcomes_accounted(s: Seq<FileOutcome>)
    ensures
        parsed_files(s).len() + failures(s).len() + skip_total(s, SkipReason::TooLarge) + skip_total(s, SkipReason::Binary)
            + skip_total(s, SkipReason::UnsupportedLanguage) + skip_total(s, SkipReason::Ignored) == s.len(),
    decreases s.len(),
{
    if s.len() > 0 {
        lemma_outcomes_accounted(s.drop_last());
    }
}

/// Result of an incremental indexing run.
#[derive(Debug)]
pub struct IncrementalIndexResult {
    /// Compatible report with standard indexing statistics.
    pub report: IndexReport,
    /// Symbol IDs that were added or modified (need embedding).
    pub changed_symbol_ids: Vec<SymbolId>,
    /// Symbol IDs that were removed (vectors already cleaned up).
    pub removed_symbol_ids: Vec<SymbolId>,
    /// Number of files that were unchanged (hash match).
    pub files_unchanged: usize,
    /// Number of files that were deleted since last index.
    pub files_deleted: usize,
    /// Whether we fell back to a full index (first run or empty DB).
    pub fell_back_to_full: bool,
}

} // verus!
