//! Parsing one source file: the checks before parsing, the tree-sitter parse,
//! the syntax tree it yields, and the language's visitor over that tree.
use vstd::prelude::*;
use vstd::utf8::*;
use vstd::string::StringSliceAdditionalSpecFns;
use crate::chunker::SyntaxNode;
use crate::errors::ParserError;
use crate::extract::{
    new_from,
    all_contained, children_spans_ok, ctx_ok, lemma_child_spans_ok, lemma_contained, output_ok, spans_ok, ParseOutput,
    VisitorContext,
};
use crate::language::{str_eq, Language};
use crate::symbol::SymbolKind;
use crate::parser::{prepare_source, spec_is_binary, spec_source_language, ParserRegistry, MAX_FILE_SIZE};
use crate::paths::{path_extension, spec_path_extension};
use crate::naming::{spec_python_module_name, spec_rust_module_name, spec_typescript_module_name};
use crate::symbol::CodeSymbol;
use crate::relation::CodeRelation;
use crate::{go_lang, java, python, rust_lang, typescript};
use crate::text::{str_to_string, string_push_str};
use crate::comments::opt_string;
use tree_sitter::Language as TsGrammar;

verus! {

/// The tree-sitter grammar a file is parsed with.
#[derive(Debug, Clone, Copy, PartialEq, Eq, Structural)]
pub enum Grammar {
    Python,
    TypeScript,
    Tsx,
    Rust,
    Go,
    Java,
}

/// TypeScript files ending in `.tsx` and all JavaScript files are parsed as
/// TSX; every other language has one grammar.
pub open spec fn spec_grammar_for(lang: Language, ext: Seq<char>) -> Grammar {
    match lang {
        Language::Python => Grammar::Python,
        Language::TypeScript => if ext == "tsx"@ { Grammar::Tsx } else { Grammar::TypeScript },
        Language::JavaScript => Grammar::Tsx,
        Language::Rust => Grammar::Rust,
        Language::Go => Grammar::Go,
        Language::Java => Grammar::Java,
    }
}

/// The grammar for a language and file extension.
pub fn grammar_kind(lang: Language, ext: &str) -> (r: Grammar)
    ensures
        r == spec_grammar_for(lang, ext@),
{
    proof {
        reveal_strlit("tsx");
    }
    match lang {
        Language::Python => Grammar::Python,
        Language::TypeScript => if str_eq(ext, "tsx") {
            Grammar::Tsx
        } else {
            Grammar::TypeScript
        },
        Language::JavaScript => Grammar::Tsx,
        Language::Rust => Grammar::Rust,
        Language::Go => Grammar::Go,
        Language::Java => Grammar::Java,
    }
}

#[verifier::external_type_specification]
#[verifier::external_body]
pub struct ExTsLanguage(TsGrammar);

#[verifier::external_type_specification]
#[verifier::external_body]
pub struct ExTsTree(tree_sitter::Tree);

/// The grammar crates' `LANGUAGE` items (`tree_sitter_python::LANGUAGE`,
/// `tree_sitter_typescript::LANGUAGE_TYPESCRIPT` and `LANGUAGE_TSX`,
/// `tree_sitter_rust::LANGUAGE`, `tree_sitter_go::LANGUAGE`,
/// `tree_sitter_java::LANGUAGE`) as tree-sitter languages. Nothing is
/// claimed of the value.
#[verifier::external_body]
fn ts_grammar(g: Grammar) -> TsGrammar {
    match g {
        Grammar::Python => tree_sitter_python::LANGUAGE.into(),
        Grammar::TypeScript => tree_sitter_typescript::LANGUAGE_TYPESCRIPT.into(),
        Grammar::Tsx => tree_sitter_typescript::LANGUAGE_TSX.into(),
        Grammar::Rust => tree_sitter_rust::LANGUAGE.into(),
        Grammar::Go => tree_sitter_go::LANGUAGE.into(),
        Grammar::Java => tree_sitter_java::LANGUAGE.into(),
    }
}

impl ParserRegistry {
    /// The tree-sitter grammar for a language and file extension.
    pub fn grammar_for_extension(lang: Language, ext: &str) -> TsGrammar {
        ts_grammar(grammar_kind(lang, ext))
    }
}

/// Why tree-sitter gave no tree.
#[derive(Debug)]
pub enum TsFailure {
    /// The grammar was refused; the text of tree-sitter's error.
    Language(String),
    /// The parser returned no tree.
    NoTree,
}

/// What tree-sitter makes of a source text under a grammar: the records of
/// the tree's nodes as its `TreeCursor` walks them in preorder (kind, field
/// name, span, rows, depth), or none when the grammar is refused or no tree
/// comes back. It names three steps at once (the grammar's language, the
/// parse and the walk), each a function of its inputs, so the whole is a
/// function of the grammar and the text alone.
pub uninterp spec fn ts_flat_of(g: Grammar, source: Seq<char>) -> Option<Seq<(Seq<char>, Option<Seq<char>>, nat, nat, nat, nat, nat)>>;

/// Parses the source with tree-sitter under the grammar (`Parser::new`,
/// `Parser::set_language`, `Parser::parse`, with the grammar's language
/// from `ts_grammar`) and walks the tree into records with `ts_flatten`.
/// Claims that the outcome is the named function of the grammar and the
/// text: its records on success, none when the grammar is refused or no
/// tree comes back; a refused grammar comes back with the error's text.
#[verifier::external_body]
fn ts_parse(source: &str, g: Grammar) -> (r: Result<Vec<FlatNode>, TsFailure>)
    ensures
        match r {
            Ok(v) => ts_flat_of(g, source@) == Some(flat_records(v@)),
            Err(_) => ts_flat_of(g, source@) is None,
        },
{
    let mut parser = tree_sitter::Parser::new();
    if let Err(e) = parser.set_language(&ts_grammar(g)) {
        return Err(TsFailure::Language(e.to_string()));
    }
    match parser.parse(source, None) {
        Some(t) => Ok(ts_flatten(&t)),
        None => Err(TsFailure::NoTree),
    }
}

/// One node of a syntax tree in preorder, with its depth below the root.
#[derive(Debug)]
pub struct FlatNode {
    pub kind: String,
    pub field: Option<String>,
    pub start_byte: usize,
    pub end_byte: usize,
    pub start_row: usize,
    pub end_row: usize,
    pub depth: usize,
}

/// Walks a tree-sitter tree with its `TreeCursor` in preorder, recording
/// each node's kind, field name, byte span, rows and depth; the conversion
/// of `ts_parse`'s result. Nothing is claimed of it on its own.
#[verifier::external_body]
fn ts_flatten(tree: &tree_sitter::Tree) -> (r: Vec<FlatNode>) {
    let mut out = Vec::new();
    let mut c = tree.walk();
    loop {
        let n = c.node();
        let field = c.field_name().map(|f| f.to_string());
        out.push(FlatNode { kind: n.kind().to_string(), field, start_byte: n.start_byte(), end_byte: n.end_byte(), start_row: n.start_position().row, end_row: n.end_position().row, depth: c.depth() as usize });
        if c.goto_first_child() || c.goto_next_sibling() {
            continue;
        }
        while !c.goto_next_sibling() {
            if !c.goto_parent() {
                return out;
            }
        }
    }
}

/// A record of a tree-sitter node as plain values: kind, field name, start
/// and end byte, start and end row, depth below the root.
pub open spec fn flat_record(n: FlatNode) -> (Seq<char>, Option<Seq<char>>, nat, nat, nat, nat, nat) {
    (n.kind@, opt_string(n.field), n.start_byte as nat, n.end_byte as nat, n.start_row as nat, n.end_row as nat, n.depth as nat)
}

/// The records of a list of nodes, in order.
pub open spec fn flat_records(v: Seq<FlatNode>) -> Seq<(Seq<char>, Option<Seq<char>>, nat, nat, nat, nat, nat)> {
    v.map_values(|n: FlatNode| flat_record(n))
}

/// The first index from `k` on whose record is no deeper than the one at
/// `i`, or the end: where the subtree of the record at `i` ends.
pub open spec fn subtree_end(f: Seq<(Seq<char>, Option<Seq<char>>, nat, nat, nat, nat, nat)>, i: int, k: int) -> int
    decreases f.len() - k,
{
    if k < 0 || k >= f.len() {
        f.len() as int
    } else if f[k].6 <= f[i].6 {
        k
    } else {
        subtree_end(f, i, k + 1)
    }
}

/// The indices, from `j` on, where the subtrees of the children of the
/// record at `i` start: each child's subtree follows the one before.
pub open spec fn child_starts(f: Seq<(Seq<char>, Option<Seq<char>>, nat, nat, nat, nat, nat)>, i: int, j: int) -> Seq<int>
    decreases f.len() - j,
{
    if i < j < f.len() && f[j].6 > f[i].6 {
        let e = subtree_end(f, j, j + 1);
        if j < e <= f.len() {
            seq![j] + child_starts(f, i, e)
        } else {
            seq![j]
        }
    } else {
        Seq::empty()
    }
}

/// `n` is the node the record at `i` makes with its subtree: the record's
/// kind, field, span and rows, and one child per subtree directly below it.
pub open spec fn node_is(f: Seq<(Seq<char>, Option<Seq<char>>, nat, nat, nat, nat, nat)>, i: int, n: SyntaxNode) -> bool
    decreases n,
{
    &&& 0 <= i < f.len()
    &&& n.kind@ == f[i].0
    &&& opt_string(n.field) == f[i].1
    &&& n.start_byte == f[i].2
    &&& n.end_byte == f[i].3
    &&& n.start_row == f[i].4
    &&& n.end_row == f[i].5
    &&& child_starts(f, i, i + 1).len() == n.children@.len()
    &&& forall|k: int| 0 <= k < n.children@.len() ==> node_is(f, child_starts(f, i, i + 1)[k], #[trigger] n.children@[k])
}

/// Two syntax trees agree node for node: kind, field, span, rows and
/// children.
pub open spec fn same_tree(a: SyntaxNode, b: SyntaxNode) -> bool
    decreases a,
{
    &&& a.kind@ == b.kind@
    &&& opt_string(a.field) == opt_string(b.field)
    &&& a.start_byte == b.start_byte
    &&& a.end_byte == b.end_byte
    &&& a.start_row == b.start_row
    &&& a.end_row == b.end_row
    &&& a.children@.len() == b.children@.len()
    &&& forall|k: int| 0 <= k < a.children@.len() ==> same_tree(#[trigger] a.children@[k], b.children@[k])
}

/// The records fix the tree they describe: two trees made from the record
/// at `i` agree node for node. So the tree a file's parse yields is fixed
/// by the file, its grammar and its text.
pub proof fn lemma_node_is_unique(
    f: Seq<(Seq<char>, Option<Seq<char>>, nat, nat, nat, nat, nat)>,
    i: int,
    a: SyntaxNode,
    b: SyntaxNode,
)
    requires
        node_is(f, i, a),
        node_is(f, i, b),
    ensures
        same_tree(a, b),
    decreases a,
{
    assert forall|k: int| 0 <= k < a.children@.len() implies same_tree(#[trigger] a.children@[k], b.children@[k]) by {
        lemma_node_is_unique(f, child_starts(f, i, i + 1)[k], a.children@[k], b.children@[k]);
    }
}

/// Every record spans bytes within `len`, in order.
pub open spec fn records_within(f: Seq<(Seq<char>, Option<Seq<char>>, nat, nat, nat, nat, nat)>, len: nat) -> bool {
    forall|k: int| 0 <= k < f.len() ==> (#[trigger] f[k]).2 <= f[k].3 <= len
}

/// Between `k` and the end of the subtree at `i`, every record is deeper
/// than the one at `i`; the end is at or after `k`.
proof fn lemma_subtree_end(f: Seq<(Seq<char>, Option<Seq<char>>, nat, nat, nat, nat, nat)>, i: int, k: int)
    requires
        0 <= i < f.len(),
        0 <= k <= f.len(),
    ensures
        k <= subtree_end(f, i, k) <= f.len(),
        forall|m: int| k <= m < subtree_end(f, i, k) ==> f[m].6 > f[i].6,
        subtree_end(f, i, k) < f.len() ==> f[subtree_end(f, i, k)].6 <= f[i].6,
    decreases f.len() - k,
{
    if k < f.len() && f[k].6 > f[i].6 {
        lemma_subtree_end(f, i, k + 1);
    }
}

/// Where every record in `[k, j)` is deeper than the one at `i` and the
/// record at `j` is not (or `j` is the end), the subtree at `i` ends at `j`.
proof fn lemma_subtree_end_at(f: Seq<(Seq<char>, Option<Seq<char>>, nat, nat, nat, nat, nat)>, i: int, k: int, j: int)
    requires
        0 <= i < f.len(),
        0 <= k <= j <= f.len(),
        forall|m: int| k <= m < j ==> f[m].6 > f[i].6,
        j < f.len() ==> f[j].6 <= f[i].6,
    ensures
        subtree_end(f, i, k) == j,
    decreases j - k,
{
    if k < j {
        lemma_subtree_end_at(f, i, k + 1, j);
    }
}

/// A node made from records that lie within `len` spans bytes within `len`.
proof fn lemma_node_spans(f: Seq<(Seq<char>, Option<Seq<char>>, nat, nat, nat, nat, nat)>, i: int, n: SyntaxNode, len: nat)
    requires
        node_is(f, i, n),
        records_within(f, len),
    ensures
        spans_ok(n, len),
    decreases n,
{
    assert(f[i].2 <= f[i].3 <= len);
    assert forall|k: int| 0 <= k < n.children@.len() implies spans_ok(#[trigger] n.children@[k], len) by {
        lemma_node_spans(f, child_starts(f, i, i + 1)[k], n.children@[k], len);
    }
    lemma_children_spans_all(n.children@, len);
}

/// The node recorded at `i` with its subtree: the records after it that are
/// deeper, up to the first that is not. Gives the node and the index after
/// its subtree.
pub fn build_node(flat: &Vec<FlatNode>, i: usize) -> (r: (SyntaxNode, usize))
    requires
        i < flat@.len(),
    ensures
        i < r.1 <= flat@.len(),
        r.0.kind@ == flat@[i as int].kind@,
        r.0.start_byte == flat@[i as int].start_byte,
        r.0.end_byte == flat@[i as int].end_byte,
        node_is(flat_records(flat@), i as int, r.0),
        r.1 == subtree_end(flat_records(flat@), i as int, i + 1),
    decreases flat@.len() - i,
{
    let ghost f = flat_records(flat@);
    let d = flat[i].depth;
    let n = flat.len();
    let mut children: Vec<SyntaxNode> = Vec::new();
    let mut j: usize = i + 1;
    let ghost mut done: Seq<int> = Seq::empty();
    assert(f[i as int] == flat_record(flat@[i as int]));
    while j < n && flat[j].depth > d
        invariant
            n == flat@.len(),
            f == flat_records(flat@),
            f.len() == n,
            i < j <= n,
            d == flat@[i as int].depth,
            f[i as int].6 == d,
            child_starts(f, i as int, i + 1) == done + child_starts(f, i as int, j as int),
            done.len() == children@.len(),
            forall|k: int| 0 <= k < children@.len() ==> node_is(f, done[k], #[trigger] children@[k]),
            forall|m: int| i < m < j ==> f[m].6 > f[i as int].6,
        decreases flat@.len() - j,
    {
        let (child, next) = build_node(flat, j);
        proof {
            assert(f[j as int] == flat_record(flat@[j as int]));
            lemma_subtree_end(f, j as int, j + 1);
            assert(child_starts(f, i as int, j as int) == seq![j as int] + child_starts(f, i as int, next as int));
            assert(done + child_starts(f, i as int, j as int) =~= done.push(j as int) + child_starts(f, i as int, next as int));
        }
        let ghost prev = children@;
        children.push(child);
        proof {
            done = done.push(j as int);
            assert forall|k: int| 0 <= k < children@.len() implies node_is(f, done[k], #[trigger] children@[k]) by {
                if k < prev.len() {
                    assert(children@[k] == prev[k]);
                }
            }
        }
        j = next;
    }
    proof {
        if j < n {
            assert(f[j as int] == flat_record(flat@[j as int]));
        }
        lemma_subtree_end_at(f, i as int, i + 1, j as int);
        assert(child_starts(f, i as int, j as int) =~= Seq::<int>::empty());
        assert(done =~= child_starts(f, i as int, i + 1));
    }
    let field = match &flat[i].field {
        Some(f) => Some(f.clone()),
        None => None,
    };
    let node = SyntaxNode {
        kind: flat[i].kind.clone(),
        field,
        start_byte: flat[i].start_byte,
        end_byte: flat[i].end_byte,
        start_row: flat[i].start_row,
        end_row: flat[i].end_row,
        children,
    };
    (node, j)
}

proof fn lemma_children_spans_all(ch: Seq<SyntaxNode>, len: nat)
    requires
        forall|k: int| 0 <= k < ch.len() ==> spans_ok(#[trigger] ch[k], len),
    ensures
        children_spans_ok(ch, len),
    decreases ch.len(),
{
    if ch.len() > 0 {
        assert forall|k: int| 0 <= k < ch.drop_last().len() implies spans_ok(#[trigger] ch.drop_last()[k], len) by {
            assert(ch.drop_last()[k] == ch[k]);
        }
        lemma_children_spans_all(ch.drop_last(), len);
    }
}

/// Whether every node of the tree spans bytes within `len`, in order.
pub fn check_spans(node: &SyntaxNode, len: usize) -> (r: bool)
    ensures
        r == spans_ok(*node, len as nat),
    decreases *node,
{
    if !(node.start_byte <= node.end_byte && node.end_byte <= len) {
        return false;
    }
    let mut i: usize = 0;
    while i < node.children.len()
        invariant
            i <= node.children@.len(),
            node.start_byte <= node.end_byte <= len,
            forall|k: int| 0 <= k < i ==> spans_ok(#[trigger] node.children@[k], len as nat),
        decreases node.children@.len() - i,
    {
        if !check_spans(&node.children[i], len) {
            proof {
                if spans_ok(*node, len as nat) {
                    lemma_child_spans_ok(*node, len as nat, i as int);
                }
            }
            return false;
        }
        i = i + 1;
    }
    proof {
        lemma_children_spans_all(node.children@, len as nat);
    }
    true
}

/// Output from parsing a file, with the source text, the syntax tree and the
/// language, for whoever also needs the tree (such as the chunker).
#[derive(Debug)]
pub struct ParseOutputWithTree {
    pub output: ParseOutput,
    pub source: String,
    pub tree: SyntaxNode,
    pub language: Language,
}

fn parse_failed(file_path: &str, reason: &str) -> (e: ParserError)
    ensures
        e matches ParserError::ParseFailed { path: p, .. } && p@ == file_path@,
{
    ParserError::ParseFailed { path: str_to_string(file_path), reason: str_to_string(reason) }
}

/// The grammar a file is parsed with: by its language and extension.
pub open spec fn file_grammar(file_path: Seq<char>) -> Grammar {
    spec_grammar_for(
        spec_source_language(file_path)->0,
        match spec_path_extension(file_path) {
            Some(e) => e,
            None => Seq::empty(),
        },
    )
}

/// What the language's visitor gives of a file with this syntax tree: first
/// the module or package, spanning the tree and named as the language
/// names it; every symbol spans a node of the tree; for each declaration,
/// nested ones included, a symbol with its name, kind and qualified name;
/// and the relations that come with them: a call from each function or
/// method to each callee in its body, an import of each imported module
/// from the module or class that holds the import, and the inheritance and
/// implementation relations of each type's clauses.
pub open spec fn visitor_holds(
    src: Seq<u8>,
    syms: Seq<CodeSymbol>,
    rels: Seq<CodeRelation>,
    root: SyntaxNode,
    lang: Language,
    file_path: Seq<char>,
) -> bool {
    &&& syms.len() >= 1
    &&& new_from(Seq::empty(), syms, root)
    &&& syms[0].byte_range.start == root.start_byte
    &&& syms[0].byte_range.end == root.end_byte
    &&& syms[0].qualified_name@ == syms[0].name@
    &&& match lang {
        Language::Python => {
            &&& syms[0].name@ == spec_python_module_name(file_path)
            &&& syms[0].kind == SymbolKind::Module
            &&& forall|i: int|
                0 <= i < root.children@.len() ==> python::py_stmt_deep(
                    src,
                    syms,
                    rels,
                    #[trigger] root.children@[i],
                    seq![syms[0].name@],
                    false,
                    syms[0].id,
                )
        },
        Language::TypeScript | Language::JavaScript => {
            &&& syms[0].name@ == spec_typescript_module_name(file_path)
            &&& syms[0].kind == SymbolKind::Module
            &&& forall|i: int|
                0 <= i < root.children@.len() ==> typescript::ts_child_held(
                    src,
                    syms,
                    rels,
                    #[trigger] root.children@[i],
                    seq![syms[0].name@],
                    false,
                    syms[0].id,
                )
        },
        Language::Rust => {
            &&& syms[0].name@ == spec_rust_module_name(file_path)
            &&& syms[0].kind == SymbolKind::Module
            &&& rust_lang::rust_items_deep(src, syms, rels, root, seq![syms[0].name@], syms[0].id)
        },
        Language::Go => {
            &&& syms[0].name@ == go_lang::go_package_name(src, root, file_path)
            &&& syms[0].kind == SymbolKind::Package
            &&& forall|i: int|
                0 <= i < root.children@.len() ==> go_lang::go_decl_held(src, syms, rels, #[trigger] root.children@[i], seq![syms[0].name@], syms[0].id)
        },
        Language::Java => {
            &&& syms[0].name@ == java::java_package_name(src, root, file_path)
            &&& syms[0].kind == SymbolKind::Package
            &&& java::java_members_deep(src, syms, rels, root, seq![syms[0].name@], true, syms[0].id)
        },
    }
}

/// Every file that passes the checks before parsing: its size and length
/// within 1 MB, not binary, UTF-8, with a known language.
pub open spec fn parse_ready(file_path: Seq<char>, content: Seq<u8>, file_size: u64) -> bool {
    &&& file_size <= MAX_FILE_SIZE
    &&& content.len() <= MAX_FILE_SIZE
    &&& !spec_is_binary(content)
    &&& valid_utf8(content)
    &&& spec_source_language(file_path) is Some
}

/// Parse a source file into its symbols and relations, keeping the syntax
/// tree. The checks before parsing fail as `prepare_source` says; past
/// them the result is the visitor's output over the file, or a parse
/// failure when tree-sitter gives no usable tree.
pub fn parse_file_with_tree(repo_id: &str, file_path: &str, content: &[u8], file_size: u64) -> (r: Result<
    ParseOutputWithTree,
    ParserError,
>)
    ensures
        file_size > MAX_FILE_SIZE ==> (r matches Err(ParserError::FileTooLarge { path: p, size: s, .. }) && p@
            == file_path@ && s == file_size),
        file_size <= MAX_FILE_SIZE && content@.len() > MAX_FILE_SIZE ==> (r matches Err(
            ParserError::FileTooLarge { path: p, size: s, .. },
        ) && p@ == file_path@ && s == content@.len()),
        file_size <= MAX_FILE_SIZE && content@.len() <= MAX_FILE_SIZE && (spec_is_binary(content@)
            || !valid_utf8(content@)) ==> (r matches Err(ParserError::InvalidEncoding { path: p }) && p@
            == file_path@),
        file_size <= MAX_FILE_SIZE && content@.len() <= MAX_FILE_SIZE && !spec_is_binary(content@) && valid_utf8(
            content@,
        ) && spec_source_language(file_path@) is None ==> (r matches Err(ParserError::UnsupportedLanguage { path: p })
            && p@ == file_path@),
        parse_ready(file_path@, content@, file_size) ==> (r is Ok || (r matches Err(
            ParserError::ParseFailed { path: p, .. },
        ) && p@ == file_path@)),
        r matches Ok(o) ==> parse_ready(file_path@, content@, file_size) && o.language == spec_source_language(
            file_path@,
        ).unwrap() && o.source@ == decode_utf8(content@) && spans_ok(o.tree, content@.len()) && output_ok(
            o.output,
            repo_id@,
            file_path@,
            content@,
            o.language,
        ) && o.output.symbols@.len() >= 1 && o.output.symbols@[0].byte_range.start == o.tree.start_byte
            && o.output.symbols@[0].byte_range.end == o.tree.end_byte && (o.output.symbols@[0].kind == SymbolKind::Module
            || o.output.symbols@[0].kind == SymbolKind::Package) && all_contained(
            o.output.symbols@,
            o.output.relations@,
        ),
        parse_ready(file_path@, content@, file_size) ==> (ts_flat_of(file_grammar(file_path@), decode_utf8(content@)) matches Some(
            t,
        ) ==> (t.len() > 0 && records_within(t, content@.len()) ==> r is Ok)),
        r matches Ok(o) ==> (ts_flat_of(file_grammar(file_path@), decode_utf8(content@)) matches Some(t) && node_is(t, 0, o.tree)
            && visitor_holds(content@, o.output.symbols@, o.output.relations@, o.tree, o.language, file_path@)),
{
    let (source, language) = prepare_source(file_path, content, file_size)?;
    let ext = match path_extension(file_path) {
        Some(e) => e,
        None => String::new(),
    };
    let grammar = grammar_kind(language, ext.as_str());
    let flat = match ts_parse(source, grammar) {
        Ok(t) => t,
        Err(TsFailure::Language(msg)) => {
            let mut reason = str_to_string("failed to set language: ");
            string_push_str(&mut reason, msg.as_str());
            return Err(parse_failed(file_path, reason.as_str()));
        },
        Err(TsFailure::NoTree) => return Err(parse_failed(file_path, "tree-sitter returned no tree")),
    };
    if flat.len() == 0 {
        return Err(parse_failed(file_path, "tree-sitter returned an empty tree"));
    }
    let (root, _) = build_node(&flat, 0);
    proof {
        vstd::utf8::decode_utf8_encode_utf8(content@);
        assert(source.spec_bytes() == content@);
    }
    proof {
        if records_within(flat_records(flat@), content@.len()) {
            lemma_node_spans(flat_records(flat@), 0, root, content@.len());
        }
    }
    if !check_spans(&root, content.len()) {
        return Err(parse_failed(file_path, "syntax tree spans bytes outside the source"));
    }
    let ctx = VisitorContext { repo_id, file_path, source, language };
    let output = match language {
        Language::Python => python::extract(&ctx, &root),
        Language::TypeScript | Language::JavaScript => typescript::extract(&ctx, &root),
        Language::Rust => rust_lang::extract(&ctx, &root),
        Language::Go => go_lang::extract(&ctx, &root),
        Language::Java => java::extract(&ctx, &root),
    };
    assert(ctx_ok(output, ctx));
    proof {
        lemma_contained(output.symbols@, output.relations@);
    }
    Ok(ParseOutputWithTree { output, source: str_to_string(source), tree: root, language })
}

/// Parse a source file into its symbols and relations.
pub fn parse_file(repo_id: &str, file_path: &str, content: &[u8], file_size: u64) -> (r: Result<ParseOutput, ParserError>)
    ensures
        file_size > MAX_FILE_SIZE ==> (r matches Err(ParserError::FileTooLarge { path: p, size: s, .. }) && p@
            == file_path@ && s == file_size),
        file_size <= MAX_FILE_SIZE && content@.len() > MAX_FILE_SIZE ==> (r matches Err(
            ParserError::FileTooLarge { path: p, size: s, .. },
        ) && p@ == file_path@ && s == content@.len()),
        file_size <= MAX_FILE_SIZE && content@.len() <= MAX_FILE_SIZE && (spec_is_binary(content@)
            || !valid_utf8(content@)) ==> (r matches Err(ParserError::InvalidEncoding { path: p }) && p@
            == file_path@),
        file_size <= MAX_FILE_SIZE && content@.len() <= MAX_FILE_SIZE && !spec_is_binary(content@) && valid_utf8(
            content@,
        ) && spec_source_language(file_path@) is None ==> (r matches Err(ParserError::UnsupportedLanguage { path: p })
            && p@ == file_path@),
        parse_ready(file_path@, content@, file_size) ==> (r is Ok || (r matches Err(
            ParserError::ParseFailed { path: p, .. },
        ) && p@ == file_path@)),
        r matches Ok(o) ==> parse_ready(file_path@, content@, file_size) && output_ok(
            o,
            repo_id@,
            file_path@,
            content@,
            spec_source_language(file_path@).unwrap(),
        ) && o.symbols@.len() >= 1 && (o.symbols@[0].kind == SymbolKind::Module || o.symbols@[0].kind
            == SymbolKind::Package) && all_contained(o.symbols@, o.relations@),
        parse_ready(file_path@, content@, file_size) ==> (ts_flat_of(file_grammar(file_path@), decode_utf8(content@)) matches Some(
            t,
        ) ==> (t.len() > 0 && records_within(t, content@.len()) ==> r is Ok)),
        r matches Ok(o) ==> (ts_flat_of(file_grammar(file_path@), decode_utf8(content@)) matches Some(t) && exists|n: SyntaxNode|
            #[trigger] node_is(t, 0, n) && visitor_holds(content@, o.symbols@, o.relations@, n, spec_source_language(file_path@)->0, file_path@)),
{
    match parse_file_with_tree(repo_id, file_path, content, file_size) {
        Ok(r) => {
            proof {
                let t = ts_flat_of(file_grammar(file_path@), decode_utf8(content@))->0;
                assert(node_is(t, 0, r.tree));
            }
            Ok(r.output)
        },
        Err(e) => Err(e),
    }
}

} // verus!
