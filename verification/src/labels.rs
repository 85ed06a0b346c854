//! The names the bindings show for kinds and take for languages, and the
//! chunk that stores a file's summary.
use vstd::prelude::*;
use vstd::string::StringSliceAdditionalSpecFns;
use crate::chunk::{spec_chunk_id, ChunkId, CodeChunk};
use crate::hashing::xxh3_64_of;
use crate::language::Language;
use crate::relation::RelationKind;
use crate::symbol::SymbolKind;
use crate::text::{chars_of, str_to_string};

verus! {

/// The lowercase name of a symbol kind.
pub open spec fn spec_kind_label(kind: SymbolKind) -> Seq<char> {
    match kind {
        SymbolKind::Function => "function"@,
        SymbolKind::Method => "method"@,
        SymbolKind::Class => "class"@,
        SymbolKind::Struct => "struct"@,
        SymbolKind::Interface => "interface"@,
        SymbolKind::Trait => "trait"@,
        SymbolKind::Module => "module"@,
        SymbolKind::Package => "package"@,
        SymbolKind::Variable => "variable"@,
        SymbolKind::Constant => "constant"@,
        SymbolKind::Enum => "enum"@,
        SymbolKind::TypeAlias => "type_alias"@,
    }
}

/// The lowercase name of a symbol kind.
pub fn kind_to_string(kind: SymbolKind) -> (r: String)
    ensures
        r@ == spec_kind_label(kind),
{
    let s = match kind {
        SymbolKind::Function => "function",
        SymbolKind::Method => "method",
        SymbolKind::Class => "class",
        SymbolKind::Struct => "struct",
        SymbolKind::Interface => "interface",
        SymbolKind::Trait => "trait",
        SymbolKind::Module => "module",
        SymbolKind::Package => "package",
        SymbolKind::Variable => "variable",
        SymbolKind::Constant => "constant",
        SymbolKind::Enum => "enum",
        SymbolKind::TypeAlias => "type_alias",
    };
    str_to_string(s)
}

/// The lowercase name of a relation kind.
pub open spec fn spec_relation_label(kind: RelationKind) -> Seq<char> {
    match kind {
        RelationKind::Calls => "calls"@,
        RelationKind::Imports => "imports"@,
        RelationKind::Inherits => "inherits"@,
        RelationKind::Implements => "implements"@,
        RelationKind::Uses => "uses"@,
        RelationKind::Contains => "contains"@,
    }
}

/// The lowercase name of a relation kind.
pub fn relation_kind_to_string(kind: RelationKind) -> (r: String)
    ensures
        r@ == spec_relation_label(kind),
{
    let s = match kind {
        RelationKind::Calls => "calls",
        RelationKind::Imports => "imports",
        RelationKind::Inherits => "inherits",
        RelationKind::Implements => "implements",
        RelationKind::Uses => "uses",
        RelationKind::Contains => "contains",
    };
    str_to_string(s)
}

/// A char with ASCII capitals lowered.
pub open spec fn ascii_lower(c: char) -> char {
    if 'A' <= c && c <= 'Z' {
        ((c as u32) + 32) as char
    } else {
        c
    }
}

/// `a` and `b` have the same length and agree char by char once ASCII
/// capitals are lowered.
pub open spec fn same_ignoring_ascii_case(a: Seq<char>, b: Seq<char>) -> bool {
    &&& a.len() == b.len()
    &&& forall|i: int| 0 <= i < a.len() ==> ascii_lower(#[trigger] a[i]) == ascii_lower(b[i])
}

/// The language a name stands for, ignoring case.
///
/// The names are ASCII and hold no `k`. Besides the ASCII capitals, the
/// only char whose lowercase is one ASCII letter is the Kelvin sign (to
/// `k`), and a char whose lowercase is longer brings a combining mark that
/// no name holds; so comparing with ASCII capitals lowered picks what a
/// full Unicode lowercasing would.
pub open spec fn spec_language_named(name: Seq<char>) -> Option<Language> {
    if same_ignoring_ascii_case(name, "python"@) {
        Some(Language::Python)
    } else if same_ignoring_ascii_case(name, "typescript"@) {
        Some(Language::TypeScript)
    } else if same_ignoring_ascii_case(name, "javascript"@) {
        Some(Language::JavaScript)
    } else if same_ignoring_ascii_case(name, "rust"@) {
        Some(Language::Rust)
    } else if same_ignoring_ascii_case(name, "go"@) {
        Some(Language::Go)
    } else if same_ignoring_ascii_case(name, "java"@) {
        Some(Language::Java)
    } else {
        None
    }
}

fn lower_char(c: char) -> (r: char)
    ensures
        r == ascii_lower(c),
{
    if 'A' <= c && c <= 'Z' {
        let n = c as u32 + 32;
        assert(97 <= n <= 122);
        let r = char_of(n);
        r
    } else {
        c
    }
}

/// The char with a code in the ASCII lowercase range.
fn char_of(n: u32) -> (r: char)
    requires
        97 <= n <= 122,
    ensures
        r == n as char,
{
    let b = n as u8;
    b as char
}

fn matches_ignoring_case(a: &Vec<char>, b: &str) -> (r: bool)
    ensures
        r == same_ignoring_ascii_case(a@, b@),
{
    let bs = chars_of(b);
    if a.len() != bs.len() {
        return false;
    }
    let mut i: usize = 0;
    while i < a.len()
        invariant
            a@.len() == bs@.len(),
            bs@ == b@,
            i <= a@.len(),
            forall|k: int| 0 <= k < i ==> ascii_lower(#[trigger] a@[k]) == ascii_lower(b@[k]),
        decreases a@.len() - i,
    {
        if lower_char(a[i]) != lower_char(bs[i]) {
            return false;
        }
        i = i + 1;
    }
    true
}

/// The language a name stands for, ignoring case (`python`, `typescript`,
/// `javascript`, `rust`, `go`, `java`).
pub fn parse_language(name: &str) -> (r: Option<Language>)
    ensures
        r == spec_language_named(name@),
{
    let cs = chars_of(name);
    if matches_ignoring_case(&cs, "python") {
        Some(Language::Python)
    } else if matches_ignoring_case(&cs, "typescript") {
        Some(Language::TypeScript)
    } else if matches_ignoring_case(&cs, "javascript") {
        Some(Language::JavaScript)
    } else if matches_ignoring_case(&cs, "rust") {
        Some(Language::Rust)
    } else if matches_ignoring_case(&cs, "go") {
        Some(Language::Go)
    } else if matches_ignoring_case(&cs, "java") {
        Some(Language::Java)
    } else {
        None
    }
}

/// The context path that marks a file's summary chunk.
pub open spec fn summary_context() -> Seq<char> {
    "__file_summary__"@
}

/// The chunk that stores a file's summary: one chunk spanning no bytes,
/// its ID from the repository and the path at span 0..0, tagged with the
/// summary context path, holding the summary text; a language name that
/// names no language reads as Python.
pub fn file_summary_chunk(repo_id: &str, file_path: &str, language: &str, content: &str) -> (r: CodeChunk)
    ensures
        r.id.0 == spec_chunk_id(repo_id@, file_path@, 0, 0),
        r.language == match spec_language_named(language@) {
            Some(l) => l,
            None => Language::Python,
        },
        r.file_path@ == file_path@,
        r.byte_range.start == 0 && r.byte_range.end == 0,
        r.line_range.start == 0 && r.line_range.end == 0,
        r.chunk_index == 0,
        r.total_chunks == 1,
        r.context_path@ == summary_context(),
        r.content@ == content@,
        r.content_hash == xxh3_64_of(content.spec_bytes()),
{
    let lang = match parse_language(language) {
        Some(l) => l,
        None => Language::Python,
    };
    let content_hash = CodeChunk::compute_content_hash(content.as_bytes());
    CodeChunk {
        id: ChunkId::generate(repo_id, file_path, 0, 0),
        language: lang,
        file_path: str_to_string(file_path),
        byte_range: std::ops::Range { start: 0, end: 0 },
        line_range: std::ops::Range { start: 0, end: 0 },
        chunk_index: 0,
        total_chunks: 1,
        context_path: str_to_string("__file_summary__"),
        content: str_to_string(content),
        content_hash,
    }
}

} // verus!
