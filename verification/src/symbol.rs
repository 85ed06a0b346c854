use vstd::prelude::*;
use vstd::utf8::*;
use crate::hashing::{xxh3_128, xxh3_128_of};
use crate::ids::{
    le_bytes, le_value, lemma_le_bytes_len, lemma_le_bytes_of_le_value, lemma_le_value_bound,
    lemma_le_value_of_le_bytes, lemma_pow256_16, u128_from_le_bytes, u128_to_le_bytes,
};
use crate::language::Language;
use crate::text::{dec_chars, hex_chars, push_decimal, push_hex, string_push, string_push_str};

verus! {

/// The text whose XXH3-128 digest identifies a symbol:
/// `repo_id|relative_path|qualified_name|byte_start|byte_end`.
pub open spec fn symbol_id_text(
    repo_id: Seq<char>,
    relative_path: Seq<char>,
    qualified_name: Seq<char>,
    byte_start: nat,
    byte_end: nat,
) -> Seq<char> {
    repo_id + "|"@ + relative_path + "|"@ + qualified_name + "|"@ + dec_chars(byte_start) + "|"@
        + dec_chars(byte_end)
}

/// The identifier that `SymbolId::generate` gives for these fields.
pub open spec fn spec_symbol_id(
    repo_id: Seq<char>,
    relative_path: Seq<char>,
    qualified_name: Seq<char>,
    byte_start: nat,
    byte_end: nat,
) -> u128 {
    xxh3_128_of(encode_utf8(symbol_id_text(repo_id, relative_path, qualified_name, byte_start, byte_end)))
}

/// Deterministic symbol identifier, computed as XXH3-128 of
/// `repo_id|relative_path|qualified_name|byte_start|byte_end`.
#[derive(Debug, Clone, Copy, PartialEq, Eq, PartialOrd, Ord, Hash, Structural)]
pub struct SymbolId(pub u128);

impl SymbolId {
    /// Generate a deterministic symbol ID from its identifying fields.
    pub fn generate(
        repo_id: &str,
        relative_path: &str,
        qualified_name: &str,
        byte_start: usize,
        byte_end: usize,
    ) -> (r: SymbolId)
        ensures
            r.0 == spec_symbol_id(repo_id@, relative_path@, qualified_name@, byte_start as nat, byte_end as nat),
    {
        let mut input = String::new();
        string_push_str(&mut input, repo_id);
        string_push(&mut input, '|');
        string_push_str(&mut input, relative_path);
        string_push(&mut input, '|');
        string_push_str(&mut input, qualified_name);
        string_push(&mut input, '|');
        push_decimal(&mut input, byte_start as u128);
        string_push(&mut input, '|');
        push_decimal(&mut input, byte_end as u128);
        proof {
            reveal_strlit("|");
            assert(input@ =~= symbol_id_text(repo_id@, relative_path@, qualified_name@, byte_start as nat, byte_end as nat));
        }
        let bytes = input.as_str().as_bytes();
        SymbolId(xxh3_128(bytes))
    }

    /// Little-endian bytes of the identifier.
    pub fn as_bytes(&self) -> (r: [u8; 16])
        ensures
            r@ == le_bytes(self.0 as nat, 16),
    {
        u128_to_le_bytes(self.0)
    }

    /// The identifier whose little-endian bytes these are.
    pub fn from_bytes(bytes: [u8; 16]) -> (r: SymbolId)
        ensures
            r.0 as nat == le_value(bytes@),
    {
        SymbolId(u128_from_le_bytes(bytes))
    }

    /// The identifier as 32 lower-case hex digits (its display form).
    pub fn to_hex(&self) -> (r: String)
        ensures
            r@ == hex_chars(self.0 as nat, 32),
    {
        let mut s = String::new();
        push_hex(&mut s, self.0, 32);
        assert(s@ =~= hex_chars(self.0 as nat, 32));
        s
    }
}

/// Writing an identifier's bytes and reading them back gives the identifier.
pub proof fn lemma_id_bytes_round_trip(n: u128)
    ensures
        le_value(le_bytes(n as nat, 16)) == n,
        le_bytes(n as nat, 16).len() == 16,
{
    lemma_le_value_of_le_bytes(n as nat, 16);
    lemma_pow256_16();
    lemma_le_bytes_len(n as nat, 16);
}

/// Any sixteen bytes are the bytes of the identifier they decode to.
pub proof fn lemma_id_bytes_decode_encode(b: Seq<u8>)
    requires
        b.len() == 16,
    ensures
        le_bytes(le_value(b), 16) == b,
        le_value(b) <= u128::MAX,
{
    lemma_le_bytes_of_le_value(b);
    lemma_le_value_bound(b);
    lemma_pow256_16();
}

/// Kinds of code symbols that can be extracted from source files.
#[derive(Debug, Clone, Copy, PartialEq, Eq, Hash, Structural)]
pub enum SymbolKind {
    Function,
    Method,
    Class,
    Struct,
    Interface,
    Trait,
    Module,
    Package,
    Variable,
    Constant,
    Enum,
    TypeAlias,
}

pub open spec fn spec_symbol_kind_ordinal(k: SymbolKind) -> u8 {
    match k {
        SymbolKind::Function => 0,
        SymbolKind::Method => 1,
        SymbolKind::Class => 2,
        SymbolKind::Struct => 3,
        SymbolKind::Interface => 4,
        SymbolKind::Trait => 5,
        SymbolKind::Module => 6,
        SymbolKind::Package => 7,
        SymbolKind::Variable => 8,
        SymbolKind::Constant => 9,
        SymbolKind::Enum => 10,
        SymbolKind::TypeAlias => 11,
    }
}

pub open spec fn spec_symbol_kind_from_ordinal(n: u8) -> Option<SymbolKind> {
    if n == 0 { Some(SymbolKind::Function) }
    else if n == 1 { Some(SymbolKind::Method) }
    else if n == 2 { Some(SymbolKind::Class) }
    else if n == 3 { Some(SymbolKind::Struct) }
    else if n == 4 { Some(SymbolKind::Interface) }
    else if n == 5 { Some(SymbolKind::Trait) }
    else if n == 6 { Some(SymbolKind::Module) }
    else if n == 7 { Some(SymbolKind::Package) }
    else if n == 8 { Some(SymbolKind::Variable) }
    else if n == 9 { Some(SymbolKind::Constant) }
    else if n == 10 { Some(SymbolKind::Enum) }
    else if n == 11 { Some(SymbolKind::TypeAlias) }
    else { None }
}

impl SymbolKind {
    pub fn from_ordinal(n: u8) -> (r: Option<SymbolKind>)
        ensures
            r == spec_symbol_kind_from_ordinal(n),
    {
        match n {
            0 => Some(SymbolKind::Function),
            1 => Some(SymbolKind::Method),
            2 => Some(SymbolKind::Class),
            3 => Some(SymbolKind::Struct),
            4 => Some(SymbolKind::Interface),
            5 => Some(SymbolKind::Trait),
            6 => Some(SymbolKind::Module),
            7 => Some(SymbolKind::Package),
            8 => Some(SymbolKind::Variable),
            9 => Some(SymbolKind::Constant),
            10 => Some(SymbolKind::Enum),
            11 => Some(SymbolKind::TypeAlias),
            _ => None,
        }
    }

    pub fn ordinal(self) -> (r: u8)
        ensures
            r == spec_symbol_kind_ordinal(self),
    {
        match self {
            SymbolKind::Function => 0,
            SymbolKind::Method => 1,
            SymbolKind::Class => 2,
            SymbolKind::Struct => 3,
            SymbolKind::Interface => 4,
            SymbolKind::Trait => 5,
            SymbolKind::Module => 6,
            SymbolKind::Package => 7,
            SymbolKind::Variable => 8,
            SymbolKind::Constant => 9,
            SymbolKind::Enum => 10,
            SymbolKind::TypeAlias => 11,
        }
    }
}

/// A symbol kind survives the round trip through its ordinal.
pub proof fn lemma_symbol_kind_ordinal_round_trip(k: SymbolKind)
    ensures
        spec_symbol_kind_from_ordinal(spec_symbol_kind_ordinal(k)) == Some(k),
{
}

/// Exactly the ordinals below twelve decode, each to the kind with that ordinal.
pub proof fn lemma_symbol_kind_from_ordinal_inverse(n: u8)
    ensures
        spec_symbol_kind_from_ordinal(n) is Some <==> n < 12,
        spec_symbol_kind_from_ordinal(n) matches Some(k) ==> spec_symbol_kind_ordinal(k) == n,
{
}

/// A code symbol extracted from a source file.
#[derive(Debug, Clone)]
pub struct CodeSymbol {
    pub id: SymbolId,
    pub name: String,
    /// Dot-separated canonical qualified name (e.g., "module.Class.method").
    pub qualified_name: String,
    pub kind: SymbolKind,
    pub language: Language,
    /// Relative to project root, forward-slash normalized.
    pub file_path: String,
    pub byte_range: std::ops::Range<usize>,
    /// 0-indexed, end-exclusive.
    pub line_range: std::ops::Range<u32>,
    pub signature: Option<String>,
    pub doc_comment: Option<String>,
    /// XXH3-128 lower 64 bits of the symbol body bytes.
    pub body_hash: u64,
    /// Optional source text of the symbol body (truncated to 10 KB).
    pub body_text: Option<String>,
}

pub fn clone_opt_string(s: &Option<String>) -> (r: Option<String>)
    ensures
        r == *s,
{
    match s {
        Some(x) => Some(x.clone()),
        None => None,
    }
}

impl CodeSymbol {
    /// A field-for-field copy of the symbol.
    pub fn duplicate(&self) -> (r: CodeSymbol)
        ensures
            r == *self,
    {
        CodeSymbol {
            id: self.id,
            name: self.name.clone(),
            qualified_name: self.qualified_name.clone(),
            kind: self.kind,
            language: self.language,
            file_path: self.file_path.clone(),
            byte_range: std::ops::Range { start: self.byte_range.start, end: self.byte_range.end },
            line_range: std::ops::Range { start: self.line_range.start, end: self.line_range.end },
            signature: clone_opt_string(&self.signature),
            doc_comment: clone_opt_string(&self.doc_comment),
            body_hash: self.body_hash,
            body_text: clone_opt_string(&self.body_text),
        }
    }
}

} // verus!
