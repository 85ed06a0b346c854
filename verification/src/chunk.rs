use vstd::prelude::*;
use vstd::utf8::*;
use crate::hashing::{xxh3_128, xxh3_128_of, xxh3_64, xxh3_64_of};
use crate::ids::{le_bytes, le_value, u128_from_le_bytes, u128_to_le_bytes};
use crate::language::Language;
use crate::text::{dec_chars, hex_chars, push_decimal, push_hex, string_push, string_push_str};

verus! {

/// The text whose XXH3-128 digest identifies a chunk:
/// `repo_id|relative_path|chunk|byte_start|byte_end`.
pub open spec fn chunk_id_text(
    repo_id: Seq<char>,
    relative_path: Seq<char>,
    byte_start: nat,
    byte_end: nat,
) -> Seq<char> {
    repo_id + "|"@ + relative_path + "|chunk|"@ + dec_chars(byte_start) + "|"@ + dec_chars(byte_end)
}

pub open spec fn spec_chunk_id(
    repo_id: Seq<char>,
    relative_path: Seq<char>,
    byte_start: nat,
    byte_end: nat,
) -> u128 {
    xxh3_128_of(encode_utf8(chunk_id_text(repo_id, relative_path, byte_start, byte_end)))
}

/// Deterministic chunk identifier, computed as XXH3-128 of
/// `repo_id|relative_path|chunk|byte_start|byte_end`.
///
/// The literal `chunk` in the hash input distinguishes chunk IDs from symbol IDs.
#[derive(Debug, Clone, Copy, PartialEq, Eq, PartialOrd, Ord, Hash, Structural)]
pub struct ChunkId(pub u128);

impl ChunkId {
    /// Generate a deterministic chunk ID from its identifying fields.
    pub fn generate(repo_id: &str, relative_path: &str, byte_start: usize, byte_end: usize) -> (r: ChunkId)
        ensures
            r.0 == spec_chunk_id(repo_id@, relative_path@, byte_start as nat, byte_end as nat),
    {
        let mut input = String::new();
        string_push_str(&mut input, repo_id);
        string_push(&mut input, '|');
        string_push_str(&mut input, relative_path);
        string_push_str(&mut input, "|chunk|");
        push_decimal(&mut input, byte_start as u128);
        string_push(&mut input, '|');
        push_decimal(&mut input, byte_end as u128);
        proof {
            reveal_strlit("|");
            reveal_strlit("|chunk|");
            assert(input@ =~= chunk_id_text(repo_id@, relative_path@, byte_start as nat, byte_end as nat));
        }
        ChunkId(xxh3_128(input.as_str().as_bytes()))
    }

    pub fn as_bytes(&self) -> (r: [u8; 16])
        ensures
            r@ == le_bytes(self.0 as nat, 16),
    {
        u128_to_le_bytes(self.0)
    }

    pub fn from_bytes(bytes: [u8; 16]) -> (r: ChunkId)
        ensures
            r.0 as nat == le_value(bytes@),
    {
        ChunkId(u128_from_le_bytes(bytes))
    }

    /// The identifier as 32 lower-case hex digits (its display form).
    pub fn to_hex(&self) -> (r: String)
        ensures
            r@ == hex_chars(self.0 as nat, 32),
    {
        let mut s = String::new();
        push_hex(&mut s, self.0, 32);
        assert(s@ =~= hex_chars(self.0 as nat, 32));
        s
    }
}

/// An AST-aware code chunk extracted from a source file.
#[derive(Debug, Clone)]
pub struct CodeChunk {
    pub id: ChunkId,
    pub language: Language,
    /// Relative to project root, forward-slash normalized.
    pub file_path: String,
    pub byte_range: std::ops::Range<usize>,
    /// 0-indexed, end-exclusive.
    pub line_range: std::ops::Range<u32>,
    /// 0-based index of this chunk within the file.
    pub chunk_index: u32,
    /// Total number of chunks in the file.
    pub total_chunks: u32,
    /// Dot-separated ancestor scope chain; empty for top-level chunks.
    pub context_path: String,
    /// Source text of the chunk (capped at 10 KB).
    pub content: String,
    /// XXH3-64 of the chunk content bytes.
    pub content_hash: u64,
}

impl CodeChunk {
    /// A field-for-field copy of the chunk.
    pub fn duplicate(&self) -> (r: CodeChunk)
        ensures
            r == *self,
    {
        CodeChunk {
            id: self.id,
            language: self.language,
            file_path: self.file_path.clone(),
            byte_range: std::ops::Range { start: self.byte_range.start, end: self.byte_range.end },
            line_range: std::ops::Range { start: self.line_range.start, end: self.line_range.end },
            chunk_index: self.chunk_index,
            total_chunks: self.total_chunks,
            context_path: self.context_path.clone(),
            content: self.content.clone(),
            content_hash: self.content_hash,
        }
    }

    /// Compute a content hash for the given bytes.
    pub fn compute_content_hash(content: &[u8]) -> (r: u64)
        ensures
            r == xxh3_64_of(content@),
    {
        xxh3_64(content)
    }
}

} // verus!
