use vstd::prelude::*;
use vstd::string::StringSliceAdditionalSpecFns;
use crate::chunk::ChunkId;
use crate::pipeline::capped_text;
use crate::symbol::SymbolId;
use crate::text::{
    chars_of, hex_chars, lemma_hex_round_trip, lemma_pow16_32, parse_hex_u128, push_hex, spec_parse_hex_u128,
    str_to_string, string_push, string_push_str, truncate_utf8_bytes,
};
use vstd::utf8::*;

verus! {

/// Bytes of document content indexed per symbol or chunk (10 KB).
pub const CONTENT_MAX_BYTES: usize = 10_240;

/// Pending documents that force a commit.
pub const BATCH_COUNT_THRESHOLD: usize = 500;

/// Milliseconds since the last commit that force a commit.
pub const BATCH_TIME_THRESHOLD_MS: u128 = 500;

/// The characters that separate the words of a file path for indexing.
pub open spec fn is_path_separator(c: char) -> bool {
    c == '/' || c == '\\' || c == '.' || c == '_' || c == '-'
}

/// Scanning the first `n` chars of a path: the finished words and the word
/// in progress.
pub open spec fn scan_path_words(s: Seq<char>, n: int) -> (Seq<Seq<char>>, Seq<char>)
    decreases n,
{
    if n <= 0 {
        (Seq::empty(), Seq::empty())
    } else {
        let (words, cur) = scan_path_words(s, n - 1);
        if is_path_separator(s[n - 1]) {
            if cur.len() > 0 { (words.push(cur), Seq::empty()) } else { (words, Seq::empty()) }
        } else {
            (words, cur.push(s[n - 1]))
        }
    }
}

/// The non-empty words of a path, between separators, in order.
pub open spec fn path_words(s: Seq<char>) -> Seq<Seq<char>> {
    let (words, cur) = scan_path_words(s, s.len() as int);
    if cur.len() > 0 { words.push(cur) } else { words }
}

/// Words joined with single spaces.
pub open spec fn join_spaced(words: Seq<Seq<char>>) -> Seq<char>
    decreases words.len(),
{
    if words.len() == 0 {
        Seq::empty()
    } else if words.len() == 1 {
        words[0]
    } else {
        join_spaced(words.drop_last()) + seq![' '] + words.last()
    }
}

fn push_word(out: &mut String, count: &mut usize, word: &String, Ghost(words): Ghost<Seq<Seq<char>>>)
    requires
        old(out)@ == join_spaced(words),
        *old(count) == words.len(),
        words.len() < usize::MAX,
    ensures
        final(out)@ == join_spaced(words.push(word@)),
        *final(count) == words.len() + 1,
{
    assert(words.push(word@).drop_last() =~= words);
    if *count > 0 {
        string_push(out, ' ');
    } else {
        assert(words =~= Seq::<Seq<char>>::empty());
    }
    string_push_str(out, word.as_str());
    *count = *count + 1;
    assert(final(out)@ =~= join_spaced(words.push(word@)));
}

/// The words of a file path (split on `/`, `\`, `.`, `_` and `-`, empty
/// ones dropped), joined with spaces, so that full-text search matches on
/// directory and file names.
pub fn path_tokens(path: &str) -> (r: String)
    ensures
        r@ == join_spaced(path_words(path@)),
{
    let cs = chars_of(path);
    let mut out = String::new();
    let mut count: usize = 0;
    let mut cur = String::new();
    let mut i: usize = 0;
    let ghost s = path@;
    let n = cs.len();
    while i < cs.len()
        invariant
            cs@ == s,
            i <= s.len(),
            out@ == join_spaced(scan_path_words(s, i as int).0),
            count == scan_path_words(s, i as int).0.len(),
            count + cur@.len() <= i,
            n == s.len(),
            cur@ == scan_path_words(s, i as int).1,
        decreases s.len() - i,
    {
        let c = cs[i];
        if c == '/' || c == '\\' || c == '.' || c == '_' || c == '-' {
            if cur.as_str().is_empty() == false {
                push_word(&mut out, &mut count, &cur, Ghost(scan_path_words(s, i as int).0));
            }
            cur = String::new();
        } else {
            string_push(&mut cur, c);
        }
        i = i + 1;
    }
    if cur.as_str().is_empty() == false {
        push_word(&mut out, &mut count, &cur, Ghost(scan_path_words(s, i as int).0));
    }
    out
}

/// A text cut to at most 10 KB of UTF-8 on a char boundary.
fn capped(t: &str) -> (r: String)
    ensures
        r@ == capped_text(t@, CONTENT_MAX_BYTES as int),
{
    let b = t.as_bytes();
    let _n = b.len();
    let c = truncate_utf8_bytes(t, CONTENT_MAX_BYTES);
    proof {
        broadcast use encode_utf8_decode_utf8;
        assert(c@ == decode_utf8(c.spec_bytes()));
    }
    c.to_owned()
}

/// The indexed content of a symbol's document: the path's words, the doc
/// comment, and the body cut to 10 KB, separated by spaces.
pub fn symbol_document_content(file_path: &str, doc_comment: Option<&str>, body: Option<&str>) -> (r: String)
    ensures
        r@ == join_spaced(path_words(file_path@)) + seq![' '] + match doc_comment {
            Some(d) => d@,
            None => Seq::<char>::empty(),
        } + seq![' '] + match body {
            Some(b) => capped_text(b@, CONTENT_MAX_BYTES as int),
            None => Seq::<char>::empty(),
        },
{
    let mut s = path_tokens(file_path);
    string_push(&mut s, ' ');
    match doc_comment {
        Some(d) => string_push_str(&mut s, d),
        None => {},
    }
    string_push(&mut s, ' ');
    match body {
        Some(b) => {
            let c = capped(b);
            string_push_str(&mut s, c.as_str());
        },
        None => {},
    }
    s
}

/// The indexed content of a chunk's document: the path's words, the
/// context path, and the content cut to 10 KB, separated by spaces.
pub fn chunk_document_content(file_path: &str, context_path: &str, content: &str) -> (r: String)
    ensures
        r@ == join_spaced(path_words(file_path@)) + seq![' '] + context_path@ + seq![' '] + capped_text(
            content@,
            CONTENT_MAX_BYTES as int,
        ),
{
    let mut s = path_tokens(file_path);
    string_push(&mut s, ' ');
    string_push_str(&mut s, context_path);
    string_push(&mut s, ' ');
    let c = capped(content);
    string_push_str(&mut s, c.as_str());
    s
}

/// The key a chunk's document is stored under: `c:` and its 32 hex digits,
/// apart from the keys of symbol documents.
pub fn chunk_document_key(id: ChunkId) -> (r: String)
    ensures
        r@ == seq!['c', ':'] + hex_chars(id.0 as nat, 32),
{
    let mut s = String::new();
    string_push(&mut s, 'c');
    string_push(&mut s, ':');
    push_hex(&mut s, id.0, 32);
    assert(s@ =~= seq!['c', ':'] + hex_chars(id.0 as nat, 32));
    s
}

/// Parse a stored symbol key: a hexadecimal SymbolId.
pub fn parse_symbol_id_hex(hex: &str) -> (r: Option<SymbolId>)
    ensures
        match spec_parse_hex_u128(hex@) {
            Some(n) => r == Some(SymbolId(n)),
            None => r is None,
        },
{
    match parse_hex_u128(hex) {
        Some(n) => Some(SymbolId(n)),
        None => None,
    }
}

/// Parse a stored chunk key: `c:` then a hexadecimal ChunkId.
pub fn parse_chunk_id_hex(hex: &str) -> (r: Option<ChunkId>)
    ensures
        hex@.len() >= 2 && hex@[0] == 'c' && hex@[1] == ':' ==> match spec_parse_hex_u128(hex@.skip(2)) {
            Some(n) => r == Some(ChunkId(n)),
            None => r is None,
        },
        !(hex@.len() >= 2 && hex@[0] == 'c' && hex@[1] == ':') ==> r is None,
{
    let cs = chars_of(hex);
    if cs.len() < 2 || cs[0] != 'c' || cs[1] != ':' {
        return None;
    }
    let mut rest = String::new();
    let mut i: usize = 2;
    while i < cs.len()
        invariant
            cs@ == hex@,
            2 <= i <= cs@.len(),
            rest@ == hex@.subrange(2, i as int),
        decreases cs@.len() - i,
    {
        string_push(&mut rest, cs[i]);
        i = i + 1;
        assert(rest@ =~= hex@.subrange(2, i as int));
    }
    assert(rest@ =~= hex@.skip(2));
    match parse_hex_u128(rest.as_str()) {
        Some(n) => Some(ChunkId(n)),
        None => None,
    }
}

/// A symbol's key, as stored, parses back to the symbol's ID.
pub proof fn lemma_symbol_key_round_trip(id: SymbolId)
    ensures
        spec_parse_hex_u128(hex_chars(id.0 as nat, 32)) == Some(id.0),
{
    lemma_hex_round_trip(id.0 as nat, 32);
    lemma_pow16_32();
    let s = hex_chars(id.0 as nat, 32);
    assert(s.len() == 32) by {
        lemma_hex_chars_len(id.0 as nat, 32);
    }
    assert(s[0] != '+') by {
        assert(hex_value_of_some(s));
    }
}

proof fn lemma_hex_chars_len(n: nat, k: nat)
    ensures
        hex_chars(n, k).len() == k,
    decreases k,
{
    if k > 0 {
        lemma_hex_chars_len(n / 16, (k - 1) as nat);
    }
}

spec fn hex_value_of_some(s: Seq<char>) -> bool {
    crate::text::hex_value_of(s[0]) is Some
}

/// A chunk's key, as stored, parses back to the chunk's ID.
pub proof fn lemma_chunk_key_round_trip(id: ChunkId)
    ensures
        ({
            let key = seq!['c', ':'] + hex_chars(id.0 as nat, 32);
            &&& key.len() >= 2 && key[0] == 'c' && key[1] == ':'
            &&& spec_parse_hex_u128(key.skip(2)) == Some(id.0)
        }),
{
    let key = seq!['c', ':'] + hex_chars(id.0 as nat, 32);
    assert(key.skip(2) =~= hex_chars(id.0 as nat, 32));
    lemma_symbol_key_round_trip(SymbolId(id.0));
}

/// Whether pending writes are committed now: at 500 pending documents, or
/// 500 ms after the last commit.
pub fn commit_due(pending: usize, elapsed_ms: u128) -> (r: bool)
    ensures
        r == (pending >= BATCH_COUNT_THRESHOLD || elapsed_ms >= BATCH_TIME_THRESHOLD_MS),
{
    pending >= BATCH_COUNT_THRESHOLD || elapsed_ms >= BATCH_TIME_THRESHOLD_MS
}

/// The writes a store holds that are not committed yet.
pub struct PendingWrites {
    count: usize,
}

impl PendingWrites {
    pub closed spec fn spec_count(&self) -> nat {
        self.count as nat
    }

    /// No writes pending.
    pub fn new() -> (r: PendingWrites)
        ensures
            r.spec_count() == 0,
    {
        PendingWrites { count: 0 }
    }

    /// The number of writes pending.
    pub fn count(&self) -> (r: usize)
        ensures
            r == self.spec_count(),
    {
        self.count
    }

    /// One more write, `elapsed_ms` after the last commit. Whether a commit
    /// is due now: when none is, fewer writes than the commit threshold are
    /// pending.
    pub fn record_write(&mut self, elapsed_ms: u128) -> (due: bool)
        requires
            old(self).spec_count() < usize::MAX,
        ensures
            final(self).spec_count() == old(self).spec_count() + 1,
            due == (final(self).spec_count() >= BATCH_COUNT_THRESHOLD || elapsed_ms >= BATCH_TIME_THRESHOLD_MS),
            !due ==> final(self).spec_count() < BATCH_COUNT_THRESHOLD,
    {
        self.count = self.count + 1;
        commit_due(self.count, elapsed_ms)
    }

    /// The pending writes were committed.
    pub fn committed(&mut self)
        ensures
            final(self).spec_count() == 0,
    {
        self.count = 0;
    }
}

} // verus!
