use vstd::prelude::*;
use vstd::utf8::*;
use std::collections::HashSet;
use crate::errors::StorageError;
use crate::hashing::{xxh3_128, xxh3_128_of};
use crate::ids::{le_bytes, le_value, u128_to_le_bytes};
use crate::language::{spec_language_from_ordinal, Language};
use crate::relation::{spec_relation_kind_from_ordinal, spec_relation_kind_ordinal, CodeRelation, RelationKind};
use crate::symbol::{spec_symbol_kind_from_ordinal, CodeSymbol, SymbolId, SymbolKind};
use crate::text::{dec_chars, hex_chars, push_decimal, push_hex, str_to_string, string_push, string_push_str};

verus! {

broadcast use vstd::std_specs::hash::group_hash_axioms;

/// Direction for graph traversal.
#[derive(Debug, Clone, Copy, PartialEq, Eq, Structural)]
pub enum TraversalDirection {
    Outgoing,
    Incoming,
    Both,
}

/// A symbol discovered during k-hop traversal.
#[derive(Debug, Clone, Copy, PartialEq, Eq, Structural)]
pub struct TraversalHit {
    pub symbol_id: SymbolId,
    pub depth: u32,
    pub relation_kind: RelationKind,
}

/// File metadata stored in the `files` table.
#[derive(Debug, Clone)]
pub struct FileMetadata {
    pub path: String,
    pub content_hash: u64,
    pub language: Language,
    pub size_bytes: u64,
    pub symbol_count: u32,
    pub last_indexed: String,
    pub last_modified: String,
}

/// Repository metadata stored in the `repositories` table.
#[derive(Debug, Clone)]
pub struct RepoMetadata {
    pub id: String,
    pub path: String,
    pub name: String,
    pub created_at: String,
}

/// The text whose XXH3-128 digest identifies a stored relation:
/// `source|target|kind ordinal|file path|line`, IDs in 32 hex digits.
pub open spec fn relation_id_text(rel: CodeRelation) -> Seq<char> {
    hex_chars(rel.source_id.0 as nat, 32) + seq!['|'] + hex_chars(rel.target_id.0 as nat, 32) + seq!['|']
        + dec_chars(spec_relation_kind_ordinal(rel.kind) as nat) + seq!['|'] + rel.file_path@ + seq!['|']
        + dec_chars(rel.line as nat)
}

/// The stored ID of a relation: the little-endian bytes of the XXH3-128 of
/// its identifying text.
pub fn compute_relation_id(rel: &CodeRelation) -> (r: [u8; 16])
    ensures
        r@ == le_bytes(xxh3_128_of(encode_utf8(relation_id_text(*rel))) as nat, 16),
{
    let mut input = String::new();
    push_hex(&mut input, rel.source_id.0, 32);
    string_push(&mut input, '|');
    push_hex(&mut input, rel.target_id.0, 32);
    string_push(&mut input, '|');
    push_decimal(&mut input, rel.kind.ordinal() as u128);
    string_push(&mut input, '|');
    string_push_str(&mut input, rel.file_path.as_str());
    string_push(&mut input, '|');
    push_decimal(&mut input, rel.line as u128);
    assert(input@ =~= relation_id_text(*rel));
    u128_to_le_bytes(xxh3_128(input.as_str().as_bytes()))
}

/// A neighbor read from a relations row: an ID blob of exactly 16 bytes and
/// a kind ordinal (taken modulo 256) that names a relation kind.
pub open spec fn spec_decode_neighbor(blob: Seq<u8>, kind_ord: i64) -> Option<(u128, RelationKind)> {
    if blob.len() != 16 {
        None
    } else {
        match spec_relation_kind_from_ordinal(kind_ord as u8) {
            Some(k) => Some((le_value(blob) as u128, k)),
            None => None,
        }
    }
}

/// Decode a neighbor from a relations row's ID blob and kind column; rows
/// that do not decode are passed over.
pub fn decode_neighbor(blob: &[u8], kind_ord: i64) -> (r: Option<(SymbolId, RelationKind)>)
    ensures
        match spec_decode_neighbor(blob@, kind_ord) {
            Some((id, k)) => r matches Some((s, k2)) && s.0 == id && k2 == k,
            None => r is None,
        },
{
    if blob.len() != 16 {
        return None;
    }
    let bytes = id_bytes(blob);
    #[verifier::truncate]
    let ord = kind_ord as u8;
    match RelationKind::from_ordinal(ord) {
        Some(rk) => Some((SymbolId::from_bytes(bytes), rk)),
        None => None,
    }
}

fn id_bytes(blob: &[u8]) -> (r: [u8; 16])
    requires
        blob@.len() == 16,
    ensures
        r@ == blob@,
{
    let mut b = [0u8; 16];
    let mut i: usize = 0;
    while i < 16
        invariant
            blob@.len() == 16,
            b@.len() == 16,
            i <= 16,
            forall|j: int| 0 <= j < i ==> b@[j] == blob@[j],
        decreases 16 - i,
    {
        b.set(i, blob[i]);
        i = i + 1;
    }
    assert(b@ =~= blob@);
    b
}

/// `n` in decimal with a leading `-` when negative.
pub open spec fn signed_dec_chars(n: int) -> Seq<char> {
    if n < 0 { seq!['-'] + dec_chars((-n) as nat) } else { dec_chars(n as nat) }
}

fn push_signed_decimal(s: &mut String, n: i64)
    ensures
        final(s)@ == old(s)@ + signed_dec_chars(n as int),
{
    if n < 0 {
        string_push(s, '-');
        let m: i128 = -(n as i128);
        push_decimal(s, m as u128);
    } else {
        push_decimal(s, n as u128);
    }
    assert(final(s)@ =~= old(s)@ + signed_dec_chars(n as int)) by {
    }
}

/// A `TransactionFailed` error whose reason is `prefix` and the number.
fn failed_with_number(prefix: &str, n: i64) -> (r: StorageError)
    ensures
        r matches StorageError::TransactionFailed { reason } && reason@ == prefix@ + signed_dec_chars(n as int),
{
    let mut reason = str_to_string(prefix);
    push_signed_decimal(&mut reason, n);
    StorageError::TransactionFailed { reason }
}

/// The columns of a `symbols` row, as read from the database.
pub struct SymbolRow {
    pub id: Vec<u8>,
    pub name: String,
    pub qualified_name: String,
    pub kind: i64,
    pub language: i64,
    pub file_path: String,
    pub line_start: i64,
    pub line_end: i64,
    pub byte_start: i64,
    pub byte_end: i64,
    pub signature: Option<String>,
    pub doc_comment: Option<String>,
    pub body_hash: i64,
}

/// Decode a `symbols` row: the ID must be 16 bytes, and the kind and
/// language ordinals (taken modulo 256) must name a kind and a language;
/// numbers are converted as the database stores them (two's complement).
pub fn symbol_from_row(row: SymbolRow) -> (r: Result<CodeSymbol, StorageError>)
    ensures
        row.id@.len() != 16 ==> (r matches Err(StorageError::TransactionFailed { reason }) && reason@
            == "invalid symbol id length: "@ + dec_chars(row.id@.len())),
        row.id@.len() == 16 && spec_symbol_kind_from_ordinal(row.kind as u8) is None ==> (r matches Err(
            StorageError::TransactionFailed { reason },
        ) && reason@ == "invalid symbol kind ordinal: "@ + signed_dec_chars(row.kind as int)),
        row.id@.len() == 16 && spec_symbol_kind_from_ordinal(row.kind as u8) is Some && spec_language_from_ordinal(
            row.language as u8,
        ) is None ==> (r matches Err(StorageError::TransactionFailed { reason }) && reason@
            == "invalid language ordinal: "@ + signed_dec_chars(row.language as int)),
        row.id@.len() == 16 && spec_symbol_kind_from_ordinal(row.kind as u8) is Some && spec_language_from_ordinal(
            row.language as u8,
        ) is Some ==> (r matches Ok(s) && {
            &&& s.id.0 == le_value(row.id@)
            &&& s.name == row.name
            &&& s.qualified_name == row.qualified_name
            &&& Some(s.kind) == spec_symbol_kind_from_ordinal(row.kind as u8)
            &&& Some(s.language) == spec_language_from_ordinal(row.language as u8)
            &&& s.file_path == row.file_path
            &&& s.byte_range.start == row.byte_start as usize
            &&& s.byte_range.end == row.byte_end as usize
            &&& s.line_range.start == row.line_start as u32
            &&& s.line_range.end == row.line_end as u32
            &&& s.signature == row.signature
            &&& s.doc_comment == row.doc_comment
            &&& s.body_hash == row.body_hash as u64
            &&& s.body_text is None
        }),
{
    if row.id.len() != 16 {
        let mut reason = str_to_string("invalid symbol id length: ");
        push_decimal(&mut reason, row.id.len() as u128);
        return Err(StorageError::TransactionFailed { reason });
    }
    let bytes = id_bytes(row.id.as_slice());
    #[verifier::truncate]
    let kind_ord = row.kind as u8;
    let kind = match SymbolKind::from_ordinal(kind_ord) {
        Some(k) => k,
        None => return Err(failed_with_number("invalid symbol kind ordinal: ", row.kind)),
    };
    #[verifier::truncate]
    let lang_ord = row.language as u8;
    let language = match Language::from_ordinal(lang_ord) {
        Some(l) => l,
        None => return Err(failed_with_number("invalid language ordinal: ", row.language)),
    };
    #[verifier::truncate]
    let byte_start = row.byte_start as usize;
    #[verifier::truncate]
    let byte_end = row.byte_end as usize;
    #[verifier::truncate]
    let line_start = row.line_start as u32;
    #[verifier::truncate]
    let line_end = row.line_end as u32;
    #[verifier::truncate]
    let body_hash = row.body_hash as u64;
    Ok(
        CodeSymbol {
            id: SymbolId::from_bytes(bytes),
            name: row.name,
            qualified_name: row.qualified_name,
            kind,
            language,
            file_path: row.file_path,
            byte_range: std::ops::Range { start: byte_start, end: byte_end },
            line_range: std::ops::Range { start: line_start, end: line_end },
            signature: row.signature,
            doc_comment: row.doc_comment,
            body_hash,
            body_text: None,
        },
    )
}

/// The columns of a `files` row, as read from the database.
pub struct FileRow {
    pub path: String,
    pub content_hash: i64,
    pub language: i64,
    pub size_bytes: i64,
    pub symbol_count: i64,
    pub last_indexed: String,
    pub last_modified: String,
}

/// Decode a `files` row: the language ordinal (taken modulo 256) must name
/// a language; numbers are converted as the database stores them.
pub fn file_metadata_from_row(row: FileRow) -> (r: Result<FileMetadata, StorageError>)
    ensures
        spec_language_from_ordinal(row.language as u8) is None ==> (r matches Err(
            StorageError::TransactionFailed { reason },
        ) && reason@ == "invalid language ordinal: "@ + signed_dec_chars(row.language as int)),
        spec_language_from_ordinal(row.language as u8) is Some ==> (r matches Ok(m) && {
            &&& m.path == row.path
            &&& m.content_hash == row.content_hash as u64
            &&& Some(m.language) == spec_language_from_ordinal(row.language as u8)
            &&& m.size_bytes == row.size_bytes as u64
            &&& m.symbol_count == row.symbol_count as u32
            &&& m.last_indexed == row.last_indexed
            &&& m.last_modified == row.last_modified
        }),
{
    #[verifier::truncate]
    let lang_ord = row.language as u8;
    let language = match Language::from_ordinal(lang_ord) {
        Some(l) => l,
        None => return Err(failed_with_number("invalid language ordinal: ", row.language)),
    };
    #[verifier::truncate]
    let content_hash = row.content_hash as u64;
    #[verifier::truncate]
    let size_bytes = row.size_bytes as u64;
    #[verifier::truncate]
    let symbol_count = row.symbol_count as u32;
    Ok(
        FileMetadata {
            path: row.path,
            content_hash,
            language,
            size_bytes,
            symbol_count,
            last_indexed: row.last_indexed,
            last_modified: row.last_modified,
        },
    )
}

/// Whether neighbor lookups in this direction read outgoing relations.
pub fn reads_outgoing(direction: TraversalDirection) -> (r: bool)
    ensures
        r == (direction == TraversalDirection::Outgoing || direction == TraversalDirection::Both),
{
    direction == TraversalDirection::Outgoing || direction == TraversalDirection::Both
}

/// How many incoming relations a neighbor lookup reads after `found`
/// outgoing ones: none unless the direction reads incoming relations, else
/// what is left of the fanout (the count taken modulo 2^32, as the lookup
/// does).
pub fn incoming_limit(direction: TraversalDirection, max_fanout: u32, found: usize) -> (r: u32)
    ensures
        !(direction == TraversalDirection::Incoming || direction == TraversalDirection::Both) ==> r == 0,
        (direction == TraversalDirection::Incoming || direction == TraversalDirection::Both) ==> r == if max_fanout
            >= found as u32 {
            (max_fanout - found as u32) as u32
        } else {
            0
        },
{
    if !(direction == TraversalDirection::Incoming || direction == TraversalDirection::Both) {
        return 0;
    }
    #[verifier::truncate]
    let f = found as u32;
    max_fanout.saturating_sub(f)
}

/// The IDs seen once the first `n` neighbors of a lookup are taken in.
pub open spec fn seen_after(visited: Set<u128>, nbs: Seq<(SymbolId, RelationKind)>, n: int) -> Set<u128>
    decreases n,
{
    if n <= 0 {
        visited
    } else {
        seen_after(visited, nbs, n - 1).insert(nbs[n - 1].0.0)
    }
}

/// The neighbors among the first `n` of a lookup that are new: neither
/// visited before nor earlier in the lookup, in order.
pub open spec fn fresh_neighbors(visited: Set<u128>, nbs: Seq<(SymbolId, RelationKind)>, n: int) -> Seq<(SymbolId, RelationKind)>
    decreases n,
{
    if n <= 0 {
        Seq::empty()
    } else {
        let prev = fresh_neighbors(visited, nbs, n - 1);
        if seen_after(visited, nbs, n - 1).contains(nbs[n - 1].0.0) { prev } else { prev.push(nbs[n - 1]) }
    }
}

/// Hits at `depth` for a list of neighbors.
pub open spec fn hits_at(fresh: Seq<(SymbolId, RelationKind)>, depth: u32) -> Seq<TraversalHit> {
    fresh.map_values(|p: (SymbolId, RelationKind)| TraversalHit { symbol_id: p.0, depth, relation_kind: p.1 })
}

/// The IDs of a list of neighbors.
pub open spec fn neighbor_ids(fresh: Seq<(SymbolId, RelationKind)>) -> Seq<SymbolId> {
    fresh.map_values(|p: (SymbolId, RelationKind)| p.0)
}

/// The IDs of the hits at `depth`, in order.
pub open spec fn ids_at_depth(hits: Seq<TraversalHit>, depth: u32) -> Seq<SymbolId>
    decreases hits.len(),
{
    if hits.len() == 0 {
        Seq::empty()
    } else {
        let prev = ids_at_depth(hits.drop_last(), depth);
        if hits.last().depth == depth { prev.push(hits.last().symbol_id) } else { prev }
    }
}

proof fn lemma_ids_at_deeper(hits: Seq<TraversalHit>, depth: u32)
    requires
        forall|i: int| 0 <= i < hits.len() ==> (#[trigger] hits[i]).depth < depth,
    ensures
        ids_at_depth(hits, depth) == Seq::<SymbolId>::empty(),
    decreases hits.len(),
{
    if hits.len() > 0 {
        assert(hits[hits.len() - 1].depth < depth);
        assert forall|i: int| 0 <= i < hits.drop_last().len() implies (#[trigger] hits.drop_last()[i]).depth < depth by {
            assert(hits.drop_last()[i] == hits[i]);
        }
        lemma_ids_at_deeper(hits.drop_last(), depth);
    }
}

/// The traversal's record of hits: the visited IDs are the start and the
/// hits, which are distinct and never the start, at depths from 1 to
/// `level` in order.
pub open spec fn hits_ok(start: SymbolId, visited: Set<u128>, hits: Seq<TraversalHit>, level: u32) -> bool {
    &&& visited == Set::new(
        |id: u128| id == start.0 || exists|i: int| 0 <= i < hits.len() && (#[trigger] hits[i]).symbol_id.0 == id,
    )
    &&& forall|i: int, j: int| 0 <= i < j < hits.len() ==> (#[trigger] hits[i]).symbol_id != (#[trigger] hits[j]).symbol_id
    &&& forall|i: int| 0 <= i < hits.len() ==> (#[trigger] hits[i]).symbol_id != start
    &&& forall|i: int| 0 <= i < hits.len() ==> 1 <= (#[trigger] hits[i]).depth <= level
    &&& forall|i: int, j: int| 0 <= i <= j < hits.len() ==> (#[trigger] hits[i]).depth <= (#[trigger] hits[j]).depth
}

proof fn lemma_push_hit(start: SymbolId, visited: Set<u128>, hits: Seq<TraversalHit>, level: u32, hit: TraversalHit)
    requires
        hits_ok(start, visited, hits, level),
        !visited.contains(hit.symbol_id.0),
        hit.depth == level,
        1 <= level,
    ensures
        hits_ok(start, visited.insert(hit.symbol_id.0), hits.push(hit), level),
{
    let h2 = hits.push(hit);
    let id = hit.symbol_id;
    assert forall|a: int| 0 <= a < hits.len() implies (#[trigger] hits[a]).symbol_id != id by {
        assert(visited.contains(hits[a].symbol_id.0));
    }
    assert(visited.insert(id.0) =~= Set::new(
        |x: u128| x == start.0 || exists|k: int| 0 <= k < h2.len() && (#[trigger] h2[k]).symbol_id.0 == x,
    )) by {
        assert forall|x: u128| visited.insert(id.0).contains(x) implies (x == start.0 || exists|k: int| 0 <= k < h2.len() && (#[trigger] h2[k]).symbol_id.0 == x) by {
            if x == id.0 {
                assert(h2[h2.len() - 1].symbol_id.0 == x);
            } else if x != start.0 {
                let k = choose|k: int| 0 <= k < hits.len() && (#[trigger] hits[k]).symbol_id.0 == x;
                assert(h2[k] == hits[k]);
            }
        }
        assert forall|x: u128| (x == start.0 || exists|k: int| 0 <= k < h2.len() && (#[trigger] h2[k]).symbol_id.0 == x) implies visited.insert(id.0).contains(x) by {
            if x != start.0 {
                let k = choose|k: int| 0 <= k < h2.len() && (#[trigger] h2[k]).symbol_id.0 == x;
                if k < hits.len() {
                    assert(hits[k] == h2[k]);
                }
            }
        }
    }
    assert forall|a: int, b: int| 0 <= a < b < h2.len() implies (#[trigger] h2[a]).symbol_id != (#[trigger] h2[b]).symbol_id by {
        assert(h2[a] == hits[a]);
        if b < hits.len() {
            assert(h2[b] == hits[b]);
        }
    }
    assert forall|a: int| 0 <= a < h2.len() implies (#[trigger] h2[a]).symbol_id != start by {
        if a < hits.len() {
            assert(h2[a] == hits[a]);
        } else {
            assert(visited.contains(start.0));
        }
    }
    assert forall|a: int| 0 <= a < h2.len() implies 1 <= (#[trigger] h2[a]).depth <= level by {
        if a < hits.len() {
            assert(h2[a] == hits[a]);
        }
    }
    assert forall|a: int, b: int| 0 <= a <= b < h2.len() implies (#[trigger] h2[a]).depth <= (#[trigger] h2[b]).depth by {
        if a < hits.len() {
            assert(h2[a] == hits[a]);
        }
        if b < hits.len() {
            assert(h2[b] == hits[b]);
        }
    }
}

/// A breadth-first k-hop traversal from one symbol, with cycle detection,
/// driven one neighbor lookup at a time: `next_node` names the symbol whose
/// neighbors are wanted, `feed` takes them in. Depth is capped at 5.
pub struct KhopTraversal {
    start: SymbolId,
    max_depth: u32,
    level: u32,
    done: bool,
    visited: HashSet<u128>,
    frontier: Vec<SymbolId>,
    pos: usize,
    next: Vec<SymbolId>,
    hits: Vec<TraversalHit>,
}

impl KhopTraversal {
    pub closed spec fn start_view(&self) -> SymbolId {
        self.start
    }

    pub closed spec fn max_depth_view(&self) -> u32 {
        self.max_depth
    }

    pub closed spec fn level_view(&self) -> u32 {
        self.level
    }

    pub closed spec fn done_view(&self) -> bool {
        self.done
    }

    pub closed spec fn visited_view(&self) -> Set<u128> {
        self.visited@
    }

    pub closed spec fn frontier_view(&self) -> Seq<SymbolId> {
        self.frontier@
    }

    pub closed spec fn pos_view(&self) -> int {
        self.pos as int
    }

    pub closed spec fn next_view(&self) -> Seq<SymbolId> {
        self.next@
    }

    pub closed spec fn hits_view(&self) -> Seq<TraversalHit> {
        self.hits@
    }

    /// The state's invariant: the visited IDs are the start and the hits,
    /// which are distinct, at depths from 1 to the current level in order;
    /// the pending next frontier is the hits of the current level; while
    /// running, the level is within the cap and a frontier node is due.
    pub closed spec fn wf(&self) -> bool {
        &&& self.max_depth <= 5
        &&& 1 <= self.level
        &&& self.level <= self.max_depth + 1
        &&& hits_ok(self.start, self.visited@, self.hits@, self.level)
        &&& forall|i: int| 0 <= i < self.hits@.len() ==> (#[trigger] self.hits@[i]).depth <= self.max_depth
        &&& self.next@ == self.level_ids()
        &&& !self.done ==> self.level <= self.max_depth && self.pos < self.frontier@.len()
    }

    /// The IDs of the hits at the current level, in order.
    pub closed spec fn level_ids(&self) -> Seq<SymbolId> {
        ids_at_depth(self.hits@, self.level)
    }

    /// Start a traversal from `start` to at most `max_depth` hops (capped at 5).
    pub fn new(start: SymbolId, max_depth: u32) -> (r: KhopTraversal)
        ensures
            r.wf(),
            r.start_view() == start,
            r.max_depth_view() == if max_depth < 5 { max_depth } else { 5 },
            r.level_view() == 1,
            r.done_view() == (r.max_depth_view() == 0),
            r.frontier_view() == seq![start],
            r.pos_view() == 0,
            r.next_view() == Seq::<SymbolId>::empty(),
            r.hits_view() == Seq::<TraversalHit>::empty(),
            r.visited_view() == set![start.0],
    {
        let max_depth = if max_depth < 5 { max_depth } else { 5 };
        let mut visited: HashSet<u128> = HashSet::new();
        visited.insert(start.0);
        let frontier = vec![start];
        let r = KhopTraversal {
            start,
            max_depth,
            level: 1,
            done: max_depth == 0,
            visited,
            frontier,
            pos: 0,
            next: Vec::new(),
            hits: Vec::new(),
        };
        assert(r.visited@ =~= set![start.0]);
        assert(r.visited@ =~= Set::new(
            |id: u128| id == r.start.0 || exists|i: int| 0 <= i < r.hits@.len() && (#[trigger] r.hits@[i]).symbol_id.0 == id,
        ));
        assert(hits_ok(r.start, r.visited@, r.hits@, r.level));
        assert(r.level_ids() =~= Seq::<SymbolId>::empty());
        r
    }

    /// The symbol whose neighbors are wanted next, or `None` when the
    /// traversal is over.
    pub fn next_node(&self) -> (r: Option<SymbolId>)
        requires
            self.wf(),
        ensures
            self.done_view() ==> r is None,
            !self.done_view() ==> r == Some(self.frontier_view()[self.pos_view()]),
    {
        if self.done {
            None
        } else {
            Some(self.frontier[self.pos])
        }
    }

    /// The hits found so far, in discovery order.
    pub fn hits(&self) -> (r: &Vec<TraversalHit>)
        ensures
            r@ == self.hits_view(),
    {
        &self.hits
    }

    /// The hits found, in discovery order.
    pub fn into_hits(self) -> (r: Vec<TraversalHit>)
        ensures
            r@ == self.hits_view(),
    {
        self.hits
    }
}

impl KhopTraversal {
    /// Take in the neighbors of the symbol `next_node` named: each one not
    /// seen before becomes a hit at the current depth and joins the next
    /// frontier; once the frontier is done, the next one starts a level
    /// deeper, and the traversal ends past the depth cap or when nothing new
    /// was found.
    pub fn feed(&mut self, neighbors: &[(SymbolId, RelationKind)])
        requires
            old(self).wf(),
            !old(self).done_view(),
        ensures
            final(self).wf(),
            final(self).start_view() == old(self).start_view(),
            final(self).max_depth_view() == old(self).max_depth_view(),
            final(self).visited_view() == seen_after(old(self).visited_view(), neighbors@, neighbors@.len() as int),
            final(self).hits_view() == old(self).hits_view() + hits_at(
                fresh_neighbors(old(self).visited_view(), neighbors@, neighbors@.len() as int),
                old(self).level_view(),
            ),
            old(self).pos_view() + 1 < old(self).frontier_view().len() ==> {
                &&& final(self).frontier_view() == old(self).frontier_view()
                &&& final(self).pos_view() == old(self).pos_view() + 1
                &&& final(self).level_view() == old(self).level_view()
                &&& !final(self).done_view()
                &&& final(self).next_view() == old(self).next_view() + neighbor_ids(
                    fresh_neighbors(old(self).visited_view(), neighbors@, neighbors@.len() as int),
                )
            },
            old(self).pos_view() + 1 >= old(self).frontier_view().len() ==> {
                &&& final(self).frontier_view() == old(self).next_view() + neighbor_ids(
                    fresh_neighbors(old(self).visited_view(), neighbors@, neighbors@.len() as int),
                )
                &&& final(self).pos_view() == 0
                &&& final(self).level_view() == old(self).level_view() + 1
                &&& final(self).next_view() == Seq::<SymbolId>::empty()
                &&& final(self).done_view() == (old(self).level_view() + 1 > old(self).max_depth_view()
                    || final(self).frontier_view().len() == 0)
            },
    {
        let ghost v0 = self.visited@;
        let ghost h0 = self.hits@;
        let ghost n0 = self.next@;
        let ghost nbs = neighbors@;
        let mut i: usize = 0;
        assert(h0 + hits_at(fresh_neighbors(v0, nbs, 0), self.level) =~= h0);
        assert(n0 + neighbor_ids(fresh_neighbors(v0, nbs, 0)) =~= n0);
        while i < neighbors.len()
            invariant
                i <= nbs.len(),
                nbs == neighbors@,
                self.start == old(self).start,
                self.max_depth == old(self).max_depth,
                self.level == old(self).level,
                self.done == old(self).done,
                self.frontier == old(self).frontier,
                self.pos == old(self).pos,
                v0 == old(self).visited@,
                h0 == old(self).hits@,
                n0 == old(self).next@,
                !self.done,
                self.level <= self.max_depth <= 5,
                1 <= self.level,
                self.pos < self.frontier@.len(),
                self.visited@ == seen_after(v0, nbs, i as int),
                self.hits@ == h0 + hits_at(fresh_neighbors(v0, nbs, i as int), self.level),
                self.next@ == n0 + neighbor_ids(fresh_neighbors(v0, nbs, i as int)),
                hits_ok(self.start, self.visited@, self.hits@, self.level),
                forall|a: int| 0 <= a < self.hits@.len() ==> (#[trigger] self.hits@[a]).depth <= self.max_depth,
                self.next@ == ids_at_depth(self.hits@, self.level),
            decreases nbs.len() - i,
        {
            let (id, kind) = neighbors[i];
            let ghost fr = fresh_neighbors(v0, nbs, i as int);
            let ghost hits_before = self.hits@;
            let ghost next_before = self.next@;
            let ghost vis_before = self.visited@;
            if self.visited.insert(id.0) {
                let hit = TraversalHit { symbol_id: id, depth: self.level, relation_kind: kind };
                self.hits.push(hit);
                self.next.push(id);
                proof {
                    assert(fresh_neighbors(v0, nbs, i + 1) == fr.push(nbs[i as int]));
                    assert(hits_at(fr.push(nbs[i as int]), self.level) =~= hits_at(fr, self.level).push(hit));
                    assert(self.hits@ =~= h0 + hits_at(fresh_neighbors(v0, nbs, i + 1), self.level));
                    assert(neighbor_ids(fr.push(nbs[i as int])) =~= neighbor_ids(fr).push(id));
                    assert(self.next@ =~= n0 + neighbor_ids(fresh_neighbors(v0, nbs, i + 1)));
                    assert(self.hits@.drop_last() =~= hits_before);
                    lemma_push_hit(self.start, vis_before, hits_before, self.level, hit);
                    assert(self.visited@ == vis_before.insert(id.0));
                    assert(self.hits@ =~= hits_before.push(hit));
                    assert forall|a: int| 0 <= a < self.hits@.len() implies (#[trigger] self.hits@[a]).depth <= self.max_depth by {
                        if a < hits_before.len() {
                            assert(self.hits@[a] == hits_before[a]);
                        }
                    }
                }
            } else {
                proof {
                    assert(self.visited@ =~= vis_before);
                    assert(fresh_neighbors(v0, nbs, i + 1) == fr);
                }
            }
            i = i + 1;
        }
        if self.pos < self.frontier.len() - 1 {
            self.pos = self.pos + 1;
        } else {
            let ghost hs = self.hits@;
            let mut next: Vec<SymbolId> = Vec::new();
            std::mem::swap(&mut next, &mut self.next);
            self.frontier = next;
            self.pos = 0;
            self.level = self.level + 1;
            self.done = self.level > self.max_depth || self.frontier.len() == 0;
            proof {
                lemma_ids_at_deeper(hs, self.level);
            }
        }
    }
}

/// In every state of a traversal, the hits name distinct symbols, never
/// the start, at depths from 1 to the depth cap (at most 5), in
/// nondecreasing order.
pub proof fn lemma_khop_hits(t: KhopTraversal)
    requires
        t.wf(),
    ensures
        forall|i: int, j: int|
            0 <= i < j < t.hits_view().len() ==> (#[trigger] t.hits_view()[i]).symbol_id != (#[trigger] t.hits_view()[j]).symbol_id,
        forall|i: int| 0 <= i < t.hits_view().len() ==> (#[trigger] t.hits_view()[i]).symbol_id != t.start_view(),
        forall|i: int|
            0 <= i < t.hits_view().len() ==> 1 <= (#[trigger] t.hits_view()[i]).depth <= t.max_depth_view() <= 5,
        forall|i: int, j: int|
            0 <= i <= j < t.hits_view().len() ==> (#[trigger] t.hits_view()[i]).depth <= (#[trigger] t.hits_view()[j]).depth,
{
}

} // verus!
