//! AST-aware chunking: child nodes of the syntax tree are greedily grouped
//! into windows that respect a non-whitespace character budget.
use vstd::prelude::*;
use vstd::utf8::*;
use vstd::string::StringSliceAdditionalSpecFns;
use crate::chunk::{spec_chunk_id, ChunkId, CodeChunk};
use crate::hashing::{xxh3_64, xxh3_64_of};
use crate::language::{str_eq, Language};
use crate::qualified_name::join_dotted;
use crate::text::{
    lemma_last_boundary, str_from_utf8, str_to_string, string_push, string_push_str, truncate_utf8_bytes,
    truncated_len,
};

verus! {

/// A node of a parsed syntax tree: its kind, the name of the field it fills
/// in its parent (if any), its byte span and its first and last rows in the
/// source, and its children in source order.
#[derive(Debug)]
pub struct SyntaxNode {
    pub kind: String,
    pub field: Option<String>,
    pub start_byte: usize,
    pub end_byte: usize,
    pub start_row: usize,
    pub end_row: usize,
    pub children: Vec<SyntaxNode>,
}

/// Configuration for the AST chunking algorithm.
#[derive(Debug, Clone)]
pub struct ChunkConfig {
    /// Maximum non-whitespace characters per chunk.
    pub max_chunk_chars: usize,
    /// Number of overlapping nodes between adjacent chunks.
    pub overlap_nodes: usize,
}

impl ChunkConfig {
    /// The defaults: 1500 non-whitespace chars per chunk, one node of overlap.
    pub fn default() -> (r: ChunkConfig)
        ensures
            r.max_chunk_chars == 1500,
            r.overlap_nodes == 1,
    {
        ChunkConfig { max_chunk_chars: 1500, overlap_nodes: 1 }
    }
}

/// Maximum content size stored per chunk (10 KB).
pub const CHUNK_CONTENT_MAX_BYTES: usize = 10240;

/// Space, tab, line feed, form feed and carriage return.
pub open spec fn is_ascii_ws(b: u8) -> bool {
    b == 32 || b == 9 || b == 10 || b == 12 || b == 13
}

/// Number of non-whitespace bytes in a byte sequence.
pub open spec fn nws_count(s: Seq<u8>) -> nat
    decreases s.len(),
{
    if s.len() == 0 {
        0
    } else {
        nws_count(s.drop_last()) + if is_ascii_ws(s.last()) { 0nat } else { 1nat }
    }
}

/// `c[i]` counts the non-whitespace bytes before position `i`.
pub open spec fn is_nws_cumsum(c: Seq<u32>, source: Seq<u8>) -> bool {
    &&& c.len() == source.len() + 1
    &&& forall|i: int| 0 <= i < c.len() ==> #[trigger] c[i] == nws_count(source.take(i))
}

pub open spec fn cumsum_monotone(c: Seq<u32>) -> bool {
    &&& c.len() >= 1
    &&& forall|i: int, j: int| 0 <= i <= j < c.len() ==> c[i] <= c[j]
}

proof fn lemma_nws_count_le(s: Seq<u8>)
    ensures
        nws_count(s) <= s.len(),
    decreases s.len(),
{
    if s.len() > 0 {
        lemma_nws_count_le(s.drop_last());
    }
}

proof fn lemma_nws_count_mono(s: Seq<u8>, i: int, j: int)
    requires
        0 <= i <= j <= s.len(),
    ensures
        nws_count(s.take(i)) <= nws_count(s.take(j)),
    decreases j - i,
{
    if i < j {
        lemma_nws_count_mono(s, i, j - 1);
        assert(s.take(j).drop_last() =~= s.take(j - 1));
    }
}

/// Build a cumulative sum of non-whitespace byte counts:
/// `cumsum[i]` = number of non-whitespace bytes in `source[0..i]`.
pub fn build_nws_cumsum(source: &[u8]) -> (r: Vec<u32>)
    requires
        source@.len() < u32::MAX,
    ensures
        is_nws_cumsum(r@, source@),
        cumsum_monotone(r@),
{
    let mut cumsum: Vec<u32> = Vec::new();
    cumsum.push(0);
    let mut count: u32 = 0;
    let mut i: usize = 0;
    assert(source@.take(0) =~= Seq::<u8>::empty());
    while i < source.len()
        invariant
            i <= source@.len(),
            source@.len() < u32::MAX,
            cumsum@.len() == i + 1,
            count == nws_count(source@.take(i as int)),
            forall|k: int| 0 <= k <= i ==> #[trigger] cumsum@[k] == nws_count(source@.take(k)),
        decreases source@.len() - i,
    {
        let b = source[i];
        proof {
            assert(source@.take(i + 1).drop_last() =~= source@.take(i as int));
            lemma_nws_count_le(source@.take(i as int));
        }
        if !(b == 32 || b == 9 || b == 10 || b == 12 || b == 13) {
            count = count + 1;
        }
        cumsum.push(count);
        i = i + 1;
    }
    proof {
        assert forall|a: int, b: int| 0 <= a <= b < cumsum@.len() implies cumsum@[a] <= cumsum@[b] by {
            lemma_nws_count_mono(source@, a, b);
        }
    }
    cumsum
}

/// Non-whitespace bytes in `[start, end)`, or 0 for an empty or out-of-range span.
pub open spec fn spec_nws(c: Seq<u32>, start: int, end: int) -> int {
    if end <= start || end > c.len() - 1 {
        0
    } else {
        c[end] - c[start]
    }
}

/// Query the non-whitespace byte count in `source[start..end]` in O(1).
pub fn nws_size(cumsum: &[u32], start: usize, end: usize) -> (r: u32)
    requires
        cumsum_monotone(cumsum@),
    ensures
        r == spec_nws(cumsum@, start as int, end as int),
{
    if end <= start || end > cumsum.len() - 1 {
        return 0;
    }
    cumsum[end] - cumsum[start]
}

pub open spec fn spec_is_scope_kind(kind: Seq<char>) -> bool {
    kind == "function_definition"@ || kind == "class_definition"@ || kind == "decorated_definition"@
        || kind == "method_definition"@ || kind == "function_declaration"@
        || kind == "class_declaration"@ || kind == "impl_item"@ || kind == "function_item"@
        || kind == "struct_item"@ || kind == "enum_item"@ || kind == "trait_item"@
        || kind == "interface_declaration"@ || kind == "type_declaration"@
        || kind == "method_declaration"@ || kind == "constructor_declaration"@
}

/// Node kinds that represent named scopes for the context path.
pub fn is_scope_node(kind: &str) -> (r: bool)
    ensures
        r == spec_is_scope_kind(kind@),
{
    str_eq(kind, "function_definition") || str_eq(kind, "class_definition")
        || str_eq(kind, "decorated_definition") || str_eq(kind, "method_definition")
        || str_eq(kind, "function_declaration") || str_eq(kind, "class_declaration")
        || str_eq(kind, "impl_item") || str_eq(kind, "function_item")
        || str_eq(kind, "struct_item") || str_eq(kind, "enum_item")
        || str_eq(kind, "trait_item") || str_eq(kind, "interface_declaration")
        || str_eq(kind, "type_declaration") || str_eq(kind, "method_declaration")
        || str_eq(kind, "constructor_declaration")
}

/// A window of consecutive child nodes being accumulated into a chunk.
pub struct Window {
    pub nodes: Vec<(usize, usize)>,
    pub nws_count: u128,
}

impl Window {
    pub fn new() -> (r: Window)
        ensures
            r.nodes@.len() == 0,
            r.nws_count == 0,
    {
        Window { nodes: Vec::new(), nws_count: 0 }
    }

    pub fn is_empty(&self) -> (r: bool)
        ensures
            r == (self.nodes@.len() == 0),
    {
        self.nodes.len() == 0
    }

    /// From the start of the first node to the end of the last one.
    pub fn byte_range(&self) -> (r: Option<(usize, usize)>)
        ensures
            r == spec_window_range(self.nodes@),
    {
        if self.nodes.len() == 0 {
            return None;
        }
        let start = self.nodes[0].0;
        let end = self.nodes[self.nodes.len() - 1].1;
        Some((start, end))
    }
}

pub open spec fn spec_window_range(nodes: Seq<(usize, usize)>) -> Option<(usize, usize)> {
    if nodes.len() == 0 {
        None
    } else {
        Some((nodes[0].0, nodes.last().1))
    }
}

/// The range a window yields, as a sequence of zero or one ranges.
pub open spec fn flush(nodes: Seq<(usize, usize)>) -> Seq<(usize, usize)> {
    if nodes.len() == 0 {
        Seq::empty()
    } else {
        seq![(nodes[0].0, nodes.last().1)]
    }
}

/// The last `overlap` nodes, carried into the next window.
pub open spec fn carry_of(nodes: Seq<(usize, usize)>, overlap: int) -> Seq<(usize, usize)> {
    if overlap > 0 && nodes.len() > overlap {
        nodes.skip(nodes.len() - overlap)
    } else {
        Seq::empty()
    }
}

/// The nodes carried into the next window: the last `overlap` ones, when
/// they and the next child of count `cn` fit the budget together; else none.
pub open spec fn carry_within(c: Seq<u32>, nodes: Seq<(usize, usize)>, overlap: int, cn: int, max: int) -> Seq<(usize, usize)> {
    if sum_nws(c, carry_of(nodes, overlap)) + cn <= max {
        carry_of(nodes, overlap)
    } else {
        Seq::empty()
    }
}

/// Total non-whitespace count of a list of ranges.
pub open spec fn sum_nws(c: Seq<u32>, nodes: Seq<(usize, usize)>) -> int
    decreases nodes.len(),
{
    if nodes.len() == 0 {
        0
    } else {
        sum_nws(c, nodes.drop_last()) + spec_nws(c, nodes.last().0 as int, nodes.last().1 as int)
    }
}

/// The windows emitted for a node: a leaf yields its own span (when non-empty);
/// otherwise its children are grouped.
pub open spec fn windows_of(node: SyntaxNode, c: Seq<u32>, max: int, overlap: int) -> Seq<(usize, usize)>
    decreases node, 1int, 0int,
{
    if node.children@.len() == 0 {
        if node.start_byte < node.end_byte {
            seq![(node.start_byte, node.end_byte)]
        } else {
            Seq::empty()
        }
    } else {
        windows_from(node, 0, Seq::empty(), 0, c, max, overlap)
    }
}

/// The windows emitted for the children of `node` from index `i` on, given the
/// window being built (`nodes`, with non-whitespace count `count`).
pub open spec fn windows_from(
    node: SyntaxNode,
    i: int,
    nodes: Seq<(usize, usize)>,
    count: int,
    c: Seq<u32>,
    max: int,
    overlap: int,
) -> Seq<(usize, usize)>
    decreases node, 0int, node.children@.len() - i,
{
    if i < 0 || i >= node.children@.len() {
        flush(nodes)
    } else {
        let child = node.children@[i];
        let r = (child.start_byte, child.end_byte);
        let cn = spec_nws(c, child.start_byte as int, child.end_byte as int);
        if cn == 0 {
            windows_from(node, i + 1, nodes, count, c, max, overlap)
        } else if cn <= max {
            if count + cn <= max {
                windows_from(node, i + 1, nodes.push(r), count + cn, c, max, overlap)
            } else if nodes.len() > 0 {
                let carry = carry_within(c, nodes, overlap, cn, max);
                flush(nodes) + windows_from(node, i + 1, carry.push(r), sum_nws(c, carry) + cn, c, max, overlap)
            } else {
                windows_from(node, i + 1, nodes.push(r), count + cn, c, max, overlap)
            }
        } else {
            flush(nodes) + windows_of(child, c, max, overlap) + windows_from(node, i + 1, Seq::empty(), 0, c, max, overlap)
        }
    }
}

proof fn lemma_nws_bound(c: Seq<u32>, s: int, e: int)
    requires
        cumsum_monotone(c),
        0 <= s,
    ensures
        0 <= spec_nws(c, s, e) <= u32::MAX,
{
    if !(e <= s || e > c.len() - 1) {
        assert(c[s] <= c[e]);
    }
}

proof fn lemma_sum_nws_bound(c: Seq<u32>, nodes: Seq<(usize, usize)>)
    requires
        cumsum_monotone(c),
    ensures
        0 <= sum_nws(c, nodes) <= nodes.len() * (u32::MAX as int),
    decreases nodes.len(),
{
    if nodes.len() > 0 {
        lemma_sum_nws_bound(c, nodes.drop_last());
        lemma_nws_bound(c, nodes.last().0 as int, nodes.last().1 as int);
    }
}

/// Recursively assign child nodes to windows, splitting when the budget is exceeded.
pub fn assign_children_to_windows(
    node: &SyntaxNode,
    cumsum: &[u32],
    max_chars: usize,
    overlap: usize,
    windows: &mut Vec<(usize, usize)>,
)
    requires
        cumsum_monotone(cumsum@),
    ensures
        final(windows)@ == old(windows)@ + windows_of(*node, cumsum@, max_chars as int, overlap as int),
    decreases *node, 1int, 0int,
{
    let child_count = node.children.len();
    if child_count == 0 {
        let start = node.start_byte;
        let end = node.end_byte;
        if start < end {
            windows.push((start, end));
        }
        assert(windows@ =~= old(windows)@ + windows_of(*node, cumsum@, max_chars as int, overlap as int));
        return;
    }
    let ghost max = max_chars as int;
    let ghost c = cumsum@;
    let ghost total = windows_of(*node, c, max, overlap as int);
    let mut window = Window::new();
    let mut i: usize = 0;
    proof {
        assert(window.nodes@ =~= Seq::<(usize, usize)>::empty());
    }
    while i < child_count
        invariant
            child_count == node.children@.len(),
            i <= child_count,
            c == cumsum@,
            cumsum_monotone(c),
            max == max_chars as int,
            total == windows_of(*node, c, max, overlap as int),
            child_count > 0,
            window.nws_count == sum_nws(c, window.nodes@),
            window.nodes@.len() <= i,
            windows@ + windows_from(*node, i as int, window.nodes@, window.nws_count as int, c, max, overlap as int)
                == old(windows)@ + total,
        decreases child_count - i,
    {
        let child = &node.children[i];
        let child_start = child.start_byte;
        let child_end = child.end_byte;
        let child_nws = nws_size(cumsum, child_start, child_end);
        let ghost before = windows@;
        let ghost wnodes = window.nodes@;
        let ghost wcount = window.nws_count as int;
        let ghost io = i as int;
        let ghost r = (child_start, child_end);
        let ghost rest = windows_from(*node, io, wnodes, wcount, c, max, overlap as int);
        assert(*child == node.children@[io]);
        proof {
            lemma_sum_nws_bound(c, wnodes);
            assert(wnodes.len() * (u32::MAX as int) <= (usize::MAX as int) * (u32::MAX as int)) by (nonlinear_arith)
                requires wnodes.len() <= usize::MAX;
            assert((usize::MAX as int) * (u32::MAX as int) < u128::MAX - u32::MAX) by (nonlinear_arith);
        }
        if child_nws == 0 {
            i = i + 1;
            continue;
        }
        if child_nws as u128 <= max_chars as u128 {
            if window.nws_count + child_nws as u128 <= max_chars as u128 {
                window.nodes.push((child_start, child_end));
                window.nws_count = window.nws_count + child_nws as u128;
                proof {
                    assert(window.nodes@.drop_last() =~= wnodes);
                    assert(rest == windows_from(*node, io + 1, wnodes.push(r), wcount + child_nws, c, max, overlap as int));
                }
            } else {
                if !window.is_empty() {
                    if let Some(range) = window.byte_range() {
                        windows.push(range);
                    }
                    let wlen = window.nodes.len();
                    let mut carry: Vec<(usize, usize)> = Vec::new();
                    let mut carry_nws: u128 = 0;
                    if overlap > 0 && wlen > overlap {
                        let mut k = wlen - overlap;
                        while k < wlen
                            invariant
                                wlen == wnodes.len(),
                                wnodes == window.nodes@,
                                overlap > 0,
                                wlen > overlap,
                                wlen - overlap <= k <= wlen,
                                carry@ == wnodes.subrange(wlen - overlap, k as int),
                                carry_nws == sum_nws(c, carry@),
                                cumsum_monotone(c),
                                c == cumsum@,
                                wlen <= i,
                            decreases wlen - k,
                        {
                            let (s, e) = window.nodes[k];
                            proof {
                                lemma_sum_nws_bound(c, carry@);
                                assert(carry@.len() * (u32::MAX as int) <= (usize::MAX as int) * (u32::MAX as int)) by (nonlinear_arith)
                                    requires carry@.len() <= usize::MAX;
                                assert((usize::MAX as int) * (u32::MAX as int) < u128::MAX - u32::MAX) by (nonlinear_arith);
                            }
                            let sz = nws_size(cumsum, s, e);
                            carry.push((s, e));
                            carry_nws = carry_nws + sz as u128;
                            k = k + 1;
                            proof {
                                assert(carry@.drop_last() =~= wnodes.subrange(wlen - overlap, k - 1));
                                assert(carry@ =~= wnodes.subrange(wlen - overlap, k as int));
                            }
                        }
                        proof {
                            assert(carry@ =~= carry_of(wnodes, overlap as int));
                        }
                    } else {
                        proof {
                            assert(carry@ =~= carry_of(wnodes, overlap as int));
                        }
                    }
                    proof {
                        lemma_sum_nws_bound(c, carry@);
                        assert(carry@.len() * (u32::MAX as int) <= (usize::MAX as int) * (u32::MAX as int)) by (nonlinear_arith)
                            requires carry@.len() <= usize::MAX;
                        assert((usize::MAX as int) * (u32::MAX as int) < u128::MAX - u32::MAX) by (nonlinear_arith);
                    }
                    if carry_nws + child_nws as u128 > max_chars as u128 {
                        carry = Vec::new();
                        carry_nws = 0;
                    }
                    proof {
                        assert(carry@ =~= carry_within(c, wnodes, overlap as int, child_nws as int, max));
                    }
                    window = Window { nodes: carry, nws_count: carry_nws };
                }
                let ghost base = window.nodes@;
                let ghost mid = windows@;
                proof {
                    lemma_sum_nws_bound(c, base);
                    assert(base.len() * (u32::MAX as int) <= (usize::MAX as int) * (u32::MAX as int)) by (nonlinear_arith)
                        requires base.len() <= usize::MAX;
                    assert((usize::MAX as int) * (u32::MAX as int) < u128::MAX - u32::MAX) by (nonlinear_arith);
                    if wnodes.len() > 0 {
                        assert(mid == before + flush(wnodes));
                        assert(base == carry_within(c, wnodes, overlap as int, child_nws as int, max));
                        assert(rest == flush(wnodes) + windows_from(*node, io + 1, base.push(r), sum_nws(c, base) + child_nws, c, max, overlap as int));
                    } else {
                        assert(mid == before);
                        assert(base == wnodes);
                        assert(rest == windows_from(*node, io + 1, base.push(r), wcount + child_nws, c, max, overlap as int));
                    }
                }
                window.nodes.push((child_start, child_end));
                window.nws_count = window.nws_count + child_nws as u128;
                proof {
                    assert(window.nodes@.drop_last() =~= base);
                }
            }
        } else {
            if !window.is_empty() {
                if let Some(range) = window.byte_range() {
                    windows.push(range);
                }
                window = Window::new();
            }
            let ghost mid = windows@;
            proof {
                if wnodes.len() > 0 {
                    assert(mid == before + flush(wnodes));
                } else {
                    assert(mid =~= before + flush(wnodes));
                }
                assert(window.nodes@ =~= Seq::<(usize, usize)>::empty());
                assert(rest == flush(wnodes) + windows_of(*child, c, max, overlap as int)
                    + windows_from(*node, io + 1, Seq::empty(), 0, c, max, overlap as int));
            }
            assign_children_to_windows(child, cumsum, max_chars, overlap, windows);
        }
        i = i + 1;
        proof {
            assert(windows@ + windows_from(*node, i as int, window.nodes@, window.nws_count as int, c, max, overlap as int)
                =~= before + rest);
        }
    }
    if !window.is_empty() {
        if let Some(range) = window.byte_range() {
            windows.push(range);
        }
    }
    proof {
        assert(windows@ =~= old(windows)@ + total);
    }
}


/// Every node's span lies within the source and starts and ends on char boundaries.
pub open spec fn node_ok(node: SyntaxNode, b: Seq<u8>) -> bool
    decreases node, 1int,
{
    &&& node.start_byte <= node.end_byte <= b.len()
    &&& is_char_boundary(b, node.start_byte as int)
    &&& is_char_boundary(b, node.end_byte as int)
    &&& nodes_ok(node.children@, b)
}

pub open spec fn nodes_ok(ch: Seq<SyntaxNode>, b: Seq<u8>) -> bool
    decreases ch, 0int,
{
    if ch.len() == 0 {
        true
    } else {
        node_ok(ch.last(), b) && nodes_ok(ch.drop_last(), b)
    }
}

pub proof fn lemma_nodes_ok_index(ch: Seq<SyntaxNode>, b: Seq<u8>, i: int)
    requires
        nodes_ok(ch, b),
        0 <= i < ch.len(),
    ensures
        node_ok(ch[i], b),
    decreases ch.len(),
{
    if i < ch.len() - 1 {
        assert(ch.drop_last()[i] == ch[i]);
        lemma_nodes_ok_index(ch.drop_last(), b, i);
    }
}

pub open spec fn ranges_ok(ws: Seq<(usize, usize)>, b: Seq<u8>) -> bool {
    forall|k: int| 0 <= k < ws.len() ==> {
        &&& is_char_boundary(b, (#[trigger] ws[k]).0 as int)
        &&& is_char_boundary(b, ws[k].1 as int)
        &&& ws[k].1 <= b.len()
    }
}

/// Each child of every node of the tree spans counted bytes in order, and
/// the bytes between two children next to each other are all whitespace.
pub open spec fn blank_gaps(c: Seq<u32>, node: SyntaxNode) -> bool
    decreases node,
{
    &&& forall|k: int|
        0 <= k < node.children@.len() ==> (#[trigger] node.children@[k]).start_byte <= node.children@[k].end_byte <= c.len() - 1
    &&& forall|k: int|
        0 <= k < node.children@.len() - 1 ==> c[(#[trigger] node.children@[k]).end_byte as int] == c[node.children@[k
            + 1].start_byte as int]
    &&& forall|k: int| 0 <= k < node.children@.len() ==> blank_gaps(c, #[trigger] node.children@[k])
}

/// `w` is the span of a leaf of the tree.
pub open spec fn leaf_span(node: SyntaxNode, w: (usize, usize)) -> bool
    decreases node,
{
    ||| (node.children@.len() == 0 && w == (node.start_byte, node.end_byte))
    ||| exists|k: int| 0 <= k < node.children@.len() && leaf_span(#[trigger] node.children@[k], w)
}

/// A window within the budget, or a single leaf larger than it.
pub open spec fn window_in_budget(c: Seq<u32>, max: int, node: SyntaxNode, w: (usize, usize)) -> bool {
    spec_nws(c, w.0 as int, w.1 as int) <= max || leaf_span(node, w)
}

/// Ranges each in order within the counts, each ending where the next
/// starts as far as non-whitespace goes.
pub open spec fn touching(c: Seq<u32>, nodes: Seq<(usize, usize)>) -> bool {
    &&& forall|k: int| 0 <= k < nodes.len() ==> (#[trigger] nodes[k]).0 <= nodes[k].1 <= c.len() - 1
    &&& forall|k: int| 0 <= k < nodes.len() - 1 ==> c[(#[trigger] nodes[k]).1 as int] == c[nodes[k + 1].0 as int]
}

proof fn lemma_touching_sum(c: Seq<u32>, nodes: Seq<(usize, usize)>)
    requires
        touching(c, nodes),
        nodes.len() > 0,
    ensures
        c[nodes.last().1 as int] - c[nodes[0].0 as int] == sum_nws(c, nodes),
    decreases nodes.len(),
{
    let l = nodes.len() - 1;
    assert(nodes[l] == nodes.last());
    assert(nodes[l].0 <= nodes[l].1 <= c.len() - 1);
    assert(sum_nws(c, nodes) == sum_nws(c, nodes.drop_last()) + spec_nws(c, nodes[l].0 as int, nodes[l].1 as int));
    assert(spec_nws(c, nodes[l].0 as int, nodes[l].1 as int) == c[nodes[l].1 as int] - c[nodes[l].0 as int]);
    if nodes.len() == 1 {
        assert(nodes.drop_last() =~= Seq::<(usize, usize)>::empty());
    }
    if nodes.len() > 1 {
        assert(c[nodes[l - 1].1 as int] == c[nodes[l].0 as int]);
        let d = nodes.drop_last();
        assert(touching(c, d)) by {
            assert forall|k: int| 0 <= k < d.len() - 1 implies c[(#[trigger] d[k]).1 as int] == c[d[k + 1].0 as int] by {
                assert(d[k] == nodes[k] && d[k + 1] == nodes[k + 1]);
            }
            assert forall|k: int| 0 <= k < d.len() implies (#[trigger] d[k]).0 <= d[k].1 <= c.len() - 1 by {
                assert(d[k] == nodes[k]);
            }
        }
        lemma_touching_sum(c, d);
        assert(d.last() == nodes[l - 1]);
        assert(d[0] == nodes[0]);
    }
}

proof fn lemma_touching_suffix(c: Seq<u32>, nodes: Seq<(usize, usize)>, m: int)
    requires
        touching(c, nodes),
        0 <= m <= nodes.len(),
    ensures
        touching(c, nodes.skip(m)),
{
    let t = nodes.skip(m);
    assert forall|k: int| 0 <= k < t.len() - 1 implies c[(#[trigger] t[k]).1 as int] == c[t[k + 1].0 as int] by {
        assert(t[k] == nodes[m + k] && t[k + 1] == nodes[m + k + 1]);
    }
    assert forall|k: int| 0 <= k < t.len() implies (#[trigger] t[k]).0 <= t[k].1 <= c.len() - 1 by {
        assert(t[k] == nodes[m + k]);
    }
}

/// The window a run of touching ranges within the budget yields is within
/// the budget.
proof fn lemma_flush_in_budget(c: Seq<u32>, max: int, node: SyntaxNode, nodes: Seq<(usize, usize)>)
    requires
        cumsum_monotone(c),
        touching(c, nodes),
        sum_nws(c, nodes) <= max,
        0 <= max,
    ensures
        forall|k: int| 0 <= k < flush(nodes).len() ==> window_in_budget(c, max, node, #[trigger] flush(nodes)[k]),
{
    if nodes.len() > 0 {
        lemma_touching_sum(c, nodes);
        assert(flush(nodes)[0] == (nodes[0].0, nodes.last().1));
    }
}

proof fn lemma_budget_concat(c: Seq<u32>, max: int, node: SyntaxNode, a: Seq<(usize, usize)>, b: Seq<(usize, usize)>)
    requires
        forall|k: int| 0 <= k < a.len() ==> window_in_budget(c, max, node, #[trigger] a[k]),
        forall|k: int| 0 <= k < b.len() ==> window_in_budget(c, max, node, #[trigger] b[k]),
    ensures
        forall|k: int| 0 <= k < (a + b).len() ==> window_in_budget(c, max, node, #[trigger] (a + b)[k]),
{
    assert forall|k: int| 0 <= k < (a + b).len() implies window_in_budget(c, max, node, #[trigger] (a + b)[k]) by {
        if k < a.len() {
            assert((a + b)[k] == a[k]);
        } else {
            assert((a + b)[k] == b[k - a.len()]);
        }
    }
}

#[verifier::rlimit(100)]
proof fn lemma_windows_from_budget(
    node: SyntaxNode,
    i: int,
    nodes: Seq<(usize, usize)>,
    count: int,
    c: Seq<u32>,
    max: int,
    overlap: int,
)
    requires
        cumsum_monotone(c),
        blank_gaps(c, node),
        0 <= max,
        0 <= i,
        touching(c, nodes),
        count == sum_nws(c, nodes),
        count <= max,
        nodes.len() > 0 && i < node.children@.len() ==> c[nodes.last().1 as int] == c[node.children@[i].start_byte as int],
    ensures
        forall|k: int|
            0 <= k < windows_from(node, i, nodes, count, c, max, overlap).len() ==> window_in_budget(
                c,
                max,
                node,
                #[trigger] windows_from(node, i, nodes, count, c, max, overlap)[k],
            ),
    decreases node, 0int, node.children@.len() - i,
{
    lemma_flush_in_budget(c, max, node, nodes);
    if !(0 <= i < node.children@.len()) {
        assert(windows_from(node, i, nodes, count, c, max, overlap) == flush(nodes));
    } else {
        let child = node.children@[i];
        let r = (child.start_byte, child.end_byte);
        let cn = spec_nws(c, child.start_byte as int, child.end_byte as int);
        assert(child.start_byte <= child.end_byte <= c.len() - 1);
        assert(cn == c[child.end_byte as int] - c[child.start_byte as int]);
        let touch_next = i + 1 < node.children@.len() ==> c[child.end_byte as int] == c[node.children@[i + 1].start_byte as int];
        assert(touch_next);
        if nodes.len() > 0 {
            let l = nodes.len() - 1;
            assert(nodes[l] == nodes.last());
        }
        let pushed = nodes.push(r);
        if cn == 0 {
            assert(windows_from(node, i, nodes, count, c, max, overlap) == windows_from(node, i + 1, nodes, count, c, max, overlap));
            lemma_windows_from_budget(node, i + 1, nodes, count, c, max, overlap);
        } else if cn <= max {
            if count + cn <= max {
                assert(touching(c, pushed)) by {
                    assert forall|k: int| 0 <= k < pushed.len() - 1 implies c[(#[trigger] pushed[k]).1 as int]
                        == c[pushed[k + 1].0 as int] by {
                        if k + 1 < nodes.len() {
                            assert(pushed[k] == nodes[k] && pushed[k + 1] == nodes[k + 1]);
                        } else {
                            assert(pushed[k] == nodes.last());
                        }
                    }
                    assert forall|k: int| 0 <= k < pushed.len() implies (#[trigger] pushed[k]).0 <= pushed[k].1 <= c.len() - 1 by {
                        if k < nodes.len() {
                            assert(pushed[k] == nodes[k]);
                        }
                    }
                }
                assert(pushed.drop_last() =~= nodes);
                assert(windows_from(node, i, nodes, count, c, max, overlap) == windows_from(node, i + 1, pushed, count + cn, c, max, overlap));
                lemma_windows_from_budget(node, i + 1, pushed, count + cn, c, max, overlap);
            } else if nodes.len() > 0 {
                let carry0 = carry_of(nodes, overlap);
                let carry = carry_within(c, nodes, overlap, cn, max);
                if overlap > 0 && nodes.len() > overlap {
                    lemma_touching_suffix(c, nodes, nodes.len() - overlap);
                } else {
                    assert(carry0 =~= Seq::<(usize, usize)>::empty());
                }
                let cp = carry.push(r);
                assert(touching(c, carry));
                assert(carry.len() > 0 ==> carry.last() == nodes.last()) by {
                    if carry.len() > 0 {
                        assert(carry.last() == nodes[nodes.len() - 1]);
                    }
                }
                assert(touching(c, cp)) by {
                    assert forall|k: int| 0 <= k < cp.len() - 1 implies c[(#[trigger] cp[k]).1 as int] == c[cp[k + 1].0 as int] by {
                        if k + 1 < carry.len() {
                            assert(cp[k] == carry[k] && cp[k + 1] == carry[k + 1]);
                        } else {
                            assert(cp[k] == carry.last());
                        }
                    }
                    assert forall|k: int| 0 <= k < cp.len() implies (#[trigger] cp[k]).0 <= cp[k].1 <= c.len() - 1 by {
                        if k < carry.len() {
                            assert(cp[k] == carry[k]);
                        }
                    }
                }
                assert(cp.drop_last() =~= carry);
                lemma_windows_from_budget(node, i + 1, cp, sum_nws(c, carry) + cn, c, max, overlap);
                lemma_budget_concat(c, max, node, flush(nodes), windows_from(node, i + 1, cp, sum_nws(c, carry) + cn, c, max, overlap));
                assert(windows_from(node, i, nodes, count, c, max, overlap) == flush(nodes) + windows_from(node, i + 1, cp, sum_nws(c, carry) + cn, c, max, overlap));
            } else {
                assert(nodes.len() == 0);
                assert(count == 0);
                assert(false);
            }
        } else {
            lemma_windows_of_budget(child, c, max, overlap);
            assert forall|k: int| 0 <= k < windows_of(child, c, max, overlap).len() implies window_in_budget(
                c,
                max,
                node,
                #[trigger] windows_of(child, c, max, overlap)[k],
            ) by {
                let w = windows_of(child, c, max, overlap)[k];
                assert(window_in_budget(c, max, child, w));
                if leaf_span(child, w) {
                    assert(leaf_span(node, w));
                }
            }
            lemma_touching_none(c);
            lemma_windows_from_budget(node, i + 1, Seq::empty(), 0, c, max, overlap);
            lemma_budget_concat(c, max, node, flush(nodes), windows_of(child, c, max, overlap));
            lemma_budget_concat(
                c,
                max,
                node,
                flush(nodes) + windows_of(child, c, max, overlap),
                windows_from(node, i + 1, Seq::empty(), 0, c, max, overlap),
            );
            assert(windows_from(node, i, nodes, count, c, max, overlap) == flush(nodes) + windows_of(child, c, max, overlap) + windows_from(node, i + 1, Seq::empty(), 0, c, max, overlap));
        }
    }
}

proof fn lemma_touching_none(c: Seq<u32>)
    ensures
        touching(c, Seq::empty()),
        sum_nws(c, Seq::empty()) == 0,
{
}

/// Every window of a node is within the budget, unless it is a single leaf
/// larger than the budget; so where the bytes between children next to
/// each other are whitespace, windows stay within the budget.
#[verifier::rlimit(50)]
pub proof fn lemma_windows_of_budget(node: SyntaxNode, c: Seq<u32>, max: int, overlap: int)
    requires
        cumsum_monotone(c),
        blank_gaps(c, node),
        0 <= max,
    ensures
        forall|k: int| 0 <= k < windows_of(node, c, max, overlap).len() ==> window_in_budget(
            c,
            max,
            node,
            #[trigger] windows_of(node, c, max, overlap)[k],
        ),
    decreases node, 1int, 0int,
{
    if node.children@.len() == 0 {
        if node.start_byte < node.end_byte {
            assert(windows_of(node, c, max, overlap) == seq![(node.start_byte, node.end_byte)]);
            assert(leaf_span(node, (node.start_byte, node.end_byte)));
        } else {
            assert(windows_of(node, c, max, overlap) == Seq::<(usize, usize)>::empty());
        }
    } else {
        lemma_touching_none(c);
        lemma_windows_from_budget(node, 0, Seq::empty(), 0, c, max, overlap);
        assert(windows_of(node, c, max, overlap) == windows_from(node, 0, Seq::empty(), 0, c, max, overlap));
    }
}

proof fn lemma_windows_of_ok(node: SyntaxNode, c: Seq<u32>, max: int, overlap: int, b: Seq<u8>)
    requires
        node_ok(node, b),
    ensures
        ranges_ok(windows_of(node, c, max, overlap), b),
    decreases node, 1int, 0int,
{
    if node.children@.len() > 0 {
        lemma_windows_from_ok(node, 0, Seq::empty(), 0, c, max, overlap, b);
    }
}

proof fn lemma_windows_from_ok(
    node: SyntaxNode,
    i: int,
    nodes: Seq<(usize, usize)>,
    count: int,
    c: Seq<u32>,
    max: int,
    overlap: int,
    b: Seq<u8>,
)
    requires
        node_ok(node, b),
        ranges_ok(nodes, b),
    ensures
        ranges_ok(windows_from(node, i, nodes, count, c, max, overlap), b),
    decreases node, 0int, node.children@.len() - i,
{
    let fl = flush(nodes);
    assert(ranges_ok(fl, b)) by {
        if nodes.len() > 0 {
            assert(fl[0] == (nodes[0].0, nodes.last().1));
            assert(ranges_ok(nodes, b));
            let l = nodes.len() - 1;
            assert(nodes[l] == nodes.last());
        }
    }
    if 0 <= i < node.children@.len() {
        let child = node.children@[i];
        lemma_nodes_ok_index(node.children@, b, i);
        let r = (child.start_byte, child.end_byte);
        let cn = spec_nws(c, child.start_byte as int, child.end_byte as int);
        let pushed = nodes.push(r);
        assert(ranges_ok(pushed, b)) by {
            assert forall|k: int| 0 <= k < pushed.len() implies {
                &&& is_char_boundary(b, (#[trigger] pushed[k]).0 as int)
                &&& is_char_boundary(b, pushed[k].1 as int)
                &&& pushed[k].1 <= b.len()
            } by {
                if k < nodes.len() {
                    assert(pushed[k] == nodes[k]);
                }
            }
        }
        if cn == 0 {
            lemma_windows_from_ok(node, i + 1, nodes, count, c, max, overlap, b);
        } else if cn <= max {
            if count + cn <= max {
                lemma_windows_from_ok(node, i + 1, pushed, count + cn, c, max, overlap, b);
            } else if nodes.len() > 0 {
                let carry = carry_within(c, nodes, overlap, cn, max);
                let cp = carry.push(r);
                assert(ranges_ok(cp, b)) by {
                    assert forall|k: int| 0 <= k < cp.len() implies {
                        &&& is_char_boundary(b, (#[trigger] cp[k]).0 as int)
                        &&& is_char_boundary(b, cp[k].1 as int)
                        &&& cp[k].1 <= b.len()
                    } by {
                        if k < carry.len() {
                            assert(cp[k] == carry[k]);
                            assert(carry[k] == nodes[nodes.len() - overlap + k]);
                        }
                    }
                }
                lemma_windows_from_ok(node, i + 1, cp, sum_nws(c, carry) + cn, c, max, overlap, b);
                let rest = windows_from(node, i + 1, cp, sum_nws(c, carry) + cn, c, max, overlap);
                lemma_ranges_ok_concat(fl, rest, b);
            } else {
                lemma_windows_from_ok(node, i + 1, pushed, count + cn, c, max, overlap, b);
            }
        } else {
            lemma_windows_of_ok(child, c, max, overlap, b);
            lemma_windows_from_ok(node, i + 1, Seq::empty(), 0, c, max, overlap, b);
            let a = windows_of(child, c, max, overlap);
            let rest = windows_from(node, i + 1, Seq::empty(), 0, c, max, overlap);
            lemma_ranges_ok_concat(fl, a, b);
            lemma_ranges_ok_concat(fl + a, rest, b);
        }
    }
}

proof fn lemma_ranges_ok_concat(x: Seq<(usize, usize)>, y: Seq<(usize, usize)>, b: Seq<u8>)
    requires
        ranges_ok(x, b),
        ranges_ok(y, b),
    ensures
        ranges_ok(x + y, b),
{
    assert forall|k: int| 0 <= k < (x + y).len() implies {
        &&& is_char_boundary(b, (#[trigger] (x + y)[k]).0 as int)
        &&& is_char_boundary(b, (x + y)[k].1 as int)
        &&& (x + y)[k].1 <= b.len()
    } by {
        if k < x.len() {
            assert((x + y)[k] == x[k]);
        } else {
            assert((x + y)[k] == y[k - x.len()]);
        }
    }
}

/// The child that the descent toward `[s, e)` enters next: the first child
/// that reaches `e` and passes `s`, provided it starts at or before `s`.
pub open spec fn pick_child(ch: Seq<SyntaxNode>, s: int, e: int, i: int) -> Option<int>
    decreases ch.len() - i,
{
    if i < 0 || i >= ch.len() {
        None
    } else {
        let c = ch[i];
        let skip = (c.end_byte < e) || (if c.start_byte == c.end_byte { c.end_byte < s } else { c.end_byte <= s });
        if skip {
            pick_child(ch, s, e, i + 1)
        } else if s < c.start_byte {
            None
        } else {
            Some(i)
        }
    }
}

pub open spec fn kind_is_name(k: Seq<char>) -> bool {
    k == "identifier"@ || k == "name"@ || k == "type_identifier"@
}

/// Index of the first child whose kind is a name.
pub open spec fn first_name_child(ch: Seq<SyntaxNode>, i: int) -> Option<int>
    decreases ch.len() - i,
{
    if i < 0 || i >= ch.len() {
        None
    } else if kind_is_name(ch[i].kind@) {
        Some(i)
    } else {
        first_name_child(ch, i + 1)
    }
}

/// The name of a scope node: the source text of its first name child.
pub open spec fn scope_name(node: SyntaxNode, b: Seq<u8>) -> Option<Seq<char>> {
    match first_name_child(node.children@, 0) {
        Some(i) => {
            let c = node.children@[i];
            let t = b.subrange(c.start_byte as int, c.end_byte as int);
            if valid_utf8(t) { Some(decode_utf8(t)) } else { None }
        },
        None => None,
    }
}

/// Names of the scope nodes that the descent toward `[s, e)` passes through,
/// outermost first (the node reached last is not counted).
pub open spec fn context_parts(node: SyntaxNode, s: int, e: int, b: Seq<u8>) -> Seq<Seq<char>>
    decreases node,
{
    match pick_child(node.children@, s, e, 0) {
        Some(i) => {
            let own = if spec_is_scope_kind(node.kind@) && scope_name(node, b) is Some {
                seq![scope_name(node, b).unwrap()]
            } else {
                Seq::empty()
            };
            if 0 <= i < node.children@.len() {
                own + context_parts(node.children@[i], s, e, b)
            } else {
                own
            }
        },
        None => Seq::empty(),
    }
}

/// The context path lists scopes outermost first: a named scope on the
/// way down comes before every scope nested inside it, which follow in the
/// order the descent meets them; a node that is no named scope adds nothing.
pub proof fn lemma_context_outermost_first(node: SyntaxNode, s: int, e: int, b: Seq<u8>)
    ensures
        pick_child(node.children@, s, e, 0) matches Some(i) ==> (0 <= i < node.children@.len() ==> (
        scope_name(node, b) matches Some(nm) ==> (spec_is_scope_kind(node.kind@) ==> {
            &&& context_parts(node, s, e, b).len() > 0
            &&& context_parts(node, s, e, b)[0] == nm
            &&& context_parts(node, s, e, b).skip(1) == context_parts(node.children@[i], s, e, b)
        }))),
        pick_child(node.children@, s, e, 0) matches Some(i) ==> (0 <= i < node.children@.len() ==> (!(spec_is_scope_kind(
            node.kind@,
        ) && scope_name(node, b) is Some) ==> context_parts(node, s, e, b) == context_parts(node.children@[i], s, e, b))),
{
    match pick_child(node.children@, s, e, 0) {
        Some(i) => if 0 <= i < node.children@.len() {
            if spec_is_scope_kind(node.kind@) && scope_name(node, b) is Some {
                let own = seq![scope_name(node, b).unwrap()];
                assert((own + context_parts(node.children@[i], s, e, b)).skip(1) =~= context_parts(node.children@[i], s, e, b));
            } else {
                assert(Seq::<Seq<char>>::empty() + context_parts(node.children@[i], s, e, b) =~= context_parts(node.children@[i], s, e, b));
            }
        },
        None => {},
    }
}

/// Extract a name from a scope node: the text of its first child with kind
/// "identifier", "name", or "type_identifier".
pub fn extract_scope_name<'a>(node: &SyntaxNode, source: &'a [u8]) -> (r: Option<&'a str>)
    requires
        node_ok(*node, source@),
    ensures
        r matches Some(t) ==> scope_name(*node, source@) == Some(t@),
        r is None ==> scope_name(*node, source@) is None,
{
    let mut i: usize = 0;
    let n = node.children.len();
    while i < n
        invariant
            n == node.children@.len(),
            i <= n,
            first_name_child(node.children@, i as int) == first_name_child(node.children@, 0),
            node_ok(*node, source@),
        decreases n - i,
    {
        let child = &node.children[i];
        let k = child.kind.as_str();
        if str_eq(k, "identifier") || str_eq(k, "name") || str_eq(k, "type_identifier") {
            proof {
                reveal_strlit("identifier");
                reveal_strlit("name");
                reveal_strlit("type_identifier");
                assert(*child == node.children@[i as int]);
                lemma_nodes_ok_index(node.children@, source@, i as int);
            }
            let bytes = &source[child.start_byte..child.end_byte];
            assert(bytes@ =~= source@.subrange(child.start_byte as int, child.end_byte as int));
            return str_from_utf8(bytes);
        }
        proof {
            reveal_strlit("identifier");
            reveal_strlit("name");
            reveal_strlit("type_identifier");
        }
        i = i + 1;
    }
    None
}

/// Dot-separated context path of the position `s`: the names of the scopes
/// enclosing the deepest node that covers `[s, s + 1)`.
pub fn context_path_at(root: &SyntaxNode, source: &[u8], s: usize) -> (r: String)
    requires
        node_ok(*root, source@),
        s < usize::MAX,
    ensures
        r@ == join_dotted(context_parts(*root, s as int, s + 1, source@)),
{
    let e = s + 1;
    let mut node = root;
    let mut parts: Vec<String> = Vec::new();
    let ghost all = context_parts(*root, s as int, e as int, source@);
    loop
        invariant
            node_ok(*node, source@),
            e == s + 1,
            all == context_parts(*root, s as int, e as int, source@),
            parts@.map_values(|p: String| p@) + context_parts(*node, s as int, e as int, source@) == all,
        ensures
            parts@.map_values(|p: String| p@) == all,
        decreases *node,
    {
        let n = node.children.len();
        let mut i: usize = 0;
        let mut found: Option<usize> = None;
        while i < n
            invariant_except_break
                found is None,
            invariant
                n == node.children@.len(),
                i <= n,
                pick_child(node.children@, s as int, e as int, i as int) == pick_child(node.children@, s as int, e as int, 0),
            ensures
                found matches Some(j) ==> pick_child(node.children@, s as int, e as int, 0) == Some(j as int) && j < n,
                found is None ==> pick_child(node.children@, s as int, e as int, 0) is None,
            decreases n - i,
        {
            let c = &node.children[i];
            let skip = c.end_byte < e || (if c.start_byte == c.end_byte { c.end_byte < s } else { c.end_byte <= s });
            if skip {
                i = i + 1;
            } else if s < c.start_byte {
                break;
            } else {
                found = Some(i);
                break;
            }
        }
        match found {
            None => {
                proof {
                    assert(context_parts(*node, s as int, e as int, source@) =~= Seq::<Seq<char>>::empty());
                    assert(parts@.map_values(|p: String| p@) =~= all);
                }
                break;
            },
            Some(j) => {
                let ghost pv = parts@.map_values(|p: String| p@);
                let ghost own = if spec_is_scope_kind(node.kind@) && scope_name(*node, source@) is Some {
                    seq![scope_name(*node, source@).unwrap()]
                } else {
                    Seq::empty()
                };
                if is_scope_node(node.kind.as_str()) {
                    if let Some(name) = extract_scope_name(node, source) {
                        parts.push(str_to_string(name));
                    }
                }
                proof {
                    assert(parts@.map_values(|p: String| p@) =~= pv + own);
                    lemma_nodes_ok_index(node.children@, source@, j as int);
                }
                node = &node.children[j];
            },
        }
    }
    let mut out = String::new();
    let mut k: usize = 0;
    let ghost pv = parts@.map_values(|p: String| p@);
    assert(pv =~= all);
    while k < parts.len()
        invariant
            k <= parts@.len(),
            pv == parts@.map_values(|p: String| p@),
            out@ == join_dotted(pv.take(k as int)),
        decreases parts@.len() - k,
    {
        let ghost prev = pv.take(k as int);
        let ghost next = pv.take(k + 1);
        assert(next.drop_last() =~= prev);
        if k > 0 {
            string_push(&mut out, '.');
        } else {
            assert(prev =~= Seq::<Seq<char>>::empty());
        }
        string_push_str(&mut out, parts[k].as_str());
        k = k + 1;
        assert(out@ =~= join_dotted(next));
    }
    assert(pv.take(k as int) =~= pv);
    out
}


/// Number of line-feed bytes.
pub open spec fn count_nl(s: Seq<u8>) -> nat
    decreases s.len(),
{
    if s.len() == 0 {
        0
    } else {
        count_nl(s.drop_last()) + if s.last() == 10 { 1nat } else { 0nat }
    }
}

/// What `str::lines().count()` gives: every line feed ends a line, and a
/// non-empty last line without one counts too.
pub open spec fn line_count(s: Seq<u8>) -> nat {
    count_nl(s) + if s.len() > 0 && s.last() != 10 { 1nat } else { 0nat }
}

/// The cumulative non-whitespace counts of a source.
pub open spec fn spec_cumsum(b: Seq<u8>) -> Seq<u32> {
    Seq::new((b.len() + 1) as nat, |i: int| nws_count(b.take(i)) as u32)
}

fn count_newlines(b: &[u8], start: usize, end: usize) -> (r: usize)
    requires
        start <= end <= b@.len(),
    ensures
        r == count_nl(b@.subrange(start as int, end as int)),
{
    let mut n: usize = 0;
    let mut i = start;
    assert(b@.subrange(start as int, start as int) =~= Seq::<u8>::empty());
    while i < end
        invariant
            start <= i <= end,
            end <= b@.len(),
            n == count_nl(b@.subrange(start as int, i as int)),
            n <= i - start,
        decreases end - i,
    {
        assert(b@.subrange(start as int, i + 1).drop_last() =~= b@.subrange(start as int, i as int));
        if b[i] == 10 {
            n = n + 1;
        }
        i = i + 1;
    }
    n
}

proof fn lemma_suffix_boundary(b: Seq<u8>, s: int, e: int)
    requires
        valid_utf8(b),
        0 <= s <= e <= b.len(),
        is_char_boundary(b, s),
        is_char_boundary(b, e),
    ensures
        valid_utf8(b.subrange(s, b.len() as int)),
        is_char_boundary(b.subrange(s, b.len() as int), e - s),
{
    broadcast use valid_utf8_split, is_char_boundary_start_end_of_seq, is_char_boundary_iff_not_is_continuation_byte;
    let t = b.subrange(s, b.len() as int);
    assert(valid_utf8(t));
    if e < b.len() {
        assert(t[e - s] == b[e]);
        assert(is_char_boundary(b, e) <==> !is_continuation_byte(b[e]));
        assert(is_char_boundary(t, e - s) <==> !is_continuation_byte(t[e - s]));
    } else {
        assert(e - s == t.len());
    }
}

/// The part of `source` between two char boundaries.
fn substr(source: &str, s: usize, e: usize) -> (r: &str)
    requires
        s <= e <= source.spec_bytes().len(),
        is_char_boundary(source.spec_bytes(), s as int),
        is_char_boundary(source.spec_bytes(), e as int),
    ensures
        r.spec_bytes() == source.spec_bytes().subrange(s as int, e as int),
{
    proof {
        broadcast use encode_utf8_valid_utf8;
        lemma_suffix_boundary(source.spec_bytes(), s as int, e as int);
    }
    let (_a, tail) = source.split_at(s);
    proof {
        assert(tail.spec_bytes() =~= source.spec_bytes().subrange(s as int, source.spec_bytes().len() as int));
    }
    let (mid, _b) = tail.split_at(e - s);
    assert(mid.spec_bytes() =~= source.spec_bytes().subrange(s as int, e as int));
    mid
}

/// Window indices below `k` whose (clamped) span is non-empty.
pub open spec fn kept_prefix(ws: Seq<(usize, usize)>, len: int, k: int) -> Seq<int>
    decreases k,
{
    if k <= 0 {
        Seq::empty()
    } else {
        let prev = kept_prefix(ws, len, k - 1);
        let w = ws[k - 1];
        let e = if w.1 < len { w.1 as int } else { len };
        if (w.0 as int) < e { prev.push(k - 1) } else { prev }
    }
}

/// A chunk built from the span `[s, e)` of the source, at index `k` of `total`.
pub open spec fn chunk_matches(
    ch: CodeChunk,
    repo_id: Seq<char>,
    file_path: Seq<char>,
    b: Seq<u8>,
    tree: SyntaxNode,
    language: Language,
    k: int,
    total: int,
    s: int,
    e: int,
) -> bool {
    &&& ch.id.0 == spec_chunk_id(repo_id, file_path, s as nat, e as nat)
    &&& ch.language == language
    &&& ch.file_path@ == file_path
    &&& ch.byte_range.start == s
    &&& ch.byte_range.end == e
    &&& ch.line_range.start == count_nl(b.take(s)) as u32
    &&& ch.line_range.end == (count_nl(b.take(s)) + count_nl(b.subrange(s, e)) + 1) as u32
    &&& ch.chunk_index == k as u32
    &&& ch.total_chunks == total as u32
    &&& ch.context_path@ == join_dotted(context_parts(tree, s, s + 1, b))
    &&& encode_utf8(ch.content@) == b.subrange(s, s + truncated_len(b.subrange(s, e), CHUNK_CONTENT_MAX_BYTES as int))
    &&& ch.content_hash == xxh3_64_of(encode_utf8(ch.content@))
}

/// The chunks of a file with bytes `b` and syntax tree `tree`: a single
/// chunk of the whole file when it fits the budget; otherwise one chunk per
/// non-empty window, in order.
pub open spec fn file_chunks(
    r: Seq<CodeChunk>,
    repo_id: Seq<char>,
    file_path: Seq<char>,
    b: Seq<u8>,
    tree: SyntaxNode,
    language: Language,
    config: ChunkConfig,
) -> bool {
    let c = spec_cumsum(b);
    if nws_count(b) <= config.max_chunk_chars as int {
        &&& r.len() == 1
        &&& r[0].id.0 == spec_chunk_id(repo_id, file_path, 0, b.len())
        &&& r[0].language == language
        &&& r[0].file_path@ == file_path
        &&& r[0].byte_range.start == 0
        &&& r[0].byte_range.end == b.len()
        &&& r[0].line_range.start == 0
        &&& r[0].line_range.end == line_count(b) as u32
        &&& r[0].chunk_index == 0
        &&& r[0].total_chunks == 1
        &&& r[0].context_path@ == Seq::<char>::empty()
        &&& encode_utf8(r[0].content@) == b.subrange(0, truncated_len(b, CHUNK_CONTENT_MAX_BYTES as int))
        &&& r[0].content_hash == xxh3_64_of(encode_utf8(r[0].content@))
    } else {
        let ws = windows_of(tree, c, config.max_chunk_chars as int, config.overlap_nodes as int);
        let kept = kept_prefix(ws, b.len() as int, ws.len() as int);
        &&& r.len() == kept.len()
        &&& forall|j: int| 0 <= j < r.len() ==> {
            let k = kept[j];
            let w = ws[k];
            let e = if w.1 < b.len() { w.1 as int } else { b.len() as int };
            chunk_matches(#[trigger] r[j], repo_id, file_path, b, tree, language, k, ws.len() as int, w.0 as int, e)
        }
    }
}

/// Chunk a parsed file into AST-aware code chunks.
///
/// 1. If the whole file fits within `config.max_chunk_chars` non-whitespace
///    bytes, it is a single chunk.
/// 2. Otherwise root-level children are grouped into windows within the budget,
///    recursing into children that are too large.
/// 3. Each non-empty window becomes a chunk whose context path is derived from
///    the scopes enclosing its first byte.
pub fn chunk_file(
    repo_id: &str,
    file_path: &str,
    source: &str,
    tree: &SyntaxNode,
    language: Language,
    config: &ChunkConfig,
) -> (r: Vec<CodeChunk>)
    requires
        source.spec_bytes().len() < u32::MAX,
        node_ok(*tree, source.spec_bytes()),
    ensures
        file_chunks(r@, repo_id@, file_path@, source.spec_bytes(), *tree, language, *config),
{
    let ghost b = source.spec_bytes();
    let source_bytes = source.as_bytes();
    let len = source_bytes.len();
    proof {
        broadcast use encode_utf8_valid_utf8, is_char_boundary_start_end_of_seq;
        assert(valid_utf8(b));
    }
    let cumsum = build_nws_cumsum(source_bytes);
    proof {
        assert(cumsum@ =~= spec_cumsum(b)) by {
            assert forall|i: int| 0 <= i < cumsum@.len() implies cumsum@[i] == spec_cumsum(b)[i] by {
                lemma_nws_count_le(b.take(i));
            }
        }
        assert(b.take(len as int) =~= b);
    }
    let total_nws = nws_size(&cumsum, 0, len);
    if total_nws as u128 <= config.max_chunk_chars as u128 {
        let content = truncate_utf8_bytes(source, CHUNK_CONTENT_MAX_BYTES);
        let content_hash = xxh3_64(content.as_bytes());
        let nl = count_newlines(source_bytes, 0, len);
        proof {
            lemma_count_nl_le(b.subrange(0, len as int));
        }
        let line_end: usize = if len > 0 && source_bytes[len - 1] != 10 { nl + 1 } else { nl };
        let id = ChunkId::generate(repo_id, file_path, 0, len);
        let mut out: Vec<CodeChunk> = Vec::new();
        proof {
            assert(b.subrange(0, len as int) =~= b);
            broadcast use encode_utf8_decode_utf8;
        }
        out.push(CodeChunk {
            id,
            language,
            file_path: str_to_string(file_path),
            byte_range: std::ops::Range { start: 0, end: len },
            line_range: std::ops::Range { start: 0, end: line_end as u32 },
            chunk_index: 0,
            total_chunks: 1,
            context_path: String::new(),
            content: str_to_string(content),
            content_hash,
        });
        return out;
    }
    let mut window_ranges: Vec<(usize, usize)> = Vec::new();
    assign_children_to_windows(tree, &cumsum, config.max_chunk_chars, config.overlap_nodes, &mut window_ranges);
    let ghost ws = window_ranges@;
    assert(ws =~= windows_of(*tree, spec_cumsum(b), config.max_chunk_chars as int, config.overlap_nodes as int));
    proof {
        lemma_windows_of_ok(*tree, spec_cumsum(b), config.max_chunk_chars as int, config.overlap_nodes as int, b);
    }
    let mut chunks: Vec<CodeChunk> = Vec::new();
    if window_ranges.len() == 0 {
        return chunks;
    }
    let total_chunks = window_ranges.len() as u32;
    let mut k: usize = 0;
    while k < window_ranges.len()
        invariant
            k <= ws.len(),
            ws == window_ranges@,
            ranges_ok(ws, b),
            valid_utf8(b),
            b == source.spec_bytes(),
            b == source_bytes@,
            len == b.len(),
            len < u32::MAX,
            node_ok(*tree, b),
            total_chunks == ws.len() as u32,
            chunks@.len() == kept_prefix(ws, len as int, k as int).len(),
            forall|j: int| 0 <= j < chunks@.len() ==> {
                let kk = kept_prefix(ws, len as int, k as int)[j];
                let w = ws[kk];
                let e = if w.1 < len { w.1 as int } else { len as int };
                chunk_matches(#[trigger] chunks@[j], repo_id@, file_path@, b, *tree, language, kk, ws.len() as int, w.0 as int, e)
            },
        decreases ws.len() - k,
    {
        let ghost prev = kept_prefix(ws, len as int, k as int);
        let ghost next = kept_prefix(ws, len as int, k + 1);
        let (byte_start, raw_end) = window_ranges[k];
        let byte_end = if raw_end < len { raw_end } else { len };
        if byte_start >= byte_end {
            assert(next == prev);
            k = k + 1;
            continue;
        }
        proof {
            assert(ranges_ok(ws, b));
            assert(is_char_boundary(b, ws[k as int].0 as int));
            assert(is_char_boundary(b, ws[k as int].1 as int));
        }
        let chunk_source = substr(source, byte_start, byte_end);
        let content = truncate_utf8_bytes(chunk_source, CHUNK_CONTENT_MAX_BYTES);
        let content_hash = xxh3_64(content.as_bytes());
        let before_nl = count_newlines(source_bytes, 0, byte_start);
        let inside_nl = count_newlines(source_bytes, byte_start, byte_end);
        proof {
            assert(b.subrange(0, byte_start as int) =~= b.take(byte_start as int));
            assert(before_nl + inside_nl <= len) by {
                lemma_count_nl_le(b.subrange(0, byte_start as int));
                lemma_count_nl_le(b.subrange(byte_start as int, byte_end as int));
            }
        }
        let line_start = before_nl as u32;
        let line_end = (before_nl + inside_nl + 1) as u32;
        let context_path = context_path_at(tree, source_bytes, byte_start);
        let id = ChunkId::generate(repo_id, file_path, byte_start, byte_end);
        let ghost content_b = content.spec_bytes();
        proof {
            broadcast use encode_utf8_decode_utf8;
            let piece = b.subrange(byte_start as int, byte_end as int);
            assert(chunk_source.spec_bytes() == piece);
            assert(valid_utf8(piece)) by {
                broadcast use encode_utf8_valid_utf8;
            }
            if piece.len() > CHUNK_CONTENT_MAX_BYTES {
                lemma_last_boundary(piece, CHUNK_CONTENT_MAX_BYTES as int);
            }
            let t = truncated_len(piece, CHUNK_CONTENT_MAX_BYTES as int);
            assert(0 <= t <= piece.len());
            assert(content_b == piece.subrange(0, t));
            assert(content_b =~= b.subrange(byte_start as int, byte_start + truncated_len(b.subrange(byte_start as int, byte_end as int), CHUNK_CONTENT_MAX_BYTES as int)));
        }
        chunks.push(CodeChunk {
            id,
            language,
            file_path: str_to_string(file_path),
            byte_range: std::ops::Range { start: byte_start, end: byte_end },
            line_range: std::ops::Range { start: line_start, end: line_end },
            chunk_index: k as u32,
            total_chunks,
            context_path,
            content: str_to_string(content),
            content_hash,
        });
        proof {
            assert(next == prev.push(k as int));
            assert forall|j: int| 0 <= j < chunks@.len() implies {
                let kk = kept_prefix(ws, len as int, k + 1)[j];
                let w = ws[kk];
                let e = if w.1 < len { w.1 as int } else { len as int };
                chunk_matches(#[trigger] chunks@[j], repo_id@, file_path@, b, *tree, language, kk, ws.len() as int, w.0 as int, e)
            } by {
                if j < chunks@.len() - 1 {
                    assert(next[j] == prev[j]);
                }
            }
        }
        k = k + 1;
    }
    chunks
}

proof fn lemma_count_nl_le(s: Seq<u8>)
    ensures
        count_nl(s) <= s.len(),
    decreases s.len(),
{
    if s.len() > 0 {
        lemma_count_nl_le(s.drop_last());
    }
}

} // verus!
