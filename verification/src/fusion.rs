//! Which symbols each retrieval signal contributes, and in which rank order.
//! A signal's score for a symbol is a function of its rank alone; the
//! weighted scores themselves are summed by the caller.
use vstd::prelude::*;
use crate::extract::opt_text;
use crate::graph::TraversalHit;
use crate::language::Language;
use crate::symbol::{CodeSymbol, SymbolId, SymbolKind};

verus! {

/// Result limit a query may ask for.
pub const MAX_RESULT_LIMIT: usize = 200;

/// Graph expansion depth a query may ask for.
pub const MAX_GRAPH_DEPTH: u32 = 5;

/// Neighbors kept per node in a retrieval traversal.
pub const GRAPH_FANOUT: u32 = 50;

/// The number of results a query returns: its limit, capped at 200.
pub fn effective_limit(limit: usize) -> (r: usize)
    ensures
        r == if limit < MAX_RESULT_LIMIT { limit } else { MAX_RESULT_LIMIT },
{
    if limit < MAX_RESULT_LIMIT {
        limit
    } else {
        MAX_RESULT_LIMIT
    }
}

/// The graph expansion depth of a query: its depth, capped at 5.
pub fn effective_graph_depth(depth: u32) -> (r: u32)
    ensures
        r == if depth < MAX_GRAPH_DEPTH { depth } else { MAX_GRAPH_DEPTH },
{
    if depth < MAX_GRAPH_DEPTH {
        depth
    } else {
        MAX_GRAPH_DEPTH
    }
}


/// A symbol passes a query's filters: its language is the one asked for,
/// and its path starts with the prefix asked for.
pub open spec fn spec_passes_filters(sym: CodeSymbol, lang: Option<Language>, prefix: Option<Seq<char>>) -> bool {
    &&& (lang matches Some(l) ==> sym.language == l)
    &&& (prefix matches Some(p) ==> p.is_prefix_of(sym.file_path@))
}

/// The two filters apply together and independently: a symbol passes both
/// exactly when it passes each alone; a symbol whose path lacks the prefix
/// never passes, and neither does one of another language, whatever the
/// other filter; with no filter every symbol passes.
pub proof fn lemma_filters_conjunction(sym: CodeSymbol, lang: Option<Language>, prefix: Option<Seq<char>>)
    ensures
        spec_passes_filters(sym, lang, prefix) == (spec_passes_filters(sym, lang, None) && spec_passes_filters(sym, None, prefix)),
        prefix matches Some(p) ==> (!p.is_prefix_of(sym.file_path@) ==> !spec_passes_filters(sym, lang, prefix)),
        lang matches Some(l) ==> (sym.language != l ==> !spec_passes_filters(sym, lang, prefix)),
        spec_passes_filters(sym, None, None),
        spec_passes_filters(sym, lang, None) == (lang is None || sym.language == lang->0),
        spec_passes_filters(sym, None, prefix) == (prefix is None || prefix->0.is_prefix_of(sym.file_path@)),
{
}

/// Whether `s` starts with `p`.
pub fn str_starts_with(s: &str, p: &str) -> (r: bool)
    ensures
        r == p@.is_prefix_of(s@),
{
    let n = p.unicode_len();
    if n > s.unicode_len() {
        return false;
    }
    let mut i: usize = 0;
    while i < n
        invariant
            n == p@.len(),
            n <= s@.len(),
            i <= n,
            forall|j: int| 0 <= j < i ==> p@[j] == s@[j],
        decreases n - i,
    {
        if p.get_char(i) != s.get_char(i) {
            proof {
                assert(s@.subrange(0, n as int)[i as int] == s@[i as int]);
            }
            return false;
        }
        i = i + 1;
    }
    assert(p@ =~= s@.subrange(0, n as int));
    true
}

/// Whether a symbol passes a query's language and path-prefix filters.
pub fn passes_filters(sym: &CodeSymbol, lang: Option<Language>, prefix: Option<&str>) -> (r: bool)
    ensures
        r == spec_passes_filters(*sym, lang, opt_text(prefix)),
{
    if let Some(l) = lang {
        if sym.language != l {
            return false;
        }
    }
    match prefix {
        Some(p) => str_starts_with(sym.file_path.as_str(), p),
        None => true,
    }
}

/// Some symbol of `s` has this ID.
pub open spec fn id_in(s: Seq<CodeSymbol>, id: SymbolId) -> bool {
    exists|k: int| 0 <= k < s.len() && (#[trigger] s[k]).id == id
}

/// The exact-match candidates among the looked-up symbols, in lookup order:
/// the first symbol with each ID, if it passes the filters.
pub open spec fn spec_exact_candidates(found: Seq<CodeSymbol>, lang: Option<Language>, prefix: Option<Seq<char>>) -> Seq<CodeSymbol>
    decreases found.len(),
{
    if found.len() == 0 {
        Seq::empty()
    } else {
        let prev = spec_exact_candidates(found.drop_last(), lang, prefix);
        let x = found.last();
        if !id_in(found.drop_last(), x.id) && spec_passes_filters(x, lang, prefix) {
            prev.push(x)
        } else {
            prev
        }
    }
}

/// At most the first `n` elements.
pub open spec fn at_most<A>(s: Seq<A>, n: nat) -> Seq<A> {
    if n < s.len() {
        s.take(n as int)
    } else {
        s
    }
}

fn id_among(syms: &[CodeSymbol], upto: usize, id: SymbolId) -> (r: bool)
    requires
        upto <= syms@.len(),
    ensures
        r == id_in(syms@.take(upto as int), id),
{
    let mut k: usize = 0;
    while k < upto
        invariant
            upto <= syms@.len(),
            k <= upto,
            forall|j: int| 0 <= j < k ==> syms@[j].id != id,
        decreases upto - k,
    {
        if syms[k].id == id {
            assert(syms@.take(upto as int)[k as int] == syms@[k as int]);
            return true;
        }
        k = k + 1;
    }
    proof {
        if id_in(syms@.take(upto as int), id) {
            let j = choose|j: int| 0 <= j < upto && (#[trigger] syms@.take(upto as int)[j]).id == id;
            assert(syms@.take(upto as int)[j] == syms@[j]);
        }
    }
    false
}

/// The exact-match signal's ranked symbols: the looked-up symbols (name
/// matches, then qualified-name matches, term by term) without repeated
/// IDs, filtered, and cut to the pool size.
pub fn select_exact_hits(found: &[CodeSymbol], lang: Option<Language>, prefix: Option<&str>, pool: usize) -> (r: Vec<CodeSymbol>)
    ensures
        r@ == at_most(spec_exact_candidates(found@, lang, opt_text(prefix)), pool as nat),
{
    let mut out: Vec<CodeSymbol> = Vec::new();
    let mut i: usize = 0;
    while i < found.len()
        invariant
            i <= found@.len(),
            out@ == spec_exact_candidates(found@.take(i as int), lang, opt_text(prefix)),
        decreases found@.len() - i,
    {
        proof {
            assert(found@.take(i + 1).drop_last() =~= found@.take(i as int));
            assert(found@.take(i + 1).last() == found@[i as int]);
        }
        let seen = id_among(found, i, found[i].id);
        if !seen && passes_filters(&found[i], lang, prefix) {
            out.push(found[i].duplicate());
        }
        i = i + 1;
    }
    assert(found@.take(i as int) =~= found@);
    out.truncate(pool);
    out
}

/// The smallest depth at which the traversal hits reach `id`, if any does.
pub open spec fn spec_min_depth(hits: Seq<TraversalHit>, id: SymbolId) -> Option<u32>
    decreases hits.len(),
{
    if hits.len() == 0 {
        None
    } else {
        let prev = spec_min_depth(hits.drop_last(), id);
        let h = hits.last();
        if h.symbol_id != id {
            prev
        } else {
            match prev {
                None => Some(h.depth),
                Some(d) => Some(if h.depth < d { h.depth } else { d }),
            }
        }
    }
}

/// Graph hits rank by depth, then by ID.
pub open spec fn hit_before(a: (SymbolId, u32), b: (SymbolId, u32)) -> bool {
    a.1 < b.1 || (a.1 == b.1 && a.0.0 < b.0.0)
}

/// The graph signal's ranked symbols: every symbol the traversals reach that
/// is not a seed, once, with the smallest depth it is reached at, nearest
/// first and then by ID.
pub open spec fn graph_hits_ok(r: Seq<(SymbolId, u32)>, seeds: Seq<SymbolId>, hits: Seq<TraversalHit>) -> bool {
    &&& forall|i: int| 0 <= i < r.len() ==> !seeds.contains((#[trigger] r[i]).0) && spec_min_depth(hits, r[i].0) == Some(r[i].1)
    &&& forall|id: SymbolId| #[trigger] spec_min_depth(hits, id) is Some && !seeds.contains(id)
        ==> exists|i: int| 0 <= i < r.len() && (#[trigger] r[i]).0 == id
    &&& forall|i: int, j: int| 0 <= i < j < r.len() ==> hit_before(#[trigger] r[i], #[trigger] r[j])
}

fn contains_id(ids: &[SymbolId], id: SymbolId) -> (r: bool)
    ensures
        r == ids@.contains(id),
{
    let mut k: usize = 0;
    while k < ids.len()
        invariant
            k <= ids@.len(),
            forall|j: int| 0 <= j < k ==> ids@[j] != id,
        decreases ids@.len() - k,
    {
        if ids[k] == id {
            assert(ids@[k as int] == id);
            return true;
        }
        k = k + 1;
    }
    false
}

fn find_pair(v: &Vec<(SymbolId, u32)>, id: SymbolId) -> (r: Option<usize>)
    ensures
        r matches Some(j) ==> j < v@.len() && v@[j as int].0 == id,
        r is None ==> forall|j: int| 0 <= j < v@.len() ==> v@[j].0 != id,
{
    let mut k: usize = 0;
    while k < v.len()
        invariant
            k <= v@.len(),
            forall|j: int| 0 <= j < k ==> v@[j].0 != id,
        decreases v@.len() - k,
    {
        if v[k].0 == id {
            return Some(k);
        }
        k = k + 1;
    }
    None
}

proof fn lemma_min_depth_step(hits: Seq<TraversalHit>, i: int, id: SymbolId)
    requires
        0 <= i < hits.len(),
    ensures
        hits[i].symbol_id != id ==> spec_min_depth(hits.take(i + 1), id) == spec_min_depth(hits.take(i), id),
        hits[i].symbol_id == id ==> spec_min_depth(hits.take(i + 1), id) == match spec_min_depth(hits.take(i), id) {
            None => Some(hits[i].depth),
            Some(d) => Some(if hits[i].depth < d { hits[i].depth } else { d }),
        },
{
    assert(hits.take(i + 1).drop_last() =~= hits.take(i));
    assert(hits.take(i + 1).last() == hits[i]);
}

/// The graph signal's ranked symbols from the seeds' traversal hits.
pub fn rank_graph_hits(seeds: &[SymbolId], hits: &[TraversalHit]) -> (r: Vec<(SymbolId, u32)>)
    ensures
        graph_hits_ok(r@, seeds@, hits@),
{
    let mut merged: Vec<(SymbolId, u32)> = Vec::new();
    let mut i: usize = 0;
    assert(hits@.take(0) =~= Seq::<TraversalHit>::empty());
    while i < hits.len()
        invariant
            i <= hits@.len(),
            forall|j: int| 0 <= j < merged@.len() ==> !seeds@.contains((#[trigger] merged@[j]).0)
                && spec_min_depth(hits@.take(i as int), merged@[j].0) == Some(merged@[j].1),
            forall|id: SymbolId| #[trigger] spec_min_depth(hits@.take(i as int), id) is Some && !seeds@.contains(id)
                ==> exists|j: int| 0 <= j < merged@.len() && (#[trigger] merged@[j]).0 == id,
            forall|a: int, b: int| 0 <= a < b < merged@.len() ==> (#[trigger] merged@[a]).0 != (#[trigger] merged@[b]).0,
        decreases hits@.len() - i,
    {
        let h = hits[i];
        let ghost before = merged@;
        proof {
            assert forall|id: SymbolId| true implies (h.symbol_id != id ==> spec_min_depth(hits@.take(i + 1), id)
                == spec_min_depth(hits@.take(i as int), id)) by {
                lemma_min_depth_step(hits@, i as int, id);
            }
            lemma_min_depth_step(hits@, i as int, h.symbol_id);
        }
        if !contains_id(seeds, h.symbol_id) {
            match find_pair(&merged, h.symbol_id) {
                Some(j) => {
                    if h.depth < merged[j].1 {
                        merged.set(j, (h.symbol_id, h.depth));
                    }
                    proof {
                        assert forall|id: SymbolId| #[trigger] spec_min_depth(hits@.take(i + 1), id) is Some && !seeds@.contains(id)
                            implies exists|k: int| 0 <= k < merged@.len() && (#[trigger] merged@[k]).0 == id by {
                            if id == h.symbol_id {
                                assert(merged@[j as int].0 == id);
                            } else {
                                lemma_min_depth_step(hits@, i as int, id);
                                assert(spec_min_depth(hits@.take(i as int), id) is Some);
                                let k = choose|k: int| 0 <= k < before.len() && (#[trigger] before[k]).0 == id;
                                assert(merged@[k].0 == id);
                            }
                        }
                        assert forall|k: int| 0 <= k < merged@.len() implies !seeds@.contains((#[trigger] merged@[k]).0)
                            && spec_min_depth(hits@.take(i + 1), merged@[k].0) == Some(merged@[k].1) by {
                            if k != j {
                                assert(merged@[k] == before[k]);
                                assert(before[k].0 != before[j as int].0);
                            }
                        }
                        assert forall|a: int, b: int| 0 <= a < b < merged@.len() implies (#[trigger] merged@[a]).0 != (#[trigger] merged@[b]).0 by {
                            assert(before[a].0 != before[b].0);
                        }
                    }
                },
                None => {
                    merged.push((h.symbol_id, h.depth));
                    proof {
                        assert(spec_min_depth(hits@.take(i as int), h.symbol_id) is None) by {
                            if spec_min_depth(hits@.take(i as int), h.symbol_id) is Some {
                                let k = choose|k: int| 0 <= k < before.len() && (#[trigger] before[k]).0 == h.symbol_id;
                            }
                        }
                        assert forall|id: SymbolId| #[trigger] spec_min_depth(hits@.take(i + 1), id) is Some && !seeds@.contains(id)
                            implies exists|k: int| 0 <= k < merged@.len() && (#[trigger] merged@[k]).0 == id by {
                            if id == h.symbol_id {
                                assert(merged@[before.len() as int].0 == id);
                            } else {
                                lemma_min_depth_step(hits@, i as int, id);
                                assert(spec_min_depth(hits@.take(i as int), id) is Some);
                                let k = choose|k: int| 0 <= k < before.len() && (#[trigger] before[k]).0 == id;
                                assert(merged@[k].0 == id);
                            }
                        }
                        assert forall|k: int| 0 <= k < merged@.len() implies !seeds@.contains((#[trigger] merged@[k]).0)
                            && spec_min_depth(hits@.take(i + 1), merged@[k].0) == Some(merged@[k].1) by {
                            if k < before.len() {
                                assert(merged@[k] == before[k]);
                            }
                        }
                        assert forall|a: int, b: int| 0 <= a < b < merged@.len() implies (#[trigger] merged@[a]).0 != (#[trigger] merged@[b]).0 by {
                            if b < before.len() {
                                assert(before[a].0 != before[b].0);
                            } else {
                                assert(merged@[a] == before[a]);
                            }
                        }
                    }
                },
            }
        } else {
            proof {
                assert forall|id: SymbolId| #[trigger] spec_min_depth(hits@.take(i + 1), id) is Some && !seeds@.contains(id)
                    implies exists|k: int| 0 <= k < merged@.len() && (#[trigger] merged@[k]).0 == id by {
                    assert(spec_min_depth(hits@.take(i as int), id) is Some);
                }
                assert forall|k: int| 0 <= k < merged@.len() implies !seeds@.contains((#[trigger] merged@[k]).0)
                    && spec_min_depth(hits@.take(i + 1), merged@[k].0) == Some(merged@[k].1) by {
                    assert(merged@[k].0 != h.symbol_id);
                }
            }
        }
        i = i + 1;
    }
    assert(hits@.take(i as int) =~= hits@);
    let r = sort_graph_hits(&merged);
    proof {
        assert forall|k: int| 0 <= k < r@.len() implies !seeds@.contains((#[trigger] r@[k]).0)
            && spec_min_depth(hits@, r@[k].0) == Some(r@[k].1) by {
            vstd::seq_lib::to_multiset_contains(r@, r@[k]);
            vstd::seq_lib::to_multiset_contains(merged@, r@[k]);
            assert(r@.contains(r@[k]));
            assert(merged@.contains(r@[k]));
            let j = choose|j: int| 0 <= j < merged@.len() && merged@[j] == r@[k];
            assert(merged@[j] == r@[k]);
        }
        assert forall|id: SymbolId| #[trigger] spec_min_depth(hits@, id) is Some && !seeds@.contains(id)
            implies exists|k: int| 0 <= k < r@.len() && (#[trigger] r@[k]).0 == id by {
            let j = choose|j: int| 0 <= j < merged@.len() && (#[trigger] merged@[j]).0 == id;
            vstd::seq_lib::to_multiset_contains(r@, merged@[j]);
            vstd::seq_lib::to_multiset_contains(merged@, merged@[j]);
            assert(merged@.contains(merged@[j]));
            assert(r@.contains(merged@[j]));
            let k = choose|k: int| 0 <= k < r@.len() && r@[k] == merged@[j];
            assert(r@[k].0 == id);
        }
    }
    r
}

fn pair_before(a: (SymbolId, u32), b: (SymbolId, u32)) -> (r: bool)
    ensures
        r == hit_before(a, b),
{
    a.1 < b.1 || (a.1 == b.1 && a.0.0 < b.0.0)
}

/// Graph hits in strictly increasing rank order.
pub open spec fn hits_sorted(s: Seq<(SymbolId, u32)>) -> bool {
    forall|a: int, b: int| 0 <= a < b < s.len() ==> hit_before(#[trigger] s[a], #[trigger] s[b])
}

proof fn lemma_insert_sorted(s: Seq<(SymbolId, u32)>, p: int, x: (SymbolId, u32))
    requires
        hits_sorted(s),
        0 <= p <= s.len(),
        forall|a: int| 0 <= a < p ==> !hit_before(x, #[trigger] s[a]),
        p < s.len() ==> hit_before(x, s[p]),
        forall|a: int| 0 <= a < s.len() ==> (#[trigger] s[a]).0 != x.0,
    ensures
        hits_sorted(s.insert(p, x)),
{
    let t = s.insert(p, x);
    assert forall|a: int, b: int| 0 <= a < b < t.len() implies hit_before(#[trigger] t[a], #[trigger] t[b]) by {
        if b < p {
            assert(t[a] == s[a] && t[b] == s[b]);
        } else if b == p {
            assert(t[a] == s[a]);
            assert(s[a].0 != x.0);
        } else if a < p {
            assert(t[a] == s[a] && t[b] == s[b - 1]);
        } else if a == p {
            assert(t[b] == s[b - 1]);
            if b - 1 > p {
                assert(hit_before(s[p], s[b - 1]));
            }
        } else {
            assert(t[a] == s[a - 1] && t[b] == s[b - 1]);
        }
    }
}

fn insert_position(out: &Vec<(SymbolId, u32)>, x: (SymbolId, u32)) -> (p: usize)
    ensures
        p <= out@.len(),
        forall|a: int| 0 <= a < p ==> !hit_before(x, #[trigger] out@[a]),
        p < out@.len() ==> hit_before(x, out@[p as int]),
{
    let mut p: usize = 0;
    while p < out.len() && !pair_before(x, out[p])
        invariant
            p <= out@.len(),
            forall|a: int| 0 <= a < p ==> !hit_before(x, #[trigger] out@[a]),
        decreases out@.len() - p,
    {
        p = p + 1;
    }
    p
}

fn sort_graph_hits(v: &Vec<(SymbolId, u32)>) -> (r: Vec<(SymbolId, u32)>)
    requires
        forall|a: int, b: int| 0 <= a < b < v@.len() ==> (#[trigger] v@[a]).0 != (#[trigger] v@[b]).0,
    ensures
        hits_sorted(r@),
        r@.to_multiset() == v@.to_multiset(),
{
    let mut out: Vec<(SymbolId, u32)> = Vec::new();
    let mut i: usize = 0;
    assert(v@.take(0) =~= Seq::<(SymbolId, u32)>::empty());
    while i < v.len()
        invariant
            i <= v@.len(),
            forall|a: int, b: int| 0 <= a < b < v@.len() ==> (#[trigger] v@[a]).0 != (#[trigger] v@[b]).0,
            hits_sorted(out@),
            out@.to_multiset() == v@.take(i as int).to_multiset(),
        decreases v@.len() - i,
    {
        let x = v[i];
        let p = insert_position(&out, x);
        let ghost before = out@;
        proof {
            assert forall|a: int| 0 <= a < before.len() implies (#[trigger] before[a]).0 != x.0 by {
                vstd::seq_lib::to_multiset_contains(before, before[a]);
                vstd::seq_lib::to_multiset_contains(v@.take(i as int), before[a]);
                assert(before.contains(before[a]));
                assert(v@.take(i as int).contains(before[a]));
                let k = choose|k: int| 0 <= k < i && v@.take(i as int)[k] == before[a];
                assert(v@.take(i as int)[k] == v@[k]);
                assert(v@[k].0 != v@[i as int].0);
            }
            assert(v@.take(i + 1) =~= v@.take(i as int).push(x));
        }
        out.insert(p, x);
        proof {
            assert(out@ == before.insert(p as int, x));
            vstd::seq_lib::to_multiset_insert(before, p as int, x);
            vstd::seq_lib::to_multiset_build(v@.take(i as int), x);
            lemma_insert_sorted(before, p as int, x);
        }
        i = i + 1;
    }
    assert(v@.take(i as int) =~= v@);
    out
}

/// How strongly a kind of symbol stands for its file: types first, then
/// functions, then the rest.
pub open spec fn kind_priority(k: SymbolKind) -> nat {
    match k {
        SymbolKind::Class | SymbolKind::Struct | SymbolKind::Interface | SymbolKind::Trait => 0,
        SymbolKind::Function | SymbolKind::Method => 1,
        _ => 2,
    }
}

fn kind_priority_exec(k: SymbolKind) -> (r: u8)
    ensures
        r == kind_priority(k),
{
    match k {
        SymbolKind::Class | SymbolKind::Struct | SymbolKind::Interface | SymbolKind::Trait => 0,
        SymbolKind::Function | SymbolKind::Method => 1,
        _ => 2,
    }
}

/// The symbol a chunk hit in a file boosts: the first of the file's symbols
/// with the highest kind priority.
pub fn best_symbol_index(symbols: &[CodeSymbol]) -> (r: Option<usize>)
    ensures
        r is None <==> symbols@.len() == 0,
        r matches Some(b) ==> b < symbols@.len()
            && (forall|k: int| 0 <= k < symbols@.len() ==> kind_priority(symbols@[b as int].kind) <= kind_priority(#[trigger] symbols@[k].kind))
            && (forall|k: int| 0 <= k < b ==> kind_priority(symbols@[b as int].kind) < kind_priority(#[trigger] symbols@[k].kind)),
{
    if symbols.len() == 0 {
        return None;
    }
    let mut best: usize = 0;
    let mut best_p = kind_priority_exec(symbols[0].kind);
    let mut i: usize = 1;
    while i < symbols.len()
        invariant
            1 <= i <= symbols@.len(),
            best < i,
            best_p == kind_priority(symbols@[best as int].kind),
            forall|k: int| 0 <= k < i ==> best_p <= kind_priority(#[trigger] symbols@[k].kind),
            forall|k: int| 0 <= k < best ==> best_p < kind_priority(#[trigger] symbols@[k].kind),
        decreases symbols@.len() - i,
    {
        let p = kind_priority_exec(symbols[i].kind);
        if p < best_p {
            best = i;
            best_p = p;
        }
        i = i + 1;
    }
    Some(best)
}

/// No path before index `n` is `s`.
pub open spec fn absent_before(paths: Seq<String>, n: int, s: Seq<char>) -> bool {
    forall|k: int| 0 <= k < n ==> (#[trigger] paths[k])@ != s
}

/// Each file a chunk hit lies in, once, with the rank of its first hit, in
/// rank order.
pub open spec fn spec_first_ranks(paths: Seq<String>) -> Seq<(Seq<char>, int)>
    decreases paths.len(),
{
    if paths.len() == 0 {
        Seq::empty()
    } else {
        let n = paths.len() - 1;
        let prev = spec_first_ranks(paths.drop_last());
        if absent_before(paths, n, paths[n]@) {
            prev.push((paths[n]@, n))
        } else {
            prev
        }
    }
}

fn path_seen(paths: &[String], upto: usize, p: &str) -> (r: bool)
    requires
        upto <= paths@.len(),
    ensures
        r == !absent_before(paths@, upto as int, p@),
{
    let mut k: usize = 0;
    while k < upto
        invariant
            upto <= paths@.len(),
            k <= upto,
            forall|j: int| 0 <= j < k ==> (#[trigger] paths@[j])@ != p@,
        decreases upto - k,
    {
        if crate::language::str_eq(paths[k].as_str(), p) {
            return true;
        }
        k = k + 1;
    }
    false
}

/// The files of the chunk hits (given in rank order), each with the rank of
/// its best chunk.
pub fn first_rank_per_file(paths: &[String]) -> (r: Vec<(String, usize)>)
    ensures
        r@.len() == spec_first_ranks(paths@).len(),
        forall|i: int| 0 <= i < r@.len() ==> (#[trigger] r@[i]).0@ == spec_first_ranks(paths@)[i].0
            && r@[i].1 == spec_first_ranks(paths@)[i].1,
{
    let mut out: Vec<(String, usize)> = Vec::new();
    let mut i: usize = 0;
    while i < paths.len()
        invariant
            i <= paths@.len(),
            out@.len() == spec_first_ranks(paths@.take(i as int)).len(),
            forall|a: int| 0 <= a < out@.len() ==> (#[trigger] out@[a]).0@ == spec_first_ranks(paths@.take(i as int))[a].0
                && out@[a].1 == spec_first_ranks(paths@.take(i as int))[a].1,
        decreases paths@.len() - i,
    {
        let ghost before = out@;
        let ghost t = paths@.take(i + 1);
        proof {
            assert(t.drop_last() =~= paths@.take(i as int));
            assert(t[i as int] == paths@[i as int]);
            let x = paths@[i as int]@;
            if absent_before(t, i as int, x) {
                assert forall|k: int| 0 <= k < i implies (#[trigger] paths@[k])@ != x by {
                    assert(t[k] == paths@[k]);
                }
            }
            if absent_before(paths@, i as int, x) {
                assert forall|k: int| 0 <= k < i implies (#[trigger] t[k])@ != x by {
                    assert(t[k] == paths@[k]);
                }
            }
        }
        if !path_seen(paths, i, paths[i].as_str()) {
            out.push((paths[i].clone(), i));
            proof {
                assert forall|a: int| 0 <= a < out@.len() implies (#[trigger] out@[a]).0@ == spec_first_ranks(t)[a].0
                    && out@[a].1 == spec_first_ranks(t)[a].1 by {
                    if a < before.len() {
                        assert(out@[a] == before[a]);
                    }
                }
            }
        }
        i = i + 1;
    }
    assert(paths@.take(i as int) =~= paths@);
    out
}

/// The related symbols of a direct hit, in traversal order: each hit that
/// is not the symbol itself and, where `dedup` is set, whose ID no earlier
/// hit had.
pub open spec fn spec_related_hits(self_id: SymbolId, hits: Seq<(SymbolId, usize)>, dedup: bool) -> Seq<(SymbolId, usize)>
    decreases hits.len(),
{
    if hits.len() == 0 {
        Seq::empty()
    } else {
        let prev = spec_related_hits(self_id, hits.drop_last(), dedup);
        let x = hits.last();
        if x.0 != self_id && !(dedup && exists|k: int| 0 <= k < hits.len() - 1 && (#[trigger] hits[k]).0 == x.0) {
            prev.push(x)
        } else {
            prev
        }
    }
}

/// The hits that become related symbols of a direct hit; each hit carries
/// the index of the signal that found it.
pub fn related_hits(self_id: SymbolId, hits: &[(SymbolId, usize)], dedup: bool) -> (r: Vec<(SymbolId, usize)>)
    ensures
        r@ == spec_related_hits(self_id, hits@, dedup),
{
    let mut out: Vec<(SymbolId, usize)> = Vec::new();
    let mut i: usize = 0;
    while i < hits.len()
        invariant
            i <= hits@.len(),
            out@ == spec_related_hits(self_id, hits@.take(i as int), dedup),
        decreases hits@.len() - i,
    {
        let x = hits[i];
        let mut seen = false;
        if dedup {
            let mut k: usize = 0;
            while k < i && !seen
                invariant
                    i < hits@.len(),
                    k <= i,
                    seen ==> 0 < k && hits@[k - 1].0 == x.0,
                    !seen ==> forall|j: int| 0 <= j < k ==> hits@[j].0 != x.0,
                decreases i - k,
            {
                if hits[k].0 == x.0 {
                    seen = true;
                }
                k = k + 1;
            }
            proof {
                if seen {
                    assert(hits@.take(i + 1)[k - 1] == hits@[k - 1]);
                } else {
                    assert forall|j: int| 0 <= j < i implies (#[trigger] hits@.take(i + 1)[j]).0 != x.0 by {
                        assert(hits@.take(i + 1)[j] == hits@[j]);
                    }
                }
            }
        }
        proof {
            assert(hits@.take(i + 1).drop_last() =~= hits@.take(i as int));
            assert(hits@.take(i + 1).last() == x);
        }
        if x.0 != self_id && !seen {
            out.push(x);
        }
        i = i + 1;
    }
    assert(hits@.take(i as int) =~= hits@);
    out
}

} // verus!
