use vstd::prelude::*;
use std::collections::HashMap;
use crate::symbol::{CodeSymbol, SymbolId};
use crate::errors::IndexerError;
use crate::hashing::xxh3_64_of;
use crate::language::{str_eq, Language};
use crate::parser::{is_binary, spec_is_binary, ParserRegistry, MAX_FILE_SIZE};
use crate::paths::{path_extension, spec_path_extension};
use crate::pipeline::{normalize_path, spec_extension_language, spec_forward_slashes};
use crate::text::{dec_chars, push_decimal, str_same, str_to_string, string_push_str};
use crate::watcher::{should_reindex, ChangeEvent};

verus! {

broadcast use vstd::std_specs::hash::group_hash_axioms;

/// Some symbol of the list has this ID.
pub open spec fn has_id(syms: Seq<CodeSymbol>, id: u128) -> bool {
    exists|k: int| 0 <= k < syms.len() && (#[trigger] syms[k]).id.0 == id
}

/// No later symbol of the list shares the ID of the one at `j`: it is the
/// one a map keyed by ID keeps.
pub open spec fn is_last_with_id(syms: Seq<CodeSymbol>, j: int) -> bool {
    forall|k: int| j < k < syms.len() ==> (#[trigger] syms[k]).id.0 != syms[j].id.0
}

/// The body hash of the last symbol of the list with this ID.
pub open spec fn last_hash(syms: Seq<CodeSymbol>, id: u128) -> u64
    decreases syms.len(),
{
    if syms.len() == 0 {
        0
    } else if syms.last().id.0 == id {
        syms.last().body_hash
    } else {
        last_hash(syms.drop_last(), id)
    }
}

/// How the new symbol at `j` is classified: 0 added, 1 modified,
/// 2 unchanged, 3 shadowed by a later symbol with the same ID.
pub open spec fn new_class(old: Seq<CodeSymbol>, new: Seq<CodeSymbol>, j: int) -> nat {
    let id = new[j].id.0;
    if !is_last_with_id(new, j) {
        3
    } else if !has_id(old, id) {
        0
    } else if new[j].body_hash != last_hash(old, id) {
        1
    } else {
        2
    }
}

/// The new symbols among the first `n` whose class is `c`, in order.
pub open spec fn new_with_class(old: Seq<CodeSymbol>, new: Seq<CodeSymbol>, c: nat, n: int) -> Seq<CodeSymbol>
    decreases n,
{
    if n <= 0 {
        Seq::empty()
    } else {
        let prev = new_with_class(old, new, c, n - 1);
        if new_class(old, new, n - 1) == c { prev.push(new[n - 1]) } else { prev }
    }
}

/// The IDs of the first `n` old symbols that no new symbol has, each once.
pub open spec fn removed_ids(old: Seq<CodeSymbol>, new: Seq<CodeSymbol>, n: int) -> Seq<SymbolId>
    decreases n,
{
    if n <= 0 {
        Seq::empty()
    } else {
        let prev = removed_ids(old, new, n - 1);
        if is_last_with_id(old, n - 1) && !has_id(new, old[n - 1].id.0) {
            prev.push(old[n - 1].id)
        } else {
            prev
        }
    }
}

/// Categories resulting from diffing old vs new symbol sets.
#[derive(Debug)]
pub struct SymbolDiff {
    /// Symbols that exist in new but not in old.
    pub added: Vec<CodeSymbol>,
    /// Symbol IDs that exist in old but not in new.
    pub removed: Vec<SymbolId>,
    /// Symbols that exist in both but have different body_hash.
    pub modified: Vec<CodeSymbol>,
    /// Count of symbols unchanged (same ID and body_hash).
    pub unchanged_count: usize,
}

/// The map from each ID of the list to the index of its last symbol.
fn last_index_map(syms: &[CodeSymbol]) -> (m: HashMap<u128, usize>)
    ensures
        forall|id: u128| #[trigger] m@.contains_key(id) <==> has_id(syms@, id),
        forall|id: u128|
            #[trigger] m@.contains_key(id) ==> {
                &&& m@[id] < syms@.len()
                &&& syms@[m@[id] as int].id.0 == id
                &&& is_last_with_id(syms@, m@[id] as int)
            },
{
    let mut m: HashMap<u128, usize> = HashMap::new();
    let mut i: usize = 0;
    while i < syms.len()
        invariant
            i <= syms@.len(),
            forall|id: u128| #[trigger] m@.contains_key(id) <==> has_id(syms@.take(i as int), id),
            forall|id: u128|
                #[trigger] m@.contains_key(id) ==> {
                    &&& m@[id] < i
                    &&& syms@[m@[id] as int].id.0 == id
                    &&& forall|k: int| m@[id] < k < i ==> (#[trigger] syms@[k]).id.0 != id
                },
        decreases syms@.len() - i,
    {
        let ghost before = m@;
        m.insert(syms[i].id.0, i);
        proof {
            let t = syms@.take(i as int);
            let t2 = syms@.take(i + 1);
            assert forall|id: u128| #[trigger] m@.contains_key(id) <==> has_id(t2, id) by {
                if has_id(t2, id) {
                    let k = choose|k: int| 0 <= k < t2.len() && (#[trigger] t2[k]).id.0 == id;
                    if k < i {
                        assert(t[k] == t2[k]);
                    }
                }
                if before.contains_key(id) {
                    let k = choose|k: int| 0 <= k < t.len() && (#[trigger] t[k]).id.0 == id;
                    assert(t2[k] == t[k]);
                }
                if id == syms@[i as int].id.0 {
                    assert(t2[i as int] == syms@[i as int]);
                }
            }
        }
        i = i + 1;
    }
    proof {
        assert(syms@.take(i as int) =~= syms@);
    }
    m
}

proof fn lemma_last_hash(syms: Seq<CodeSymbol>, k: int)
    requires
        0 <= k < syms.len(),
        is_last_with_id(syms, k),
    ensures
        last_hash(syms, syms[k].id.0) == syms[k].body_hash,
    decreases syms.len(),
{
    if k < syms.len() - 1 {
        assert(syms[syms.len() - 1].id.0 != syms[k].id.0);
        let d = syms.drop_last();
        assert(d[k] == syms[k]);
        assert forall|j: int| k < j < d.len() implies (#[trigger] d[j]).id.0 != d[k].id.0 by {
            assert(d[j] == syms[j]);
        }
        lemma_last_hash(d, k);
    }
}

/// Compute the diff between old symbols (from storage) and new symbols
/// (from the parser), by symbol ID: an ID only in new is added, only in old
/// removed, in both with another body hash modified, else unchanged. Where a
/// list holds an ID twice, its last symbol stands for it.
pub fn diff_symbols(old_symbols: &[CodeSymbol], new_symbols: &[CodeSymbol]) -> (d: SymbolDiff)
    ensures
        d.added@ == new_with_class(old_symbols@, new_symbols@, 0, new_symbols@.len() as int),
        d.modified@ == new_with_class(old_symbols@, new_symbols@, 1, new_symbols@.len() as int),
        d.unchanged_count == new_with_class(old_symbols@, new_symbols@, 2, new_symbols@.len() as int).len(),
        d.removed@ == removed_ids(old_symbols@, new_symbols@, old_symbols@.len() as int),
{
    let ghost old = old_symbols@;
    let ghost new = new_symbols@;
    let old_last = last_index_map(old_symbols);
    let new_last = last_index_map(new_symbols);
    let mut added: Vec<CodeSymbol> = Vec::new();
    let mut modified: Vec<CodeSymbol> = Vec::new();
    let mut unchanged_count: usize = 0;
    let mut j: usize = 0;
    while j < new_symbols.len()
        invariant
            old == old_symbols@,
            new == new_symbols@,
            j <= new.len(),
            forall|id: u128| #[trigger] old_last@.contains_key(id) <==> has_id(old, id),
            forall|id: u128|
                #[trigger] old_last@.contains_key(id) ==> {
                    &&& old_last@[id] < old.len()
                    &&& old[old_last@[id] as int].id.0 == id
                    &&& is_last_with_id(old, old_last@[id] as int)
                },
            forall|id: u128| #[trigger] new_last@.contains_key(id) <==> has_id(new, id),
            forall|id: u128|
                #[trigger] new_last@.contains_key(id) ==> {
                    &&& new_last@[id] < new.len()
                    &&& new[new_last@[id] as int].id.0 == id
                    &&& is_last_with_id(new, new_last@[id] as int)
                },
            added@ == new_with_class(old, new, 0, j as int),
            modified@ == new_with_class(old, new, 1, j as int),
            unchanged_count == new_with_class(old, new, 2, j as int).len(),
            unchanged_count <= j,
        decreases new.len() - j,
    {
        let id = new_symbols[j].id.0;
        proof {
            assert(new_last@.contains_key(id)) by {
                assert(new[j as int].id.0 == id);
            }
            let k = new_last@[id] as int;
            if k != j {
                if k < j {
                    assert(new[j as int].id.0 == new[k].id.0);
                } else {
                    assert(new[k].id.0 == new[j as int].id.0);
                }
            }
            assert(is_last_with_id(new, j as int) <==> k == j);
        }
        let last_j = *new_last.get(&id).unwrap();
        if last_j == j {
            match old_last.get(&id) {
                None => {
                    added.push(new_symbols[j].duplicate());
                },
                Some(k) => {
                    proof {
                        lemma_last_hash(old, *k as int);
                    }
                    if new_symbols[j].body_hash != old_symbols[*k].body_hash {
                        modified.push(new_symbols[j].duplicate());
                    } else {
                        unchanged_count = unchanged_count + 1;
                    }
                },
            }
        }
        j = j + 1;
    }
    let mut removed: Vec<SymbolId> = Vec::new();
    let mut i: usize = 0;
    while i < old_symbols.len()
        invariant
            old == old_symbols@,
            new == new_symbols@,
            i <= old.len(),
            forall|id: u128| #[trigger] old_last@.contains_key(id) <==> has_id(old, id),
            forall|id: u128|
                #[trigger] old_last@.contains_key(id) ==> {
                    &&& old_last@[id] < old.len()
                    &&& old[old_last@[id] as int].id.0 == id
                    &&& is_last_with_id(old, old_last@[id] as int)
                },
            forall|id: u128| #[trigger] new_last@.contains_key(id) <==> has_id(new, id),
            removed@ == removed_ids(old, new, i as int),
        decreases old.len() - i,
    {
        let id = old_symbols[i].id.0;
        proof {
            assert(old_last@.contains_key(id)) by {
                assert(old[i as int].id.0 == id);
            }
            let k = old_last@[id] as int;
            if k != i {
                if k < i {
                    assert(old[i as int].id.0 == old[k].id.0);
                } else {
                    assert(old[k].id.0 == old[i as int].id.0);
                }
            }
        }
        let last_i = *old_last.get(&id).unwrap();
        if last_i == i && !new_last.contains_key(&id) {
            removed.push(old_symbols[i].id);
        }
        i = i + 1;
    }
    SymbolDiff { added, removed, modified, unchanged_count }
}

proof fn lemma_with_class_members(old: Seq<CodeSymbol>, new: Seq<CodeSymbol>, c: nat, n: int)
    requires
        0 <= n <= new.len(),
    ensures
        forall|i: int|
            0 <= i < new_with_class(old, new, c, n).len() ==> exists|j: int|
                0 <= j < n && new_class(old, new, j) == c && #[trigger] new_with_class(old, new, c, n)[i] == new[j],
        forall|j: int|
            0 <= j < n && new_class(old, new, j) == c ==> exists|i: int|
                0 <= i < new_with_class(old, new, c, n).len() && #[trigger] new_with_class(old, new, c, n)[i] == new[j],
    decreases n,
{
    if n > 0 {
        lemma_with_class_members(old, new, c, n - 1);
        let prev = new_with_class(old, new, c, n - 1);
        let cur = new_with_class(old, new, c, n);
        if new_class(old, new, n - 1) == c {
            assert forall|i: int| 0 <= i < cur.len() implies exists|j: int|
                0 <= j < n && new_class(old, new, j) == c && #[trigger] cur[i] == new[j] by {
                if i < prev.len() {
                    assert(cur[i] == prev[i]);
                } else {
                    assert(cur[i] == new[n - 1]);
                }
            }
            assert forall|j: int| 0 <= j < n && new_class(old, new, j) == c implies exists|i: int|
                0 <= i < cur.len() && #[trigger] cur[i] == new[j] by {
                if j < n - 1 {
                    let i = choose|i: int| 0 <= i < prev.len() && #[trigger] prev[i] == new[j];
                    assert(cur[i] == prev[i]);
                } else {
                    assert(cur[prev.len() as int] == new[j]);
                }
            }
        } else {
            assert(cur == prev);
            assert forall|i: int| 0 <= i < cur.len() implies exists|j: int|
                0 <= j < n && new_class(old, new, j) == c && #[trigger] cur[i] == new[j] by {
                assert(cur[i] == prev[i]);
                let j = choose|j: int| 0 <= j < n - 1 && new_class(old, new, j) == c && #[trigger] prev[i] == new[j];
            }
            assert forall|j: int| 0 <= j < n && new_class(old, new, j) == c implies exists|i: int|
                0 <= i < cur.len() && #[trigger] cur[i] == new[j] by {
                let i = choose|i: int| 0 <= i < prev.len() && #[trigger] prev[i] == new[j];
                assert(cur[i] == prev[i]);
            }
        }
    }
}

proof fn lemma_last_occurrence(syms: Seq<CodeSymbol>, id: u128)
    requires
        has_id(syms, id),
    ensures
        exists|j: int| 0 <= j < syms.len() && (#[trigger] syms[j]).id.0 == id && is_last_with_id(syms, j),
    decreases syms.len(),
{
    if syms.last().id.0 == id {
        let j = syms.len() - 1;
        assert(syms[j].id.0 == id && is_last_with_id(syms, j));
    } else {
        let d = syms.drop_last();
        let k = choose|k: int| 0 <= k < syms.len() && (#[trigger] syms[k]).id.0 == id;
        assert(d[k] == syms[k]);
        lemma_last_occurrence(d, id);
        let j = choose|j: int| 0 <= j < d.len() && (#[trigger] d[j]).id.0 == id && is_last_with_id(d, j);
        assert(syms[j] == d[j]);
        assert forall|m: int| j < m < syms.len() implies (#[trigger] syms[m]).id.0 != syms[j].id.0 by {
            if m < d.len() {
                assert(syms[m] == d[m]);
            }
        }
    }
}

/// The diff's classification by ID: an ID lands among the added symbols
/// exactly when only the new list has it, among the modified ones exactly
/// when both lists have it with different (last) body hashes, and among the
/// The number of the first `n` symbols that are the last with their ID.
pub open spec fn last_count(syms: Seq<CodeSymbol>, n: int) -> nat
    decreases n,
{
    if n <= 0 {
        0
    } else {
        last_count(syms, n - 1) + if is_last_with_id(syms, n - 1) { 1nat } else { 0nat }
    }
}

proof fn lemma_with_class_distinct(old: Seq<CodeSymbol>, new: Seq<CodeSymbol>, c: nat, n: int)
    requires
        0 <= n <= new.len(),
        c < 3,
    ensures
        forall|i1: int, i2: int|
            0 <= i1 < i2 < new_with_class(old, new, c, n).len() ==> (#[trigger] new_with_class(old, new, c, n)[i1]).id.0
                != (#[trigger] new_with_class(old, new, c, n)[i2]).id.0,
    decreases n,
{
    if n > 0 {
        lemma_with_class_distinct(old, new, c, n - 1);
        lemma_with_class_members(old, new, c, n - 1);
        let prev = new_with_class(old, new, c, n - 1);
        let cur = new_with_class(old, new, c, n);
        if new_class(old, new, n - 1) == c {
            assert forall|i1: int, i2: int| 0 <= i1 < i2 < cur.len() implies (#[trigger] cur[i1]).id.0 != (#[trigger] cur[i2]).id.0 by {
                assert(cur[i1] == prev[i1]);
                if i2 < prev.len() {
                    assert(cur[i2] == prev[i2]);
                } else {
                    assert(cur[i2] == new[n - 1]);
                    let j = choose|j: int| 0 <= j < n - 1 && new_class(old, new, j) == c && #[trigger] prev[i1] == new[j];
                    assert(is_last_with_id(new, j));
                    assert(new[n - 1].id.0 != new[j].id.0);
                }
            }
        }
    }
}

proof fn lemma_removed_distinct(old: Seq<CodeSymbol>, new: Seq<CodeSymbol>, n: int)
    requires
        0 <= n <= old.len(),
    ensures
        forall|i: int|
            0 <= i < removed_ids(old, new, n).len() ==> exists|j: int|
                0 <= j < n && is_last_with_id(old, j) && #[trigger] removed_ids(old, new, n)[i] == old[j].id,
        forall|i1: int, i2: int|
            0 <= i1 < i2 < removed_ids(old, new, n).len() ==> (#[trigger] removed_ids(old, new, n)[i1]).0
                != (#[trigger] removed_ids(old, new, n)[i2]).0,
    decreases n,
{
    if n > 0 {
        lemma_removed_distinct(old, new, n - 1);
        let prev = removed_ids(old, new, n - 1);
        let cur = removed_ids(old, new, n);
        if is_last_with_id(old, n - 1) && !has_id(new, old[n - 1].id.0) {
            assert forall|i: int| 0 <= i < cur.len() implies exists|j: int|
                0 <= j < n && is_last_with_id(old, j) && #[trigger] cur[i] == old[j].id by {
                if i < prev.len() {
                    assert(cur[i] == prev[i]);
                    let j = choose|j: int| 0 <= j < n - 1 && is_last_with_id(old, j) && #[trigger] prev[i] == old[j].id;
                    assert(cur[i] == old[j].id);
                } else {
                    assert(cur[i] == old[n - 1].id);
                }
            }
            assert forall|i1: int, i2: int| 0 <= i1 < i2 < cur.len() implies (#[trigger] cur[i1]).0 != (#[trigger] cur[i2]).0 by {
                assert(cur[i1] == prev[i1]);
                if i2 < prev.len() {
                    assert(cur[i2] == prev[i2]);
                } else {
                    let j = choose|j: int| 0 <= j < n - 1 && is_last_with_id(old, j) && #[trigger] prev[i1] == old[j].id;
                    assert(old[n - 1].id.0 != old[j].id.0);
                }
            }
        } else {
            assert(cur == prev);
        }
    }
}

proof fn lemma_class_counts(old: Seq<CodeSymbol>, new: Seq<CodeSymbol>, n: int)
    requires
        0 <= n <= new.len(),
    ensures
        new_with_class(old, new, 0, n).len() + new_with_class(old, new, 1, n).len() + new_with_class(old, new, 2, n).len()
            == last_count(new, n),
    decreases n,
{
    if n > 0 {
        lemma_class_counts(old, new, n - 1);
    }
}

/// A diff lists each ID at most once among the added, the modified and the
/// removed, and the added, the modified and the unchanged together count
/// each ID of the new symbols once.
pub proof fn lemma_diff_counts(old: Seq<CodeSymbol>, new: Seq<CodeSymbol>)
    ensures
        forall|i1: int, i2: int|
            0 <= i1 < i2 < new_with_class(old, new, 0, new.len() as int).len() ==> (#[trigger] new_with_class(
                old,
                new,
                0,
                new.len() as int,
            )[i1]).id.0 != (#[trigger] new_with_class(old, new, 0, new.len() as int)[i2]).id.0,
        forall|i1: int, i2: int|
            0 <= i1 < i2 < new_with_class(old, new, 1, new.len() as int).len() ==> (#[trigger] new_with_class(
                old,
                new,
                1,
                new.len() as int,
            )[i1]).id.0 != (#[trigger] new_with_class(old, new, 1, new.len() as int)[i2]).id.0,
        forall|i1: int, i2: int|
            0 <= i1 < i2 < removed_ids(old, new, old.len() as int).len() ==> (#[trigger] removed_ids(old, new, old.len() as int)[i1]).0
                != (#[trigger] removed_ids(old, new, old.len() as int)[i2]).0,
        new_with_class(old, new, 0, new.len() as int).len() + new_with_class(old, new, 1, new.len() as int).len()
            + new_with_class(old, new, 2, new.len() as int).len() == last_count(new, new.len() as int),
{
    lemma_with_class_distinct(old, new, 0, new.len() as int);
    lemma_with_class_distinct(old, new, 1, new.len() as int);
    lemma_removed_distinct(old, new, old.len() as int);
    lemma_class_counts(old, new, new.len() as int);
}

/// removed IDs exactly when only the old list has it.
pub proof fn lemma_diff_classification(old: Seq<CodeSymbol>, new: Seq<CodeSymbol>, id: u128)
    ensures
        (exists|i: int| 0 <= i < new_with_class(old, new, 0, new.len() as int).len()
            && (#[trigger] new_with_class(old, new, 0, new.len() as int)[i]).id.0 == id) <==> (has_id(new, id)
            && !has_id(old, id)),
        (exists|i: int| 0 <= i < new_with_class(old, new, 1, new.len() as int).len()
            && (#[trigger] new_with_class(old, new, 1, new.len() as int)[i]).id.0 == id) <==> (has_id(new, id)
            && has_id(old, id) && last_hash(new, id) != last_hash(old, id)),
        (exists|i: int| 0 <= i < removed_ids(old, new, old.len() as int).len()
            && (#[trigger] removed_ids(old, new, old.len() as int)[i]).0 == id) <==> (has_id(old, id) && !has_id(new, id)),
{
    let n = new.len() as int;
    lemma_with_class_members(old, new, 0, n);
    lemma_with_class_members(old, new, 1, n);
    let added = new_with_class(old, new, 0, n);
    let modified = new_with_class(old, new, 1, n);
    if exists|i: int| 0 <= i < added.len() && (#[trigger] added[i]).id.0 == id {
        let i = choose|i: int| 0 <= i < added.len() && (#[trigger] added[i]).id.0 == id;
        let j = choose|j: int| 0 <= j < n && new_class(old, new, j) == 0 && #[trigger] added[i] == new[j];
        assert(new[j].id.0 == id);
    }
    if has_id(new, id) && !has_id(old, id) {
        lemma_last_occurrence(new, id);
        let j = choose|j: int| 0 <= j < new.len() && (#[trigger] new[j]).id.0 == id && is_last_with_id(new, j);
        assert(new_class(old, new, j) == 0);
        let i = choose|i: int| 0 <= i < added.len() && #[trigger] added[i] == new[j];
        assert(added[i].id.0 == id);
    }
    if exists|i: int| 0 <= i < modified.len() && (#[trigger] modified[i]).id.0 == id {
        let i = choose|i: int| 0 <= i < modified.len() && (#[trigger] modified[i]).id.0 == id;
        let j = choose|j: int| 0 <= j < n && new_class(old, new, j) == 1 && #[trigger] modified[i] == new[j];
        assert(new[j].id.0 == id);
        lemma_last_hash(new, j);
        assert(has_id(new, id));
    }
    if has_id(new, id) && has_id(old, id) && last_hash(new, id) != last_hash(old, id) {
        lemma_last_occurrence(new, id);
        let j = choose|j: int| 0 <= j < new.len() && (#[trigger] new[j]).id.0 == id && is_last_with_id(new, j);
        lemma_last_hash(new, j);
        assert(new_class(old, new, j) == 1);
        let i = choose|i: int| 0 <= i < modified.len() && #[trigger] modified[i] == new[j];
        assert(modified[i].id.0 == id);
    }
    lemma_removed_members(old, new, old.len() as int);
    let removed = removed_ids(old, new, old.len() as int);
    if exists|i: int| 0 <= i < removed.len() && (#[trigger] removed[i]).0 == id {
        let i = choose|i: int| 0 <= i < removed.len() && (#[trigger] removed[i]).0 == id;
        let j = choose|j: int| 0 <= j < old.len() && is_last_with_id(old, j) && !has_id(new, old[j].id.0) && #[trigger] removed[i] == old[j].id;
        assert(old[j].id.0 == id);
    }
    if has_id(old, id) && !has_id(new, id) {
        lemma_last_occurrence(old, id);
        let j = choose|j: int| 0 <= j < old.len() && (#[trigger] old[j]).id.0 == id && is_last_with_id(old, j);
        let i = choose|i: int| 0 <= i < removed.len() && #[trigger] removed[i] == old[j].id;
        assert(removed[i].0 == id);
    }
}

/// Each removed ID is that of an old symbol standing for its ID that no new
/// symbol has.
proof fn lemma_removed_sound(old: Seq<CodeSymbol>, new: Seq<CodeSymbol>, n: int)
    requires
        0 <= n <= old.len(),
    ensures
        forall|i: int|
            0 <= i < removed_ids(old, new, n).len() ==> exists|j: int|
                0 <= j < n && is_last_with_id(old, j) && !has_id(new, old[j].id.0) && #[trigger] removed_ids(old, new, n)[i]
                    == old[j].id,
    decreases n,
{
    if n > 0 {
        lemma_removed_sound(old, new, n - 1);
        let prev = removed_ids(old, new, n - 1);
        let cur = removed_ids(old, new, n);
        assert forall|i: int| 0 <= i < cur.len() implies exists|j: int|
            0 <= j < n && is_last_with_id(old, j) && !has_id(new, old[j].id.0) && #[trigger] cur[i] == old[j].id by {
            if i < prev.len() {
                assert(cur[i] == prev[i]);
                let j = choose|j: int| 0 <= j < n - 1 && is_last_with_id(old, j) && !has_id(new, old[j].id.0) && #[trigger] prev[i] == old[j].id;
            } else {
                assert(cur[i] == old[n - 1].id);
            }
        }
    }
}

/// Each old symbol standing for an ID that no new symbol has gives a
/// removed ID.
proof fn lemma_removed_complete(old: Seq<CodeSymbol>, new: Seq<CodeSymbol>, n: int)
    requires
        0 <= n <= old.len(),
    ensures
        forall|j: int|
            0 <= j < n && is_last_with_id(old, j) && !has_id(new, old[j].id.0) ==> exists|i: int|
                0 <= i < removed_ids(old, new, n).len() && #[trigger] removed_ids(old, new, n)[i] == old[j].id,
    decreases n,
{
    if n > 0 {
        lemma_removed_complete(old, new, n - 1);
        let prev = removed_ids(old, new, n - 1);
        let cur = removed_ids(old, new, n);
        assert forall|j: int| 0 <= j < n && is_last_with_id(old, j) && !has_id(new, old[j].id.0) implies exists|i: int|
            0 <= i < cur.len() && #[trigger] cur[i] == old[j].id by {
            if j < n - 1 {
                let i = choose|i: int| 0 <= i < prev.len() && #[trigger] prev[i] == old[j].id;
                assert(cur[i] == prev[i]);
            } else {
                assert(cur[prev.len() as int] == old[j].id);
            }
        }
    }
}

proof fn lemma_removed_members(old: Seq<CodeSymbol>, new: Seq<CodeSymbol>, n: int)
    requires
        0 <= n <= old.len(),
    ensures
        forall|i: int|
            0 <= i < removed_ids(old, new, n).len() ==> exists|j: int|
                0 <= j < n && is_last_with_id(old, j) && !has_id(new, old[j].id.0) && #[trigger] removed_ids(old, new, n)[i]
                    == old[j].id,
        forall|j: int|
            0 <= j < n && is_last_with_id(old, j) && !has_id(new, old[j].id.0) ==> exists|i: int|
                0 <= i < removed_ids(old, new, n).len() && #[trigger] removed_ids(old, new, n)[i] == old[j].id,
{
    lemma_removed_sound(old, new, n);
    lemma_removed_complete(old, new, n);
}

/// Report for a single incremental file update.
#[derive(Debug)]
pub struct IncrementalReport {
    pub file_path: String,
    pub added: usize,
    pub removed: usize,
    pub modified: usize,
    pub unchanged: usize,
    pub skipped_unchanged_hash: bool,
}

impl IncrementalReport {
    /// The report for a file whose content hash matched the stored one.
    pub fn unchanged_hash(rel_path: &str) -> (r: IncrementalReport)
        ensures
            r.file_path@ == rel_path@,
            r.added == 0 && r.removed == 0 && r.modified == 0 && r.unchanged == 0,
            r.skipped_unchanged_hash,
    {
        IncrementalReport {
            file_path: str_to_string(rel_path),
            added: 0,
            removed: 0,
            modified: 0,
            unchanged: 0,
            skipped_unchanged_hash: true,
        }
    }

    /// The report for a file re-indexed with this symbol diff.
    pub fn from_diff(rel_path: &str, diff: &SymbolDiff) -> (r: IncrementalReport)
        ensures
            r.file_path@ == rel_path@,
            r.added == diff.added@.len(),
            r.removed == diff.removed@.len(),
            r.modified == diff.modified@.len(),
            r.unchanged == diff.unchanged_count,
            !r.skipped_unchanged_hash,
    {
        IncrementalReport {
            file_path: str_to_string(rel_path),
            added: diff.added.len(),
            removed: diff.removed.len(),
            modified: diff.modified.len(),
            unchanged: diff.unchanged_count,
            skipped_unchanged_hash: false,
        }
    }

    /// The report for a deleted file that held `removed` symbols.
    pub fn deleted(rel_path: &str, removed: usize) -> (r: IncrementalReport)
        ensures
            r.file_path@ == rel_path@,
            r.removed == removed,
            r.added == 0 && r.modified == 0 && r.unchanged == 0,
            !r.skipped_unchanged_hash,
    {
        IncrementalReport {
            file_path: str_to_string(rel_path),
            added: 0,
            removed,
            modified: 0,
            unchanged: 0,
            skipped_unchanged_hash: false,
        }
    }
}

/// What an incremental update does with a changed file.
#[derive(Debug, Clone, Copy, PartialEq, Eq, Structural)]
pub enum UpdateCheck {
    /// Its content hash matches the stored one: nothing to do.
    Unchanged,
    /// Re-parse it as this language.
    Reindex(Language),
}

/// The checks an incremental update makes on a file's content before
/// re-parsing, in order: an unchanged content hash skips the file; then a
/// file over 1 MB, binary content, or an extension naming no language fail
/// the update at the stage named in the error.
pub fn check_update(rel_path: &str, content: &[u8], stored_hash: Option<u64>) -> (r: Result<UpdateCheck, IndexerError>)
    ensures
        stored_hash matches Some(h) && xxh3_64_of(content@) == h ==> r matches Ok(UpdateCheck::Unchanged),
        !(stored_hash matches Some(h) && xxh3_64_of(content@) == h) ==> {
            if content@.len() > MAX_FILE_SIZE {
                r matches Err(IndexerError::PipelineFailed { stage, reason }) && stage@ == "incremental_size_check"@
                    && reason@ == "file too large: "@ + dec_chars(content@.len()) + " bytes"@
            } else if spec_is_binary(content@) {
                r matches Err(IndexerError::PipelineFailed { stage, reason }) && stage@ == "incremental_binary_check"@
                    && reason@ == "file is binary"@
            } else {
                match spec_extension_language(rel_path@) {
                    Some(l) => r matches Ok(UpdateCheck::Reindex(x)) && x == l,
                    None => r matches Err(IndexerError::PipelineFailed { stage, reason }) && stage@
                        == "incremental_language_check"@ && reason@ == "unsupported extension: "@ + match spec_path_extension(
                        rel_path@,
                    ) {
                        Some(e) => e,
                        None => Seq::<char>::empty(),
                    },
                }
            }
        },
{
    if let Some(h) = stored_hash {
        if !should_reindex(content, h) {
            return Ok(UpdateCheck::Unchanged);
        }
    }
    let file_size = content.len() as u64;
    if file_size > MAX_FILE_SIZE {
        let mut reason = str_to_string("file too large: ");
        push_decimal(&mut reason, content.len() as u128);
        string_push_str(&mut reason, " bytes");
        return Err(IndexerError::PipelineFailed { stage: str_to_string("incremental_size_check"), reason });
    }
    if is_binary(content) {
        return Err(
            IndexerError::PipelineFailed {
                stage: str_to_string("incremental_binary_check"),
                reason: str_to_string("file is binary"),
            },
        );
    }
    let ext = match path_extension(rel_path) {
        Some(e) => e,
        None => String::new(),
    };
    proof {
        reveal_strlit("");
        assert(""@ =~= Seq::<char>::empty());
    }
    match ParserRegistry::language_for_extension(ext.as_str()) {
        Some(l) => Ok(UpdateCheck::Reindex(l)),
        None => {
            let mut reason = str_to_string("unsupported extension: ");
            string_push_str(&mut reason, ext.as_str());
            Err(IndexerError::PipelineFailed { stage: str_to_string("incremental_language_check"), reason })
        },
    }
}

/// An event's path.
pub open spec fn event_path(e: ChangeEvent) -> Seq<char> {
    match e {
        ChangeEvent::Changed(p) => p@,
        ChangeEvent::Removed(p) => p@,
    }
}

/// An event as (is it a change rather than a removal, path).
pub open spec fn event_view(e: ChangeEvent) -> (bool, Seq<char>) {
    (e is Changed, event_path(e))
}

/// No later event names the same path, once `\` reads as `/`.
pub open spec fn is_latest_for_path(evs: Seq<ChangeEvent>, j: int) -> bool {
    forall|k: int|
        j < k < evs.len() ==> spec_forward_slashes(event_path(#[trigger] evs[k])) != spec_forward_slashes(
            event_path(evs[j]),
        )
}

/// Among the first `n` events, the latest one for each path, in order, with
/// its path in forward-slash form.
pub open spec fn latest_events(evs: Seq<ChangeEvent>, n: int) -> Seq<(bool, Seq<char>)>
    decreases n,
{
    if n <= 0 {
        Seq::empty()
    } else {
        let prev = latest_events(evs, n - 1);
        if is_latest_for_path(evs, n - 1) {
            prev.push((evs[n - 1] is Changed, spec_forward_slashes(event_path(evs[n - 1]))))
        } else {
            prev
        }
    }
}

/// Deduplicate change events: keep only the latest event per path (paths
/// compared in forward-slash form), each with its path in that form.
pub fn latest_event_per_path(events: &[ChangeEvent]) -> (r: Vec<ChangeEvent>)
    ensures
        r@.map_values(|e: ChangeEvent| event_view(e)) == latest_events(events@, events@.len() as int),
{
    let mut paths: Vec<String> = Vec::new();
    let mut i: usize = 0;
    while i < events.len()
        invariant
            i <= events@.len(),
            paths@.len() == i,
            forall|k: int| 0 <= k < i ==> (#[trigger] paths@[k])@ == spec_forward_slashes(event_path(events@[k])),
        decreases events@.len() - i,
    {
        let p = match &events[i] {
            ChangeEvent::Changed(p) => normalize_path(p.as_str()),
            ChangeEvent::Removed(p) => normalize_path(p.as_str()),
        };
        paths.push(p);
        i = i + 1;
    }
    let mut out: Vec<ChangeEvent> = Vec::new();
    let mut j: usize = 0;
    while j < events.len()
        invariant
            j <= events@.len(),
            paths@.len() == events@.len(),
            forall|k: int| 0 <= k < events@.len() ==> (#[trigger] paths@[k])@ == spec_forward_slashes(event_path(events@[k])),
            out@.map_values(|e: ChangeEvent| event_view(e)) == latest_events(events@, j as int),
        decreases events@.len() - j,
    {
        let mut later = false;
        let mut k: usize = j + 1;
        while k < events.len()
            invariant
                j < events@.len(),
                j + 1 <= k <= events@.len(),
                paths@.len() == events@.len(),
                forall|m: int| 0 <= m < events@.len() ==> (#[trigger] paths@[m])@ == spec_forward_slashes(event_path(events@[m])),
                !later ==> forall|m: int| j < m < k ==> spec_forward_slashes(event_path(#[trigger] events@[m])) != spec_forward_slashes(event_path(events@[j as int])),
                later ==> !is_latest_for_path(events@, j as int),
            decreases events@.len() - k,
        {
            if str_eq(paths[k].as_str(), paths[j].as_str()) {
                later = true;
            }
            k = k + 1;
        }
        let ghost before = out@.map_values(|e: ChangeEvent| event_view(e));
        if !later {
            let p = paths[j].clone();
            let ev = match &events[j] {
                ChangeEvent::Changed(_) => ChangeEvent::Changed(p),
                ChangeEvent::Removed(_) => ChangeEvent::Removed(p),
            };
            out.push(ev);
            assert(out@.map_values(|e: ChangeEvent| event_view(e)) =~= before.push(event_view(ev)));
        }
        j = j + 1;
    }
    out
}


/// The stored content hash of `path`: that of the last stored file with
/// this path, if any.
pub open spec fn stored_hash(db: Seq<(String, u64)>, path: Seq<char>) -> Option<u64>
    decreases db.len(),
{
    if db.len() == 0 {
        None
    } else if db.last().0@ == path {
        Some(db.last().1)
    } else {
        stored_hash(db.drop_last(), path)
    }
}

/// Some file on disk has this path.
pub open spec fn on_disk(disk: Seq<String>, path: Seq<char>) -> bool {
    exists|k: int| 0 <= k < disk.len() && (#[trigger] disk[k])@ == path
}

/// The stored paths no longer on disk, in stored order.
pub open spec fn deleted_paths(db: Seq<(String, u64)>, disk: Seq<String>) -> Seq<Seq<char>>
    decreases db.len(),
{
    if db.len() == 0 {
        Seq::empty()
    } else {
        let prev = deleted_paths(db.drop_last(), disk);
        if on_disk(disk, db.last().0@) {
            prev
        } else {
            prev.push(db.last().0@)
        }
    }
}

/// How an incremental run sees the files: the stored ones gone from disk,
/// and each file on disk, in order, with its stored content hash if it was
/// stored.
#[derive(Debug)]
pub struct IncrementalPlan {
    pub deleted: Vec<String>,
    pub on_disk: Vec<(String, Option<u64>)>,
}

fn lookup_stored(db: &[(String, u64)], path: &str) -> (r: Option<u64>)
    ensures
        r == stored_hash(db@, path@),
{
    let mut k: usize = db.len();
    assert(db@.take(k as int) =~= db@);
    while k > 0
        invariant
            k <= db@.len(),
            stored_hash(db@, path@) == stored_hash(db@.take(k as int), path@),
        decreases k,
    {
        let ghost t = db@.take(k as int);
        assert(t.drop_last() =~= db@.take(k - 1));
        assert(t.last() == db@[k - 1]);
        if str_same(db[k - 1].0.as_str(), path) {
            return Some(db[k - 1].1);
        }
        k = k - 1;
    }
    None
}

fn disk_has(disk: &[String], path: &str) -> (r: bool)
    ensures
        r == on_disk(disk@, path@),
{
    let mut k: usize = 0;
    while k < disk.len()
        invariant
            k <= disk@.len(),
            forall|j: int| 0 <= j < k ==> (#[trigger] disk@[j])@ != path@,
        decreases disk@.len() - k,
    {
        if str_same(disk[k].as_str(), path) {
            return true;
        }
        k = k + 1;
    }
    false
}

/// Sort the files of an incremental run: the stored paths that are no
/// longer on disk are deleted; each file on disk comes with the hash it
/// was stored with, if it was stored.
pub fn plan_incremental(disk: &[String], db: &[(String, u64)]) -> (r: IncrementalPlan)
    ensures
        r.deleted@.map_values(|p: String| p@) == deleted_paths(db@, disk@),
        r.on_disk@.len() == disk@.len(),
        forall|k: int| 0 <= k < disk@.len() ==> (#[trigger] r.on_disk@[k]).0@ == disk@[k]@ && r.on_disk@[k].1 == stored_hash(db@, disk@[k]@),
{
    let mut deleted: Vec<String> = Vec::new();
    let mut i: usize = 0;
    while i < db.len()
        invariant
            i <= db@.len(),
            deleted@.map_values(|p: String| p@) == deleted_paths(db@.take(i as int), disk@),
        decreases db@.len() - i,
    {
        let ghost t = db@.take(i + 1);
        proof {
            assert(t.drop_last() =~= db@.take(i as int));
            assert(t.last() == db@[i as int]);
        }
        if !disk_has(disk, db[i].0.as_str()) {
            let ghost before = deleted@;
            deleted.push(db[i].0.clone());
            assert(deleted@.map_values(|p: String| p@) =~= before.map_values(|p: String| p@).push(db@[i as int].0@));
        }
        i = i + 1;
    }
    assert(db@.take(i as int) =~= db@);
    let mut listed: Vec<(String, Option<u64>)> = Vec::new();
    let mut k: usize = 0;
    while k < disk.len()
        invariant
            k <= disk@.len(),
            listed@.len() == k,
            forall|j: int| 0 <= j < k ==> (#[trigger] listed@[j]).0@ == disk@[j]@ && listed@[j].1 == stored_hash(db@, disk@[j]@),
        decreases disk@.len() - k,
    {
        let h = lookup_stored(db, disk[k].as_str());
        listed.push((disk[k].clone(), h));
        k = k + 1;
    }
    IncrementalPlan { deleted, on_disk: listed }
}

/// What became of one file in an incremental run.
#[derive(Debug, Clone, Copy, PartialEq, Eq)]
pub enum IncrementalOutcome {
    /// On disk with the content hash it was stored with.
    Unchanged,
    /// New or changed, and indexed again.
    Indexed,
    /// Stored but gone from disk, and removed from the index.
    Deleted,
    /// Its update or removal failed.
    Failed,
}

/// Whether a stored file on disk is indexed again: its content's hash
/// differs from the stored one. A file that was not stored always is.
pub fn needs_reindex(stored_hash: Option<u64>, content: &[u8]) -> (r: bool)
    ensures
        r == match stored_hash {
            Some(h) => xxh3_64_of(content@) != h,
            None => true,
        },
{
    match stored_hash {
        Some(h) => crate::watcher::should_reindex(content, h),
        None => true,
    }
}

/// The counts of an incremental run, one per outcome.
pub struct IncrementalTally {
    pub files_unchanged: usize,
    pub files_indexed: usize,
    pub files_deleted: usize,
    pub files_failed: usize,
}

impl IncrementalTally {
    /// The number of files counted so far.
    pub open spec fn total(&self) -> int {
        self.files_unchanged + self.files_indexed + self.files_deleted + self.files_failed
    }

    /// No file counted yet.
    pub fn new() -> (r: IncrementalTally)
        ensures
            r.files_unchanged == 0,
            r.files_indexed == 0,
            r.files_deleted == 0,
            r.files_failed == 0,
    {
        IncrementalTally { files_unchanged: 0, files_indexed: 0, files_deleted: 0, files_failed: 0 }
    }

    /// Count one more file under its outcome (a count at the `usize` limit
    /// stays there); every other count stays.
    pub fn record(&mut self, outcome: IncrementalOutcome)
        ensures
            old(self).total() < usize::MAX ==> final(self).total() == old(self).total() + 1,
            final(self).files_unchanged == if outcome == IncrementalOutcome::Unchanged && old(self).files_unchanged < usize::MAX {
                old(self).files_unchanged + 1
            } else {
                old(self).files_unchanged as int
            },
            final(self).files_indexed == if outcome == IncrementalOutcome::Indexed && old(self).files_indexed < usize::MAX {
                old(self).files_indexed + 1
            } else {
                old(self).files_indexed as int
            },
            final(self).files_deleted == if outcome == IncrementalOutcome::Deleted && old(self).files_deleted < usize::MAX {
                old(self).files_deleted + 1
            } else {
                old(self).files_deleted as int
            },
            final(self).files_failed == if outcome == IncrementalOutcome::Failed && old(self).files_failed < usize::MAX {
                old(self).files_failed + 1
            } else {
                old(self).files_failed as int
            },
    {
        match outcome {
            IncrementalOutcome::Unchanged => self.files_unchanged = self.files_unchanged.saturating_add(1),
            IncrementalOutcome::Indexed => self.files_indexed = self.files_indexed.saturating_add(1),
            IncrementalOutcome::Deleted => self.files_deleted = self.files_deleted.saturating_add(1),
            IncrementalOutcome::Failed => self.files_failed = self.files_failed.saturating_add(1),
        }
    }
}

} // verus!
