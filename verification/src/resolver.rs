use vstd::prelude::*;
use crate::extract::opt_text;
use std::collections::{HashMap, HashSet};
use crate::language::str_eq;
use crate::relation::CodeRelation;
use crate::symbol::{spec_symbol_id, CodeSymbol, SymbolId};
use crate::text::{chars_of, string_push};

verus! {

broadcast use vstd::std_specs::hash::group_hash_axioms;

/// Priority tier of a phantom-ID match; earlier variants are better.
#[derive(Debug, Clone, Copy, PartialEq, Eq, PartialOrd, Ord, Hash, Structural)]
pub enum MatchTier {
    ExactQualifiedName,
    SuffixMatch,
    ExactName,
}

/// The priority of a tier (lower is better).
pub open spec fn tier_rank(t: MatchTier) -> nat {
    match t {
        MatchTier::ExactQualifiedName => 0,
        MatchTier::SuffixMatch => 1,
        MatchTier::ExactName => 2,
    }
}

fn rank_of(t: MatchTier) -> (r: u8)
    ensures
        r == tier_rank(t),
{
    match t {
        MatchTier::ExactQualifiedName => 0,
        MatchTier::SuffixMatch => 1,
        MatchTier::ExactName => 2,
    }
}

/// The parent directory of a path as `std::path::Path::parent` gives it,
/// rendered as text. It follows the path rules of the platform the crate is
/// built for (its separators and prefixes), so it is a function of the path
/// for a given build target.
pub uninterp spec fn path_parent_of(path: Seq<char>) -> Option<Seq<char>>;

/// Calls `std::path::Path::parent` on `path` and renders the parent as a
/// `String`. Claims that the result is the named parent of the path's chars,
/// that an empty path has none, and that a parent is a proper prefix of the
/// path (std documents it as the path without its final component); the
/// component rules themselves are not restated.
#[verifier::external_body]
fn path_parent(path: &str) -> (r: Option<String>)
    ensures
        match r {
            Some(p) => path_parent_of(path@) == Some(p@),
            None => path_parent_of(path@) is None,
        },
        path@.len() == 0 ==> r is None,
        r matches Some(p) ==> p@.len() < path@.len() && p@ == path@.take(p@.len() as int),
{
    std::path::Path::new(path).parent().map(|p| p.to_string_lossy().into_owned())
}

/// A candidate resolution for a phantom target ID.
#[derive(Debug, Clone)]
pub struct Candidate {
    pub real_id: SymbolId,
    pub file_path: String,
    pub tier: MatchTier,
}

/// What a candidate stands for: real ID, file path and tier.
pub type CandidateView = (u128, Seq<char>, MatchTier);

impl View for Candidate {
    type V = CandidateView;

    open spec fn view(&self) -> CandidateView {
        (self.real_id.0, self.file_path@, self.tier)
    }
}

/// The views of a sequence of candidates.
pub open spec fn views(v: Seq<Candidate>) -> Seq<CandidateView> {
    v.map_values(|c: Candidate| c@)
}

/// Lexicographic order of two char sequences (which, for UTF-8 text, is
/// also the byte order that `String` comparison uses).
pub open spec fn chars_lt(a: Seq<char>, b: Seq<char>) -> bool
    decreases a.len(),
{
    if a.len() == 0 {
        b.len() > 0
    } else if b.len() == 0 {
        false
    } else if a[0] != b[0] {
        (a[0] as u32) < (b[0] as u32)
    } else {
        chars_lt(a.drop_first(), b.drop_first())
    }
}

proof fn lemma_chars_lt_skip(a: Seq<char>, b: Seq<char>, i: int)
    requires
        0 <= i <= a.len(),
        i <= b.len(),
        a.take(i) == b.take(i),
    ensures
        chars_lt(a, b) == chars_lt(a.skip(i), b.skip(i)),
    decreases i,
{
    if i > 0 {
        assert(a[0] == a.take(i)[0]);
        assert(b[0] == b.take(i)[0]);
        assert(a.drop_first().take(i - 1) =~= a.take(i).drop_first());
        assert(b.drop_first().take(i - 1) =~= b.take(i).drop_first());
        lemma_chars_lt_skip(a.drop_first(), b.drop_first(), i - 1);
        assert(a.drop_first().skip(i - 1) =~= a.skip(i));
        assert(b.drop_first().skip(i - 1) =~= b.skip(i));
    } else {
        assert(a.skip(0) =~= a);
        assert(b.skip(0) =~= b);
    }
}

pub fn str_chars_lt(a: &Vec<char>, b: &Vec<char>) -> (r: bool)
    ensures
        r == chars_lt(a@, b@),
{
    let mut i: usize = 0;
    while i < a.len() && i < b.len() && a[i] == b[i]
        invariant
            i <= a@.len(),
            i <= b@.len(),
            a@.take(i as int) == b@.take(i as int),
        decreases a@.len() - i,
    {
        assert(a@.take(i + 1) =~= a@.take(i as int).push(a@[i as int]));
        assert(b@.take(i + 1) =~= b@.take(i as int).push(b@[i as int]));
        i = i + 1;
    }
    proof {
        lemma_chars_lt_skip(a@, b@, i as int);
    }
    if i < a.len() && i < b.len() {
        assert(a@.skip(i as int)[0] == a@[i as int]);
        assert(b@.skip(i as int)[0] == b@[i as int]);
        (a[i] as u32) < (b[i] as u32)
    } else {
        i == a.len() && i < b.len()
    }
}

/// The smallest tier rank among the candidates (3 when there are none).
pub open spec fn min_rank(cs: Seq<CandidateView>) -> nat
    decreases cs.len(),
{
    if cs.len() == 0 {
        3
    } else {
        let m = min_rank(cs.drop_last());
        let r = tier_rank(cs.last().2);
        if r < m { r } else { m }
    }
}

/// The indices below `n` of the candidates whose tier has rank `r`, in order.
pub open spec fn tier_indices(cs: Seq<CandidateView>, r: nat, n: int) -> Seq<int>
    decreases n,
{
    if n <= 0 {
        Seq::empty()
    } else {
        let prev = tier_indices(cs, r, n - 1);
        if tier_rank(cs[n - 1].2) == r { prev.push(n - 1) } else { prev }
    }
}

/// The first `n` of the indices `idx` whose candidate's directory is `dir`.
pub open spec fn same_dir_indices(cs: Seq<CandidateView>, idx: Seq<int>, dir: Seq<char>, n: int) -> Seq<int>
    decreases n,
{
    if n <= 0 {
        Seq::empty()
    } else {
        let prev = same_dir_indices(cs, idx, dir, n - 1);
        if path_parent_of(cs[idx[n - 1]].1) == Some(dir) { prev.push(idx[n - 1]) } else { prev }
    }
}

/// Among the first `n` indices of `idx`, the first whose candidate's path is
/// smallest.
pub open spec fn first_min_path(cs: Seq<CandidateView>, idx: Seq<int>, n: int) -> int
    decreases n,
{
    if n <= 1 {
        idx[0]
    } else {
        let b = first_min_path(cs, idx, n - 1);
        if chars_lt(cs[idx[n - 1]].1, cs[b].1) { idx[n - 1] } else { b }
    }
}

/// Which candidate wins: none for an empty list; the only one; else the only
/// one of the best tier; else the only one of that tier in the relation's
/// directory; else the first of that tier with the smallest path.
pub open spec fn spec_pick(cs: Seq<CandidateView>, dir: Option<Seq<char>>) -> Option<int> {
    if cs.len() == 0 {
        None
    } else if cs.len() == 1 {
        Some(0)
    } else {
        let best = tier_indices(cs, min_rank(cs), cs.len() as int);
        if best.len() == 1 {
            Some(best[0])
        } else {
            match dir {
                Some(d) if same_dir_indices(cs, best, d, best.len() as int).len() == 1 => Some(
                    same_dir_indices(cs, best, d, best.len() as int)[0],
                ),
                _ => Some(first_min_path(cs, best, best.len() as int)),
            }
        }
    }
}

proof fn lemma_min_rank_attained(cs: Seq<CandidateView>)
    requires
        cs.len() > 0,
    ensures
        exists|i: int| 0 <= i < cs.len() && tier_rank(#[trigger] cs[i].2) == min_rank(cs),
    decreases cs.len(),
{
    if cs.len() == 1 {
        assert(cs.drop_last().len() == 0);
        assert(min_rank(cs.drop_last()) == 3);
        assert(tier_rank(cs[0].2) == min_rank(cs));
    } else {
        lemma_min_rank_attained(cs.drop_last());
        let m = min_rank(cs.drop_last());
        if tier_rank(cs.last().2) < m {
            assert(tier_rank(cs[cs.len() - 1].2) == min_rank(cs));
        } else {
            let i = choose|i: int| 0 <= i < cs.drop_last().len() && tier_rank(#[trigger] cs.drop_last()[i].2) == m;
            assert(cs[i] == cs.drop_last()[i]);
        }
    }
}

proof fn lemma_tier_indices(cs: Seq<CandidateView>, r: nat, n: int)
    requires
        0 <= n <= cs.len(),
    ensures
        forall|k: int| 0 <= k < tier_indices(cs, r, n).len() ==> 0 <= #[trigger] tier_indices(cs, r, n)[k] < n,
        (exists|i: int| 0 <= i < n && tier_rank(#[trigger] cs[i].2) == r) ==> tier_indices(cs, r, n).len() > 0,
    decreases n,
{
    if n > 0 {
        lemma_tier_indices(cs, r, n - 1);
        let prev = tier_indices(cs, r, n - 1);
        assert forall|k: int| 0 <= k < prev.push(n - 1).len() implies 0 <= #[trigger] prev.push(n - 1)[k] < n by {
            if k < prev.len() {
                assert(prev.push(n - 1)[k] == prev[k]);
            }
        }
        if tier_rank(cs[n - 1].2) != r {
            if exists|i: int| 0 <= i < n && tier_rank(#[trigger] cs[i].2) == r {
                let i = choose|i: int| 0 <= i < n && tier_rank(#[trigger] cs[i].2) == r;
                assert(i < n - 1);
            }
        }
    }
}

proof fn lemma_same_dir_indices(cs: Seq<CandidateView>, idx: Seq<int>, dir: Seq<char>, n: int)
    requires
        0 <= n <= idx.len(),
        forall|k: int| 0 <= k < idx.len() ==> 0 <= #[trigger] idx[k] < cs.len(),
    ensures
        forall|k: int| 0 <= k < same_dir_indices(cs, idx, dir, n).len() ==> 0 <= #[trigger] same_dir_indices(cs, idx, dir, n)[k] < cs.len(),
    decreases n,
{
    if n > 0 {
        lemma_same_dir_indices(cs, idx, dir, n - 1);
        let prev = same_dir_indices(cs, idx, dir, n - 1);
        assert(0 <= idx[n - 1] < cs.len());
        assert forall|k: int| 0 <= k < prev.push(idx[n - 1]).len() implies 0 <= #[trigger] prev.push(idx[n - 1])[k] < cs.len() by {
            if k < prev.len() {
                assert(prev.push(idx[n - 1])[k] == prev[k]);
            }
        }
    }
}

proof fn lemma_first_min_path(cs: Seq<CandidateView>, idx: Seq<int>, n: int)
    requires
        1 <= n <= idx.len(),
        forall|k: int| 0 <= k < idx.len() ==> 0 <= #[trigger] idx[k] < cs.len(),
    ensures
        0 <= first_min_path(cs, idx, n) < cs.len(),
    decreases n,
{
    if n > 1 {
        lemma_first_min_path(cs, idx, n - 1);
    }
}


/// Pick the best candidate from a list, preferring, among equals of the best
/// tier, the only one in the relation's directory, and else the first with
/// the alphabetically smallest path.
pub fn pick_best<'a>(candidates: &'a [Candidate], relation_dir: Option<&str>) -> (r: Option<&'a Candidate>)
    ensures
        match spec_pick(views(candidates@), opt_text(relation_dir)) {
            None => r is None,
            Some(i) => 0 <= i < candidates@.len() && r == Some(&candidates@[i]),
        },
{
    let ghost cs = views(candidates@);
    let n = candidates.len();
    if n == 0 {
        return None;
    }
    if n == 1 {
        return Some(&candidates[0]);
    }
    let mut m: u8 = 3;
    let mut i: usize = 0;
    while i < n
        invariant
            n == candidates@.len(),
            cs == views(candidates@),
            i <= n,
            m == min_rank(cs.take(i as int)),
        decreases n - i,
    {
        assert(cs.take(i + 1).drop_last() =~= cs.take(i as int));
        let r = rank_of(candidates[i].tier);
        if r < m {
            m = r;
        }
        i = i + 1;
    }
    assert(cs.take(n as int) =~= cs);
    let mut best: Vec<usize> = Vec::new();
    i = 0;
    while i < n
        invariant
            n == candidates@.len(),
            cs == views(candidates@),
            i <= n,
            m == min_rank(cs),
            best@.map_values(|x: usize| x as int) == tier_indices(cs, m as nat, i as int),
        decreases n - i,
    {
        if rank_of(candidates[i].tier) == m {
            best.push(i);
        }
        i = i + 1;
        assert(best@.map_values(|x: usize| x as int) =~= tier_indices(cs, m as nat, i as int));
    }
    let ghost bs = tier_indices(cs, m as nat, n as int);
    proof {
        lemma_min_rank_attained(cs);
        lemma_tier_indices(cs, m as nat, n as int);
        assert(best@.len() == bs.len());
        assert forall|k: int| 0 <= k < best@.len() implies best@[k] == #[trigger] bs[k] by {
            assert(best@.map_values(|x: usize| x as int)[k] == best@[k] as int);
        }
    }
    if best.len() == 1 {
        return Some(&candidates[best[0]]);
    }
    if let Some(dir) = relation_dir {
        let mut same: Vec<usize> = Vec::new();
        let mut j: usize = 0;
        while j < best.len()
            invariant
                n == candidates@.len(),
                cs == views(candidates@),
                bs == tier_indices(cs, m as nat, n as int),
                best@.len() == bs.len(),
                forall|k: int| 0 <= k < best@.len() ==> best@[k] == #[trigger] bs[k],
                forall|k: int| 0 <= k < bs.len() ==> 0 <= #[trigger] bs[k] < n,
                j <= best@.len(),
                same@.map_values(|x: usize| x as int) == same_dir_indices(cs, bs, dir@, j as int),
            decreases best@.len() - j,
        {
            assert(bs[j as int] < n);
            let k = best[j];
            let parent = path_parent(candidates[k].file_path.as_str());
            let hit = match &parent {
                Some(p) => str_eq(p.as_str(), dir),
                None => false,
            };
            if hit {
                same.push(k);
            }
            j = j + 1;
            assert(same@.map_values(|x: usize| x as int) =~= same_dir_indices(cs, bs, dir@, j as int));
        }
        proof {
            lemma_same_dir_indices(cs, bs, dir@, bs.len() as int);
        }
        if same.len() == 1 {
            assert(same@.map_values(|x: usize| x as int)[0] == same@[0] as int);
            return Some(&candidates[same[0]]);
        }
    }
    assert(bs[0] < n);
    let mut b: usize = best[0];
    let mut b_path = chars_of(candidates[b].file_path.as_str());
    let mut j: usize = 1;
    while j < best.len()
        invariant
            n == candidates@.len(),
            cs == views(candidates@),
            bs == tier_indices(cs, m as nat, n as int),
            best@.len() == bs.len(),
            forall|k: int| 0 <= k < best@.len() ==> best@[k] == #[trigger] bs[k],
            forall|k: int| 0 <= k < bs.len() ==> 0 <= #[trigger] bs[k] < n,
            1 <= j <= best@.len(),
            b < n,
            b == first_min_path(cs, bs, j as int),
            b_path@ == cs[b as int].1,
        decreases best@.len() - j,
    {
        assert(bs[j as int] < n);
        let k = best[j];
        let k_path = chars_of(candidates[k].file_path.as_str());
        if str_chars_lt(&k_path, &b_path) {
            b = k;
            b_path = k_path;
        }
        j = j + 1;
    }
    Some(&candidates[b])
}

/// Lightweight reference to a symbol, as the phantom lookup reads it.
pub struct SymbolRef {
    pub id: SymbolId,
    pub name: String,
    pub qualified_name: String,
    pub file_path: String,
}

impl SymbolRef {
    /// The reference to a full symbol: its ID, names and file path.
    pub fn from_symbol(s: &CodeSymbol) -> (r: SymbolRef)
        ensures
            r.id == s.id,
            r.name@ == s.name@,
            r.qualified_name@ == s.qualified_name@,
            r.file_path@ == s.file_path@,
    {
        SymbolRef {
            id: s.id,
            name: s.name.clone(),
            qualified_name: s.qualified_name.clone(),
            file_path: s.file_path.clone(),
        }
    }
}

/// The phantom ID that the parser gives a cross-file reference to `name`.
pub open spec fn phantom_id(name: Seq<char>) -> u128 {
    spec_symbol_id(Seq::empty(), Seq::empty(), name, 0, 0)
}

/// The suffixes that follow the dots at positions below `n` in `qn`, in
/// order, leaving out empty ones and the one equal to the simple name.
pub open spec fn dot_suffixes(qn: Seq<char>, name: Seq<char>, n: int) -> Seq<Seq<char>>
    decreases n,
{
    if n <= 0 {
        Seq::empty()
    } else {
        let prev = dot_suffixes(qn, name, n - 1);
        let suffix = qn.subrange(n, qn.len() as int);
        if qn[n - 1] == '.' && suffix.len() > 0 && suffix != name {
            prev.push(suffix)
        } else {
            prev
        }
    }
}

/// Every dot of a qualified name files the suffix after it: each
/// non-empty suffix that follows a dot and differs from the simple name is
/// among the dot suffixes.
pub proof fn lemma_dot_suffixes_complete(qn: Seq<char>, name: Seq<char>, n: int, i: int)
    requires
        0 <= i < n <= qn.len(),
        qn[i] == '.',
        qn.subrange(i + 1, qn.len() as int).len() > 0,
        qn.subrange(i + 1, qn.len() as int) != name,
    ensures
        dot_suffixes(qn, name, n).contains(qn.subrange(i + 1, qn.len() as int)),
    decreases n,
{
    let prev = dot_suffixes(qn, name, n - 1);
    let cur = dot_suffixes(qn, name, n);
    if i == n - 1 {
        assert(cur[cur.len() - 1] == qn.subrange(i + 1, qn.len() as int));
    } else {
        lemma_dot_suffixes_complete(qn, name, n - 1, i);
        let j = choose|j: int| 0 <= j < prev.len() && prev[j] == qn.subrange(i + 1, qn.len() as int);
        assert(cur[j] == prev[j]);
    }
}

/// Nothing but dot suffixes is filed as one: each is the non-empty text
/// after some dot of the qualified name, other than the simple name, and
/// each dot gives at most one.
pub proof fn lemma_dot_suffixes_sound(qn: Seq<char>, name: Seq<char>, n: int)
    requires
        0 <= n <= qn.len(),
    ensures
        forall|x: int|
            0 <= x < dot_suffixes(qn, name, n).len() ==> exists|i: int|
                0 <= i < n && qn[i] == '.' && #[trigger] dot_suffixes(qn, name, n)[x] == qn.subrange(i + 1, qn.len() as int)
                    && qn.subrange(i + 1, qn.len() as int).len() > 0 && qn.subrange(i + 1, qn.len() as int) != name,
        forall|x: int, y: int|
            0 <= x < y < dot_suffixes(qn, name, n).len() ==> (#[trigger] dot_suffixes(qn, name, n)[x]).len()
                > (#[trigger] dot_suffixes(qn, name, n)[y]).len(),
    decreases n,
{
    if n > 0 {
        lemma_dot_suffixes_sound(qn, name, n - 1);
        let prev = dot_suffixes(qn, name, n - 1);
        let cur = dot_suffixes(qn, name, n);
        let suffix = qn.subrange(n, qn.len() as int);
        if qn[n - 1] == '.' && suffix.len() > 0 && suffix != name {
            assert forall|x: int| 0 <= x < cur.len() implies exists|i: int|
                0 <= i < n && qn[i] == '.' && #[trigger] cur[x] == qn.subrange(i + 1, qn.len() as int)
                    && qn.subrange(i + 1, qn.len() as int).len() > 0 && qn.subrange(i + 1, qn.len() as int) != name by {
                if x < prev.len() {
                    assert(cur[x] == prev[x]);
                    let i = choose|i: int|
                        0 <= i < n - 1 && qn[i] == '.' && #[trigger] prev[x] == qn.subrange(i + 1, qn.len() as int)
                            && qn.subrange(i + 1, qn.len() as int).len() > 0 && qn.subrange(i + 1, qn.len() as int) != name;
                    assert(cur[x] == qn.subrange(i + 1, qn.len() as int));
                } else {
                    assert(cur[x] == qn.subrange(n, qn.len() as int));
                }
            }
            assert forall|x: int, y: int| 0 <= x < y < cur.len() implies (#[trigger] cur[x]).len() > (#[trigger] cur[y]).len() by {
                assert(cur[x] == prev[x]);
                if y < prev.len() {
                    assert(cur[y] == prev[y]);
                } else {
                    let i = choose|i: int|
                        0 <= i < n - 1 && qn[i] == '.' && #[trigger] prev[x] == qn.subrange(i + 1, qn.len() as int)
                            && qn.subrange(i + 1, qn.len() as int).len() > 0 && qn.subrange(i + 1, qn.len() as int) != name;
                    assert(cur[y] == suffix);
                }
            }
        }
    }
}

/// An entry among a list is among the candidates filed under its key.
proof fn lemma_entry_filed(entries: Seq<(u128, CandidateView)>, j: int)
    requires
        0 <= j < entries.len(),
    ensures
        candidates_for(entries, entries[j].0).contains(entries[j].1),
    decreases entries.len(),
{
    let key = entries[j].0;
    let prev = candidates_for(entries.drop_last(), key);
    let cur = candidates_for(entries, key);
    if j == entries.len() - 1 {
        assert(cur[cur.len() - 1] == entries[j].1);
    } else {
        assert(entries.drop_last()[j] == entries[j]);
        lemma_entry_filed(entries.drop_last(), j);
        let k = choose|k: int| 0 <= k < prev.len() && prev[k] == entries[j].1;
        assert(cur[k] == prev[k]);
    }
}

/// The entries of a symbol are among those of any list that holds it.
proof fn lemma_symbol_entries_in(syms: Seq<SymbolRef>, j: int, k: int)
    requires
        0 <= j < syms.len(),
        0 <= k < symbol_entries(syms[j]).len(),
    ensures
        lookup_entries(syms).contains(symbol_entries(syms[j])[k]),
    decreases syms.len(),
{
    let d = syms.drop_last();
    let se = symbol_entries(syms.last());
    if j == syms.len() - 1 {
        assert(lookup_entries(syms)[lookup_entries(d).len() + k] == se[k]);
    } else {
        assert(d[j] == syms[j]);
        lemma_symbol_entries_in(d, j, k);
        let x = choose|x: int| 0 <= x < lookup_entries(d).len() && lookup_entries(d)[x] == symbol_entries(syms[j])[k];
        assert(lookup_entries(syms)[x] == lookup_entries(d)[x]);
    }
}

/// Every dot suffix is filed: in a phantom lookup built from a list of
/// symbols, each non-empty suffix after a dot of a symbol's qualified name
/// that differs from its simple name is a key, with that symbol among its
/// candidates as a suffix match.
pub proof fn lemma_every_dot_suffix_filed(m: Map<u128, Vec<Candidate>>, syms: Seq<SymbolRef>, j: int, i: int)
    requires
        lookup_holds(m, lookup_entries(syms)),
        0 <= j < syms.len(),
        0 <= i < syms[j].qualified_name@.len(),
        syms[j].qualified_name@[i] == '.',
        syms[j].qualified_name@.subrange(i + 1, syms[j].qualified_name@.len() as int).len() > 0,
        syms[j].qualified_name@.subrange(i + 1, syms[j].qualified_name@.len() as int) != syms[j].name@,
    ensures
        m.contains_key(phantom_id(syms[j].qualified_name@.subrange(i + 1, syms[j].qualified_name@.len() as int))),
        views(m[phantom_id(syms[j].qualified_name@.subrange(i + 1, syms[j].qualified_name@.len() as int))]@).contains(
            (syms[j].id.0, syms[j].file_path@, MatchTier::SuffixMatch),
        ),
{
    let sy = syms[j];
    let qn = sy.qualified_name@;
    let suf = qn.subrange(i + 1, qn.len() as int);
    let sufs = dot_suffixes(qn, sy.name@, qn.len() as int);
    lemma_dot_suffixes_complete(qn, sy.name@, qn.len() as int, i);
    let x = choose|x: int| 0 <= x < sufs.len() && sufs[x] == suf;
    let se = symbol_entries(sy);
    let entry = (phantom_id(suf), (sy.id.0, sy.file_path@, MatchTier::SuffixMatch));
    assert(suffix_entries(sufs, sy.id.0, sy.file_path@)[x] == entry);
    assert(se[1 + x] == entry);
    lemma_symbol_entries_in(syms, j, 1 + x);
    let entries = lookup_entries(syms);
    let y = choose|y: int| 0 <= y < entries.len() && entries[y] == entry;
    lemma_entry_filed(entries, y);
    assert(candidates_for(entries, phantom_id(suf)).len() > 0);
}

/// The lookup entries of a list of suffixes of one symbol.
pub open spec fn suffix_entries(sufs: Seq<Seq<char>>, id: u128, path: Seq<char>) -> Seq<(u128, CandidateView)> {
    sufs.map_values(|suf: Seq<char>| (phantom_id(suf), (id, path, MatchTier::SuffixMatch)))
}

/// The lookup entries one symbol contributes, in order: its qualified name,
/// the suffixes after each dot, and its simple name where that differs.
pub open spec fn symbol_entries(s: SymbolRef) -> Seq<(u128, CandidateView)> {
    let id = s.id.0;
    let path = s.file_path@;
    let qn = s.qualified_name@;
    let name = s.name@;
    seq![(phantom_id(qn), (id, path, MatchTier::ExactQualifiedName))] + suffix_entries(
        dot_suffixes(qn, name, qn.len() as int),
        id,
        path,
    ) + if name != qn {
        seq![(phantom_id(name), (id, path, MatchTier::ExactName))]
    } else {
        Seq::empty()
    }
}

/// All lookup entries of a list of symbols, in order.
pub open spec fn lookup_entries(syms: Seq<SymbolRef>) -> Seq<(u128, CandidateView)>
    decreases syms.len(),
{
    if syms.len() == 0 {
        Seq::empty()
    } else {
        lookup_entries(syms.drop_last()) + symbol_entries(syms.last())
    }
}

/// The candidates filed under `key`, in the order their entries came.
pub open spec fn candidates_for(entries: Seq<(u128, CandidateView)>, key: u128) -> Seq<CandidateView>
    decreases entries.len(),
{
    if entries.len() == 0 {
        Seq::empty()
    } else {
        let prev = candidates_for(entries.drop_last(), key);
        if entries.last().0 == key { prev.push(entries.last().1) } else { prev }
    }
}

/// The map files exactly the candidates of the entries, each key holding a
/// non-empty list.
pub open spec fn lookup_holds(m: Map<u128, Vec<Candidate>>, entries: Seq<(u128, CandidateView)>) -> bool {
    &&& forall|k: u128| #[trigger] m.contains_key(k) <==> candidates_for(entries, k).len() > 0
    &&& forall|k: u128| #[trigger] m.contains_key(k) ==> views(m[k]@) == candidates_for(entries, k)
}

fn add_entry(
    lookup: &mut HashMap<u128, Vec<Candidate>>,
    key: u128,
    cand: Candidate,
    Ghost(entries): Ghost<Seq<(u128, CandidateView)>>,
)
    requires
        lookup_holds(old(lookup)@, entries),
    ensures
        lookup_holds(final(lookup)@, entries.push((key, cand@))),
{
    let ghost cv = cand@;
    let mut list = match lookup.remove(&key) {
        Some(v) => v,
        None => Vec::new(),
    };
    let ghost before = list@;
    list.push(cand);
    assert(views(list@) =~= views(before).push(cv));
    lookup.insert(key, list);
    proof {
        let e2 = entries.push((key, cv));
        assert(e2.drop_last() =~= entries);
        assert forall|k: u128| #[trigger] lookup@.contains_key(k) <==> candidates_for(e2, k).len() > 0 by {
            if k != key {
                assert(old(lookup)@.contains_key(k) == lookup@.contains_key(k));
            }
        }
        assert forall|k: u128| #[trigger] lookup@.contains_key(k) implies views(lookup@[k]@) == candidates_for(e2, k) by {
            if k != key {
                assert(old(lookup)@.contains_key(k));
            } else if old(lookup)@.contains_key(key) {
            } else {
                assert(views(before) =~= Seq::<CandidateView>::empty());
            }
        }
    }
}

/// A `String` holding `cs[start..]`.
fn string_from_suffix(cs: &Vec<char>, start: usize) -> (r: String)
    requires
        start <= cs@.len(),
    ensures
        r@ == cs@.subrange(start as int, cs@.len() as int),
{
    let mut r = String::new();
    let mut i: usize = start;
    while i < cs.len()
        invariant
            start <= i <= cs@.len(),
            r@ == cs@.subrange(start as int, i as int),
        decreases cs@.len() - i,
    {
        string_push(&mut r, cs[i]);
        i = i + 1;
        assert(r@ =~= cs@.subrange(start as int, i as int));
    }
    r
}

fn phantom_of(name: &str) -> (r: u128)
    ensures
        r == phantom_id(name@),
{
    proof {
        reveal_strlit("");
    }
    assert(""@ =~= Seq::<char>::empty());
    SymbolId::generate("", "", name, 0, 0).0
}

/// Build the lookup from phantom IDs to the real symbols they may stand for:
/// each symbol is filed under its qualified name, under every suffix after a
/// dot in it, and under its simple name.
pub fn build_phantom_lookup(symbols: &[SymbolRef]) -> (r: HashMap<u128, Vec<Candidate>>)
    ensures
        lookup_holds(r@, lookup_entries(symbols@)),
{
    let mut lookup: HashMap<u128, Vec<Candidate>> = HashMap::new();
    let mut i: usize = 0;
    proof {
        assert(lookup_entries(symbols@.take(0)) =~= Seq::<(u128, CandidateView)>::empty());
    }
    while i < symbols.len()
        invariant
            i <= symbols@.len(),
            lookup_holds(lookup@, lookup_entries(symbols@.take(i as int))),
        decreases symbols@.len() - i,
    {
        let sym = &symbols[i];
        let ghost base = lookup_entries(symbols@.take(i as int));
        let ghost id = sym.id.0;
        let ghost path = sym.file_path@;
        let ghost qn = sym.qualified_name@;
        let ghost name = sym.name@;
        add_entry(
            &mut lookup,
            phantom_of(sym.qualified_name.as_str()),
            Candidate { real_id: sym.id, file_path: sym.file_path.clone(), tier: MatchTier::ExactQualifiedName },
            Ghost(base),
        );
        let ghost first = seq![(phantom_id(qn), (id, path, MatchTier::ExactQualifiedName))];
        assert(base.push((phantom_id(qn), (id, path, MatchTier::ExactQualifiedName))) =~= base + first);
        let qchars = chars_of(sym.qualified_name.as_str());
        let mut d: usize = 0;
        assert(suffix_entries(dot_suffixes(qn, name, 0), id, path) =~= Seq::<(u128, CandidateView)>::empty());
        assert(base + first =~= base + first + suffix_entries(dot_suffixes(qn, name, 0), id, path));
        while d < qchars.len()
            invariant
                qchars@ == qn,
                qn == sym.qualified_name@,
                name == sym.name@,
                path == sym.file_path@,
                id == sym.id.0,
                d <= qn.len(),
                lookup_holds(lookup@, base + first + suffix_entries(dot_suffixes(qn, name, d as int), id, path)),
            decreases qn.len() - d,
        {
            let ghost prev_sufs = dot_suffixes(qn, name, d as int);
            if qchars[d] == '.' {
                let suffix = string_from_suffix(&qchars, d + 1);
                if d + 1 < qchars.len() && !str_eq(suffix.as_str(), sym.name.as_str()) {
                    let ghost entries = base + first + suffix_entries(prev_sufs, id, path);
                    add_entry(
                        &mut lookup,
                        phantom_of(suffix.as_str()),
                        Candidate { real_id: sym.id, file_path: sym.file_path.clone(), tier: MatchTier::SuffixMatch },
                        Ghost(entries),
                    );
                    assert(suffix_entries(prev_sufs.push(suffix@), id, path) =~= suffix_entries(prev_sufs, id, path).push(
                        (phantom_id(suffix@), (id, path, MatchTier::SuffixMatch)),
                    ));
                    assert(entries.push((phantom_id(suffix@), (id, path, MatchTier::SuffixMatch))) =~= base + first
                        + suffix_entries(dot_suffixes(qn, name, d + 1), id, path));
                } else {
                    assert(dot_suffixes(qn, name, d + 1) == prev_sufs);
                }
            } else {
                assert(dot_suffixes(qn, name, d + 1) == prev_sufs);
            }
            d = d + 1;
        }
        let ghost mid = base + first + suffix_entries(dot_suffixes(qn, name, qn.len() as int), id, path);
        if !str_eq(sym.name.as_str(), sym.qualified_name.as_str()) {
            add_entry(
                &mut lookup,
                phantom_of(sym.name.as_str()),
                Candidate { real_id: sym.id, file_path: sym.file_path.clone(), tier: MatchTier::ExactName },
                Ghost(mid),
            );
            assert(mid.push((phantom_id(name), (id, path, MatchTier::ExactName))) =~= base + symbol_entries(symbols@[i as int]));
        } else {
            assert(mid =~= base + symbol_entries(symbols@[i as int]));
        }
        assert(symbols@.take(i + 1).drop_last() =~= symbols@.take(i as int));
        i = i + 1;
    }
    assert(symbols@.take(i as int) =~= symbols@);
    lookup
}

/// Statistics from a resolution pass.
#[derive(Debug)]
pub struct ResolutionStats {
    pub already_resolved: usize,
    pub resolved_by_qualified_name: usize,
    pub resolved_by_suffix: usize,
    pub resolved_by_name: usize,
    pub unresolved: usize,
    pub total: usize,
}

impl Default for ResolutionStats {
    fn default() -> (r: ResolutionStats)
        ensures
            r.already_resolved == 0,
            r.resolved_by_qualified_name == 0,
            r.resolved_by_suffix == 0,
            r.resolved_by_name == 0,
            r.unresolved == 0,
            r.total == 0,
    {
        ResolutionStats {
            already_resolved: 0,
            resolved_by_qualified_name: 0,
            resolved_by_suffix: 0,
            resolved_by_name: 0,
            unresolved: 0,
            total: 0,
        }
    }
}

/// What a resolution pass does with one relation.
pub enum Resolution {
    /// Its target is a known symbol already.
    AlreadyResolved,
    /// Its target becomes this real symbol, found at this tier.
    Resolved(u128, MatchTier),
    /// Nothing matches; it is left as it is.
    Unresolved,
}

/// The resolution of one relation against the known IDs and lookup entries.
pub open spec fn spec_resolution(
    rel: CodeRelation,
    known: Set<u128>,
    entries: Seq<(u128, CandidateView)>,
) -> Resolution {
    if known.contains(rel.target_id.0) {
        Resolution::AlreadyResolved
    } else {
        let cands = candidates_for(entries, rel.target_id.0);
        match spec_pick(cands, path_parent_of(rel.file_path@)) {
            Some(i) => Resolution::Resolved(cands[i].0, cands[i].2),
            None => Resolution::Unresolved,
        }
    }
}

/// The counter a resolution goes to: 0 already resolved, 1 to 3 resolved at
/// the tier of that rank plus one, 4 unresolved.
pub open spec fn resolution_class(r: Resolution) -> nat {
    match r {
        Resolution::AlreadyResolved => 0,
        Resolution::Resolved(_, t) => 1 + tier_rank(t),
        Resolution::Unresolved => 4,
    }
}

/// How many of the relations fall in class `c`.
pub open spec fn count_class(
    rels: Seq<CodeRelation>,
    known: Set<u128>,
    entries: Seq<(u128, CandidateView)>,
    c: nat,
) -> nat
    decreases rels.len(),
{
    if rels.len() == 0 {
        0
    } else {
        count_class(rels.drop_last(), known, entries, c) + if resolution_class(
            spec_resolution(rels.last(), known, entries),
        ) == c {
            1nat
        } else {
            0nat
        }
    }
}

/// The target a relation has after resolution.
pub open spec fn resolved_target(rel: CodeRelation, known: Set<u128>, entries: Seq<(u128, CandidateView)>) -> u128 {
    match spec_resolution(rel, known, entries) {
        Resolution::Resolved(id, _) => id,
        _ => rel.target_id.0,
    }
}

/// Resolve dangling cross-file references: each relation whose target is not
/// a known ID gets, where the phantom lookup of the symbols has a candidate
/// for it, the best candidate's real ID as its target; the others are left
/// as they are. Counts each outcome.
pub fn resolve_relations(
    relations: &mut [CodeRelation],
    symbols: &[SymbolRef],
    known_ids: &HashSet<u128>,
) -> (stats: ResolutionStats)
    ensures
        final(relations)@.len() == old(relations)@.len(),
        forall|i: int|
            0 <= i < old(relations)@.len() ==> {
                let before = #[trigger] old(relations)@[i];
                let after = final(relations)@[i];
                &&& after.source_id == before.source_id
                &&& after.kind == before.kind
                &&& after.file_path == before.file_path
                &&& after.line == before.line
                &&& after.target_id.0 == resolved_target(before, known_ids@, lookup_entries(symbols@))
            },
        stats.total == old(relations)@.len(),
        stats.already_resolved == count_class(old(relations)@, known_ids@, lookup_entries(symbols@), 0),
        stats.resolved_by_qualified_name == count_class(old(relations)@, known_ids@, lookup_entries(symbols@), 1),
        stats.resolved_by_suffix == count_class(old(relations)@, known_ids@, lookup_entries(symbols@), 2),
        stats.resolved_by_name == count_class(old(relations)@, known_ids@, lookup_entries(symbols@), 3),
        stats.unresolved == count_class(old(relations)@, known_ids@, lookup_entries(symbols@), 4),
        stats.already_resolved + stats.resolved_by_qualified_name + stats.resolved_by_suffix
            + stats.resolved_by_name + stats.unresolved == stats.total,
{
    let ghost entries = lookup_entries(symbols@);
    let ghost known = known_ids@;
    let ghost orig = relations@;
    let lookup = build_phantom_lookup(symbols);
    let mut stats = ResolutionStats {
        already_resolved: 0,
        resolved_by_qualified_name: 0,
        resolved_by_suffix: 0,
        resolved_by_name: 0,
        unresolved: 0,
        total: relations.len(),
    };
    let mut i: usize = 0;
    while i < relations.len()
        invariant
            entries == lookup_entries(symbols@),
            known == known_ids@,
            lookup_holds(lookup@, entries),
            relations@.len() == orig.len(),
            i <= orig.len(),
            stats.total == orig.len(),
            forall|j: int| i <= j < orig.len() ==> #[trigger] relations@[j] == orig[j],
            forall|j: int|
                0 <= j < i ==> {
                    let before = #[trigger] orig[j];
                    let after = relations@[j];
                    &&& after.source_id == before.source_id
                    &&& after.kind == before.kind
                    &&& after.file_path == before.file_path
                    &&& after.line == before.line
                    &&& after.target_id.0 == resolved_target(before, known, entries)
                },
            stats.already_resolved == count_class(orig.take(i as int), known, entries, 0),
            stats.resolved_by_qualified_name == count_class(orig.take(i as int), known, entries, 1),
            stats.resolved_by_suffix == count_class(orig.take(i as int), known, entries, 2),
            stats.resolved_by_name == count_class(orig.take(i as int), known, entries, 3),
            stats.unresolved == count_class(orig.take(i as int), known, entries, 4),
            stats.already_resolved + stats.resolved_by_qualified_name + stats.resolved_by_suffix
                + stats.resolved_by_name + stats.unresolved == i,
        decreases orig.len() - i,
    {
        let ghost rel = orig[i as int];
        proof {
            assert(orig.take(i + 1).drop_last() =~= orig.take(i as int));
            assert(orig.take(i + 1).last() == rel);
        }
        let target = relations[i].target_id.0;
        if known_ids.contains(&target) {
            stats.already_resolved = stats.already_resolved + 1;
        } else {
            let relation_dir = path_parent(relations[i].file_path.as_str());
            let dir_ref: Option<&str> = match &relation_dir {
                Some(d) => Some(d.as_str()),
                None => None,
            };
            assert(opt_text(dir_ref) == path_parent_of(rel.file_path@));
            match lookup.get(&target) {
                Some(cands) => {
                    assert(views(cands@) == candidates_for(entries, target));
                    match pick_best(cands.as_slice(), dir_ref) {
                        Some(best) => {
                            relations[i].target_id = best.real_id;
                            match best.tier {
                                MatchTier::ExactQualifiedName => {
                                    stats.resolved_by_qualified_name = stats.resolved_by_qualified_name + 1;
                                },
                                MatchTier::SuffixMatch => {
                                    stats.resolved_by_suffix = stats.resolved_by_suffix + 1;
                                },
                                MatchTier::ExactName => {
                                    stats.resolved_by_name = stats.resolved_by_name + 1;
                                },
                            }
                        },
                        None => {
                            stats.unresolved = stats.unresolved + 1;
                        },
                    }
                },
                None => {
                    assert(candidates_for(entries, target).len() == 0);
                    stats.unresolved = stats.unresolved + 1;
                },
            }
        }
        i = i + 1;
    }
    assert(orig.take(i as int) =~= orig);
    stats
}

proof fn lemma_spec_pick_in_range(cs: Seq<CandidateView>, dir: Option<Seq<char>>)
    ensures
        cs.len() > 0 ==> spec_pick(cs, dir) is Some,
        spec_pick(cs, dir) matches Some(i) ==> 0 <= i < cs.len(),
{
    if cs.len() > 1 {
        let n = cs.len() as int;
        let best = tier_indices(cs, min_rank(cs), n);
        lemma_min_rank_attained(cs);
        lemma_tier_indices(cs, min_rank(cs), n);
        assert(best.len() > 0);
        assert forall|k: int| 0 <= k < best.len() implies 0 <= #[trigger] best[k] < cs.len() by {}
        if best.len() != 1 {
            lemma_first_min_path(cs, best, best.len() as int);
            if let Some(d) = dir {
                lemma_same_dir_indices(cs, best, d, best.len() as int);
            }
        }
    }
}

proof fn lemma_entries_from_symbols(syms: Seq<SymbolRef>)
    ensures
        forall|e: int|
            0 <= e < lookup_entries(syms).len() ==> exists|k: int|
                0 <= k < syms.len() && (#[trigger] syms[k]).id.0 == (#[trigger] lookup_entries(syms)[e]).1.0,
    decreases syms.len(),
{
    if syms.len() > 0 {
        let d = syms.drop_last();
        lemma_entries_from_symbols(d);
        let prev = lookup_entries(d);
        let s = syms.last();
        let mine = symbol_entries(s);
        let all = lookup_entries(syms);
        assert(all == prev + mine);
        let sufs = dot_suffixes(s.qualified_name@, s.name@, s.qualified_name@.len() as int);
        assert forall|e: int| 0 <= e < all.len() implies exists|k: int|
            0 <= k < syms.len() && (#[trigger] syms[k]).id.0 == (#[trigger] all[e]).1.0 by {
            if e < prev.len() {
                assert(all[e] == prev[e]);
                let k = choose|k: int| 0 <= k < d.len() && (#[trigger] d[k]).id.0 == (#[trigger] prev[e]).1.0;
                assert(syms[k] == d[k]);
            } else {
                let m = e - prev.len();
                assert(all[e] == mine[m]);
                let first = seq![(phantom_id(s.qualified_name@), (s.id.0, s.file_path@, MatchTier::ExactQualifiedName))];
                let middle = suffix_entries(sufs, s.id.0, s.file_path@);
                if m < 1 {
                    assert(mine[m] == first[m]);
                } else if m < 1 + middle.len() {
                    assert(mine[m] == middle[m - 1]);
                } else {
                    assert(mine[m].1.0 == s.id.0);
                }
                assert(syms[syms.len() - 1] == s);
            }
        }
    }
}

proof fn lemma_candidates_from_entries(entries: Seq<(u128, CandidateView)>, key: u128)
    ensures
        forall|i: int|
            0 <= i < candidates_for(entries, key).len() ==> exists|e: int|
                0 <= e < entries.len() && (#[trigger] entries[e]).1 == #[trigger] candidates_for(entries, key)[i],
    decreases entries.len(),
{
    if entries.len() > 0 {
        let d = entries.drop_last();
        lemma_candidates_from_entries(d, key);
        let prev = candidates_for(d, key);
        let cur = candidates_for(entries, key);
        assert forall|i: int| 0 <= i < cur.len() implies exists|e: int|
            0 <= e < entries.len() && (#[trigger] entries[e]).1 == #[trigger] cur[i] by {
            if i < prev.len() {
                assert(cur[i] == prev[i]);
                let e = choose|e: int| 0 <= e < d.len() && (#[trigger] d[e]).1 == #[trigger] prev[i];
                assert(entries[e] == d[e]);
            } else {
                assert(cur[i] == entries.last().1);
                assert(entries[entries.len() - 1] == entries.last());
            }
        }
    }
}

/// Resolution never invents a target: after a pass, each relation's target
/// is either the one it had or the ID of one of the symbols.
pub proof fn lemma_resolution_targets_are_symbols(rel: CodeRelation, known: Set<u128>, syms: Seq<SymbolRef>)
    ensures
        ({
            let t = resolved_target(rel, known, lookup_entries(syms));
            t == rel.target_id.0 || exists|k: int| 0 <= k < syms.len() && (#[trigger] syms[k]).id.0 == t
        }),
{
    let entries = lookup_entries(syms);
    if !known.contains(rel.target_id.0) {
        let cands = candidates_for(entries, rel.target_id.0);
        let dir = path_parent_of(rel.file_path@);
        lemma_spec_pick_in_range(cands, dir);
        if let Some(i) = spec_pick(cands, dir) {
            lemma_candidates_from_entries(entries, rel.target_id.0);
            lemma_entries_from_symbols(syms);
            let e = choose|e: int| 0 <= e < entries.len() && (#[trigger] entries[e]).1 == #[trigger] cands[i];
            let k = choose|k: int| 0 <= k < syms.len() && (#[trigger] syms[k]).id.0 == (#[trigger] entries[e]).1.0;
            assert(syms[k].id.0 == resolved_target(rel, known, entries));
        }
    }
}

} // verus!
