use vstd::prelude::*;

verus! {

/// Configuration for the indexing pipeline.
pub struct IndexConfig {
    /// Repository identifier for SymbolId generation.
    pub repo_id: String,
    /// Batch size for SQLite bulk inserts (default: 1000).
    pub batch_size: usize,
}

impl Default for IndexConfig {
    fn default() -> (r: IndexConfig)
        ensures
            r.repo_id@ == Seq::<char>::empty(),
            r.batch_size == 1000,
    {
        IndexConfig { repo_id: String::new(), batch_size: 1000 }
    }
}

/// Reason why a file was skipped during indexing.
#[derive(Debug, Clone, Copy, PartialEq, Eq, Hash, Structural)]
pub enum SkipReason {
    TooLarge,
    Binary,
    UnsupportedLanguage,
    Ignored,
}

/// The sum of the counts of a list of (reason, count) pairs.
pub open spec fn sum_counts(s: Seq<(SkipReason, usize)>) -> nat
    decreases s.len(),
{
    if s.len() == 0 {
        0
    } else {
        sum_counts(s.drop_last()) + s.last().1 as nat
    }
}

/// The count filed under `reason` (0 when there is none).
pub open spec fn count_for(s: Seq<(SkipReason, usize)>, reason: SkipReason) -> nat
    decreases s.len(),
{
    if s.len() == 0 {
        0
    } else if s.last().0 == reason {
        s.last().1 as nat
    } else {
        count_for(s.drop_last(), reason)
    }
}

/// Each reason is filed at most once.
pub open spec fn distinct_reasons(s: Seq<(SkipReason, usize)>) -> bool {
    forall|i: int, j: int| 0 <= i < j < s.len() ==> s[i].0 != s[j].0
}

/// Report generated after a full indexing run.
#[derive(Debug)]
pub struct IndexReport {
    pub total_files_scanned: usize,
    pub files_indexed: usize,
    /// Skipped files counted per reason, each reason at most once.
    pub files_skipped: Vec<(SkipReason, usize)>,
    pub files_failed: usize,
    pub failed_details: Vec<(String, String)>,
    pub total_symbols: usize,
    pub total_relations: usize,
    pub duration: std::time::Duration,
}

proof fn lemma_sum_split(s: Seq<(SkipReason, usize)>, i: int)
    requires
        0 <= i < s.len(),
    ensures
        sum_counts(s) == sum_counts(s.take(i)) + s[i].1 + sum_counts(s.skip(i + 1)),
    decreases s.len(),
{
    if i == s.len() - 1 {
        assert(s.drop_last() =~= s.take(i));
        assert(s.skip(i + 1) =~= Seq::<(SkipReason, usize)>::empty());
    } else {
        lemma_sum_split(s.drop_last(), i);
        assert(s.drop_last().take(i) =~= s.take(i));
        assert(s.skip(i + 1).drop_last() =~= s.drop_last().skip(i + 1));
        assert(s.skip(i + 1).last() == s.last());
    }
}

impl IndexReport {
    /// Total number of skipped files, over all reasons.
    pub fn total_skipped(&self) -> (r: usize)
        requires
            sum_counts(self.files_skipped@) <= usize::MAX,
        ensures
            r == sum_counts(self.files_skipped@),
    {
        let mut total: usize = 0;
        let mut i: usize = 0;
        while i < self.files_skipped.len()
            invariant
                i <= self.files_skipped@.len(),
                total == sum_counts(self.files_skipped@.take(i as int)),
                sum_counts(self.files_skipped@) <= usize::MAX,
            decreases self.files_skipped@.len() - i,
        {
            proof {
                let s = self.files_skipped@;
                assert(s.take(i + 1).drop_last() =~= s.take(i as int));
                lemma_sum_split(s, i as int);
                assert(s.take(i + 1) =~= s.take(i as int).push(s[i as int]));
            }
            total = total + self.files_skipped[i].1;
            i = i + 1;
        }
        assert(self.files_skipped@.take(i as int) =~= self.files_skipped@);
        total
    }

    /// The number of files skipped for this reason.
    pub fn skipped(&self, reason: SkipReason) -> (r: usize)
        ensures
            r == count_for(self.files_skipped@, reason),
    {
        let mut i: usize = self.files_skipped.len();
        assert(self.files_skipped@.take(i as int) =~= self.files_skipped@);
        while i > 0
            invariant
                i <= self.files_skipped@.len(),
                count_for(self.files_skipped@, reason) == count_for(self.files_skipped@.take(i as int), reason),
            decreases i,
        {
            let ghost t = self.files_skipped@.take(i as int);
            assert(t.drop_last() =~= self.files_skipped@.take(i - 1));
            if self.files_skipped[i - 1].0 == reason {
                return self.files_skipped[i - 1].1;
            }
            i = i - 1;
        }
        0
    }
}

proof fn lemma_count_for_at(s: Seq<(SkipReason, usize)>, i: int)
    requires
        distinct_reasons(s),
        0 <= i < s.len(),
    ensures
        count_for(s, s[i].0) == s[i].1,
    decreases s.len(),
{
    if i < s.len() - 1 {
        assert(s.drop_last()[i] == s[i]);
        lemma_count_for_at(s.drop_last(), i);
    }
}

proof fn lemma_count_for_absent(s: Seq<(SkipReason, usize)>, r: SkipReason)
    requires
        forall|j: int| 0 <= j < s.len() ==> s[j].0 != r,
    ensures
        count_for(s, r) == 0,
    decreases s.len(),
{
    if s.len() > 0 {
        assert forall|j: int| 0 <= j < s.drop_last().len() implies s.drop_last()[j].0 != r by {
            assert(s.drop_last()[j] == s[j]);
        }
        lemma_count_for_absent(s.drop_last(), r);
    }
}

/// Count one more file skipped for `reason` in a per-reason tally.
pub fn record_skip_in(skips: &mut Vec<(SkipReason, usize)>, reason: SkipReason)
    requires
        distinct_reasons(old(skips)@),
        count_for(old(skips)@, reason) < usize::MAX,
    ensures
        distinct_reasons(final(skips)@),
        count_for(final(skips)@, reason) == count_for(old(skips)@, reason) + 1,
        forall|r: SkipReason| r != reason ==> count_for(final(skips)@, r) == count_for(old(skips)@, r),
        sum_counts(final(skips)@) == sum_counts(old(skips)@) + 1,
{
    let ghost s = skips@;
    let mut i: usize = 0;
    while i < skips.len()
        invariant
            s == skips@,
            s == old(skips)@,
            *skips == *old(skips),
            distinct_reasons(s),
            count_for(s, reason) < usize::MAX,
            i <= s.len(),
            forall|j: int| 0 <= j < i ==> s[j].0 != reason,
        decreases s.len() - i,
    {
        if skips[i].0 == reason {
            proof {
                lemma_count_for_at(s, i as int);
            }
            let c = skips[i].1;
            skips.set(i, (reason, c + 1));
            proof {
                let t = skips@;
                assert(t == s.update(i as int, (reason, (c + 1) as usize)));
                assert(distinct_reasons(t)) by {
                    assert forall|a: int, b: int| 0 <= a < b < t.len() implies t[a].0 != t[b].0 by {
                        assert(s[a].0 != s[b].0);
                    }
                }
                lemma_count_for_at(t, i as int);
                assert forall|r: SkipReason| r != reason implies count_for(t, r) == count_for(s, r) by {
                    if exists|j: int| 0 <= j < s.len() && s[j].0 == r {
                        let j = choose|j: int| 0 <= j < s.len() && s[j].0 == r;
                        lemma_count_for_at(s, j);
                        lemma_count_for_at(t, j);
                    } else {
                        lemma_count_for_absent(s, r);
                        assert forall|j: int| 0 <= j < t.len() implies t[j].0 != r by {
                            if j != i {
                                assert(t[j] == s[j]);
                            }
                        }
                        lemma_count_for_absent(t, r);
                    }
                }
                lemma_sum_split(s, i as int);
                lemma_sum_split(t, i as int);
                assert(t.take(i as int) =~= s.take(i as int));
                assert(t.skip(i + 1) =~= s.skip(i + 1));
            }
            return;
        }
        i = i + 1;
    }
    proof {
        lemma_count_for_absent(s, reason);
    }
    skips.push((reason, 1));
    proof {
        let t = skips@;
        assert(t.drop_last() =~= s);
        assert(distinct_reasons(t)) by {
            assert forall|a: int, b: int| 0 <= a < b < t.len() implies t[a].0 != t[b].0 by {
                if b < s.len() {
                    assert(s[a].0 != s[b].0);
                }
            }
        }
    }
}

impl IndexReport {
    /// Count one more file skipped for `reason`.
    pub fn record_skip(&mut self, reason: SkipReason)
        requires
            distinct_reasons(old(self).files_skipped@),
            count_for(old(self).files_skipped@, reason) < usize::MAX,
        ensures
            distinct_reasons(final(self).files_skipped@),
            count_for(final(self).files_skipped@, reason) == count_for(old(self).files_skipped@, reason) + 1,
            forall|r: SkipReason| r != reason ==> count_for(final(self).files_skipped@, r) == count_for(old(self).files_skipped@, r),
            sum_counts(final(self).files_skipped@) == sum_counts(old(self).files_skipped@) + 1,
            final(self).total_files_scanned == old(self).total_files_scanned,
            final(self).files_indexed == old(self).files_indexed,
            final(self).files_failed == old(self).files_failed,
            final(self).failed_details == old(self).failed_details,
            final(self).total_symbols == old(self).total_symbols,
            final(self).total_relations == old(self).total_relations,
            final(self).duration == old(self).duration,
    {
        record_skip_in(&mut self.files_skipped, reason);
    }
}

} // verus!
