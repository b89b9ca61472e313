use vstd::prelude::*;
use vstd::set_lib::{lemma_len_subset, set_int_range, lemma_int_range};
use vstd::seq_lib::seq_to_set_is_finite;
use crate::ranking::{has_id, is_best_entry, is_top_unique, taken_from, top_unique};
use crate::partition::{
    dedup_first, lemma_dedup_first, gathered, gathered_slots, probed_concat, result_len, stored_somewhere,
    lemma_distinct_cover, PartitionTable,
};

verus! {

/// The ids of a candidate list, in order.
pub open spec fn ids_of(c: Seq<(u32, usize)>) -> Seq<usize> {
    c.map_values(|e: (u32, usize)| e.1)
}

/// Number of distinct ids among the candidates.
pub open spec fn unique_count(c: Seq<(u32, usize)>) -> nat {
    dedup_first(ids_of(c)).len()
}

/// A best-first selection of `target` distinct ids keeps
/// `min(target, number of distinct ids)` entries.
pub proof fn lemma_top_unique_len(c: Seq<(u32, usize)>, r: Seq<(u32, usize)>, target: nat)
    requires
        is_top_unique(c, r, target),
    ensures
        r.len() == if target < unique_count(c) { target } else { unique_count(c) },
{
    broadcast use seq_to_set_is_finite;

    let d = dedup_first(ids_of(c));
    lemma_dedup_first(ids_of(c));
    let rs = ids_of(r);
    assert(rs.no_duplicates()) by {
        assert forall|a: int, b: int| 0 <= a < rs.len() && 0 <= b < rs.len() && a != b implies rs[a]
            != rs[b] by {
            if a < b {
                assert(r[a].1 != r[b].1);
            } else {
                assert(r[b].1 != r[a].1);
            }
        }
    }
    rs.unique_seq_to_set();
    d.unique_seq_to_set();
    assert(rs.to_set().subset_of(d.to_set())) by {
        assert forall|x: usize| rs.to_set().contains(x) implies d.to_set().contains(x) by {
            let i = choose|i: int| 0 <= i < rs.len() && rs[i] == x;
            assert(is_best_entry(c, r[i]));
            let j = choose|j: int| 0 <= j < c.len() && c[j] == r[i];
            assert(ids_of(c)[j] == x);
            assert(ids_of(c).contains(x));
            assert(d.contains(x));
        }
    }
    lemma_len_subset(rs.to_set(), d.to_set());
    if r.len() < target {
        assert(d.to_set().subset_of(rs.to_set())) by {
            assert forall|x: usize| d.to_set().contains(x) implies rs.to_set().contains(x) by {
                assert(d.contains(x));
                assert(ids_of(c).contains(x));
                let j = choose|j: int| 0 <= j < ids_of(c).len() && ids_of(c)[j] == x;
                assert(c[j].1 == x);
                assert(has_id(r, c[j].1));
                let i = choose|i: int| 0 <= i < r.len() && r[i].1 == x;
                assert(rs[i] == x);
            }
        }
        lemma_len_subset(d.to_set(), rs.to_set());
    }
}

proof fn lemma_dedup_first_distinct(s: Seq<usize>)
    requires
        s.no_duplicates(),
    ensures
        dedup_first(s) == s,
    decreases s.len(),
{
    if s.len() > 0 {
        let d = s.drop_last();
        assert(d.no_duplicates());
        lemma_dedup_first_distinct(d);
        assert(!d.contains(s.last())) by {
            if d.contains(s.last()) {
                let k = choose|k: int| 0 <= k < d.len() && d[k] == s.last();
                assert(s[k] == s[s.len() - 1]);
            }
        }
        assert(d.push(s.last()) =~= s);
    }
}

/// When no id occurs twice among the candidates (single assignment), the
/// merge deduplicates nothing: every candidate is a distinct id and
/// `min(target, candidates)` of them are kept.
pub proof fn lemma_distinct_candidates_merge(c: Seq<(u32, usize)>, r: Seq<(u32, usize)>, target: nat)
    requires
        ids_of(c).no_duplicates(),
        is_top_unique(c, r, target),
    ensures
        unique_count(c) == c.len(),
        r.len() == if target < c.len() { target } else { c.len() },
{
    lemma_dedup_first_distinct(ids_of(c));
    lemma_top_unique_len(c, r, target);
}

/// Merges the candidates collected from the probed partitions: keeps each
/// database id once, with its best key, best first, at most `target` of
/// them. Also returns where in `cands` each kept entry was taken from, and
/// how many distinct ids the candidates hold.
pub fn merge_candidates(cands: &Vec<(u32, usize)>, target: usize, n_vectors: usize) -> (r: (
    Vec<(u32, usize)>,
    Vec<usize>,
    usize,
))
    requires
        forall|j: int| 0 <= j < cands.len() ==> #[trigger] cands[j].1 < n_vectors,
    ensures
        is_top_unique(cands@, r.0@, target as nat),
        taken_from(cands@, r.0@, r.1@),
        forall|i: int| 0 <= i < r.0.len() ==> #[trigger] r.0[i].1 < n_vectors,
        r.2 == unique_count(cands@),
        r.2 <= cands.len(),
        ids_of(cands@).no_duplicates() ==> r.2 == cands.len(),
        r.0.len() == if target < r.2 { target } else { r.2 },
{
    let (kept, positions) = top_unique(cands, target, n_vectors);
    let mut seen: Vec<bool> = vec![false; n_vectors];
    let mut count: usize = 0;
    let mut j: usize = 0;
    let ghost ids = ids_of(cands@);
    proof {
        assert(ids.take(0) =~= Seq::<usize>::empty());
    }
    while j < cands.len()
        invariant
            ids == ids_of(cands@),
            j <= cands.len(),
            seen.len() == n_vectors,
            forall|j: int| 0 <= j < cands.len() ==> #[trigger] cands[j].1 < n_vectors,
            count == dedup_first(ids.take(j as int)).len(),
            count <= j,
            forall|v: usize| v < n_vectors ==> (seen@[v as int] <==> dedup_first(ids.take(j as int)).contains(v)),
        decreases cands.len() - j,
    {
        let id = cands[j].1;
        let ghost before = dedup_first(ids.take(j as int));
        proof {
            assert(ids.take(j + 1).drop_last() =~= ids.take(j as int));
            assert(ids.take(j + 1).last() == id);
            lemma_dedup_first(ids.take(j as int));
        }
        if !seen[id] {
            seen.set(id, true);
            count += 1;
            proof {
                assert forall|v: usize| v < n_vectors implies (seen@[v as int] <==> dedup_first(ids.take(j + 1)).contains(v)) by {
                    assert(dedup_first(ids.take(j + 1)) == before.push(id));
                    if v != id {
                        if before.push(id).contains(v) {
                            let k = choose|k: int| 0 <= k < before.push(id).len() && before.push(id)[k] == v;
                            assert(before[k] == v);
                        }
                        if before.contains(v) {
                            let k = choose|k: int| 0 <= k < before.len() && before[k] == v;
                            assert(before.push(id)[k] == v);
                        }
                    } else {
                        assert(before.push(id)[before.len() as int] == v);
                    }
                }
            }
        }
        j += 1;
    }
    proof {
        assert(ids.take(cands.len() as int) =~= ids);
        lemma_top_unique_len(cands@, kept@, target as nat);
        if ids.no_duplicates() {
            lemma_dedup_first_distinct(ids);
        }
    }
    (kept, positions, count)
}

/// The merge step of a routed search, with its diagnostics: merges the
/// candidates gathered from the probed partitions (keeping `target` of
/// them, see `merge_candidates`) and reports the scanned entry count it was
/// given, how many candidates were gathered, how many distinct ids they
/// hold, and how many were kept.
pub fn finish_search(
    cands: &Vec<(u32, usize)>,
    raw_partition_entries: usize,
    target: usize,
    n_vectors: usize,
) -> (r: (Vec<(u32, usize)>, Vec<usize>, SearchStats))
    requires
        forall|j: int| 0 <= j < cands.len() ==> #[trigger] cands[j].1 < n_vectors,
    ensures
        is_top_unique(cands@, r.0@, target as nat),
        taken_from(cands@, r.0@, r.1@),
        forall|i: int| 0 <= i < r.0.len() ==> #[trigger] r.0[i].1 < n_vectors,
        r.2.raw_partition_entries == raw_partition_entries,
        r.2.tq_results_collected == cands.len(),
        r.2.unique_ids == unique_count(cands@),
        r.2.unique_ids <= r.2.tq_results_collected,
        r.2.rerank_k == r.0.len(),
        r.2.rerank_k == if target < r.2.unique_ids { target } else { r.2.unique_ids },
{
    let (kept, positions, unique_ids) = merge_candidates(cands, target, n_vectors);
    let stats = SearchStats {
        raw_partition_entries,
        tq_results_collected: cands.len(),
        unique_ids,
        rerank_k: kept.len(),
    };
    (kept, positions, stats)
}

/// The candidates gathered from the first `upto` probed partitions, in
/// probe order: `local_ids[i]` and `keys[i]` are the scorer's results for
/// partition `probes[i]`.
pub open spec fn probed_candidates(
    members: Seq<Seq<usize>>,
    probes: Seq<usize>,
    local_ids: Seq<Vec<i64>>,
    keys: Seq<Vec<u32>>,
    upto: int,
) -> Seq<(u32, usize)>
    decreases upto,
{
    if upto <= 0 {
        Seq::empty()
    } else {
        probed_candidates(members, probes, local_ids, keys, upto - 1) + gathered(
            members[probes[upto - 1] as int],
            local_ids[upto - 1]@,
            keys[upto - 1]@,
            result_len(local_ids[upto - 1]@, keys[upto - 1]@),
        )
    }
}

/// Every scorer result list is no longer than its partition.
pub open spec fn results_fit(members: Seq<Seq<usize>>, probes: Seq<usize>, local_ids: Seq<Vec<i64>>) -> bool {
    forall|i: int| 0 <= i < probes.len() ==> (#[trigger] local_ids[i]@).len() <= members[probes[i] as int].len()
}

/// The candidate step of a routed search: gathers the scorer's results for
/// the probed partitions into candidates (see `PartitionTable::
/// gather_candidates`), merges them (see `finish_search`) and reports the
/// statistics. Returns the kept candidates, the position of each among the
/// gathered candidates, and the origin of every gathered candidate: the
/// index of its probe and its slot in that probe's result lists.
pub fn routed_candidates(
    table: &PartitionTable,
    probes: &Vec<usize>,
    local_ids: &Vec<Vec<i64>>,
    keys: &Vec<Vec<u32>>,
    target: usize,
) -> (r: (Vec<(u32, usize)>, Vec<usize>, Vec<(usize, usize)>, SearchStats))
    requires
        table.inv(),
        probes@.no_duplicates(),
        forall|i: int| 0 <= i < probes.len() ==> #[trigger] probes[i] < table.spec_members().len(),
        local_ids.len() == probes.len(),
        keys.len() == probes.len(),
        forall|i: int, j: int|
            0 <= i < probes.len() && 0 <= j < local_ids[i]@.len() && j < keys[i]@.len() ==> #[trigger] local_ids[i]@[j]
                < table.spec_members()[probes[i] as int].len(),
    ensures
        ({
            let m = table.spec_members();
            let cands = probed_candidates(m, probes@, local_ids@, keys@, probes.len() as int);
            &&& is_top_unique(cands, r.0@, target as nat)
            &&& taken_from(cands, r.0@, r.1@)
            &&& forall|i: int| 0 <= i < r.0.len() ==> #[trigger] r.0[i].1 < table.spec_n_vectors()
            &&& r.2.len() == cands.len()
            &&& forall|f: int| 0 <= f < r.2.len() ==> {
                let (i, j) = #[trigger] r.2@[f];
                &&& i < probes.len()
                &&& j < result_len(local_ids[i as int]@, keys[i as int]@)
                &&& local_ids[i as int]@[j as int] >= 0
                &&& cands[f] == (keys[i as int]@[j as int], m[probes[i as int] as int][local_ids[i as int]@[j as int] as int])
            }
            &&& r.3.raw_partition_entries == probed_concat(m, probes@).len()
            &&& r.3.raw_partition_entries <= table.spec_total_stored()
            &&& r.3.tq_results_collected == cands.len()
            &&& r.3.unique_ids == unique_count(cands)
            &&& r.3.unique_ids <= r.3.tq_results_collected
            &&& results_fit(m, probes@, local_ids@) ==> r.3.tq_results_collected <= r.3.raw_partition_entries
            &&& r.3.rerank_k == r.0.len()
            &&& r.3.rerank_k == if target < r.3.unique_ids { target } else { r.3.unique_ids }
        }),
{
    let ghost m = table.spec_members();
    let ghost L = local_ids@;
    let ghost K = keys@;
    let mut cands: Vec<(u32, usize)> = Vec::new();
    let mut origins: Vec<(usize, usize)> = Vec::new();
    let mut i: usize = 0;
    proof {
        assert(probes@.take(0) =~= Seq::<usize>::empty());
    }
    while i < probes.len()
        invariant
            m == table.spec_members(),
            L == local_ids@,
            K == keys@,
            table.inv(),
            i <= probes.len(),
            local_ids.len() == probes.len(),
            keys.len() == probes.len(),
            forall|i: int| 0 <= i < probes.len() ==> #[trigger] probes[i] < m.len(),
            forall|i: int, j: int|
                0 <= i < probes.len() && 0 <= j < local_ids[i]@.len() && j < keys[i]@.len() ==> #[trigger] local_ids[i]@[j]
                    < m[probes[i] as int].len(),
            cands@ == probed_candidates(m, probes@, L, K, i as int),
            origins.len() == cands.len(),
            forall|f: int| 0 <= f < origins.len() ==> {
                let (a, b) = #[trigger] origins@[f];
                &&& a < i
                &&& b < result_len(L[a as int]@, K[a as int]@)
                &&& L[a as int]@[b as int] >= 0
                &&& cands@[f] == (K[a as int]@[b as int], m[probes[a as int] as int][L[a as int]@[b as int] as int])
            },
            forall|f: int| 0 <= f < cands.len() ==> #[trigger] cands@[f].1 < table.spec_n_vectors(),
            (forall|a: int| 0 <= a < i ==> (#[trigger] L[a]@).len() <= m[probes[a] as int].len()) ==> cands.len()
                <= probed_concat(m, probes@.take(i as int)).len(),
        decreases probes.len() - i,
    {
        let pid = probes[i];
        let ghost before = cands@;
        let ghost before_o = origins@;
        let mut slots: Vec<usize> = Vec::new();
        proof {
            assert forall|j: int|
                0 <= j < local_ids[i as int]@.len() && j < keys[i as int]@.len() implies #[trigger] local_ids[i as int]@[j]
                    < m[pid as int].len() by {
                assert(local_ids[i as int]@[j] < m[probes[i as int] as int].len());
            }
        }
        table.gather_candidates(pid, &local_ids[i], &keys[i], &mut cands, &mut slots);
        let ghost g = gathered(m[pid as int], L[i as int]@, K[i as int]@, result_len(L[i as int]@, K[i as int]@));
        proof {
            let gs = gathered_slots(L[i as int]@, result_len(L[i as int]@, K[i as int]@));
            assert(slots@ =~= gs);
            assert forall|k: int| 0 <= k < slots.len() implies #[trigger] slots@[k] < result_len(L[i as int]@, K[i as int]@)
                && g[k] == (K[i as int]@[slots@[k] as int], m[pid as int][L[i as int]@[slots@[k] as int] as int])
                && L[i as int]@[slots@[k] as int] >= 0 by {
                assert(slots@[k] == gs[k]);
            }
        }
        let mut s: usize = 0;
        while s < slots.len()
            invariant
                m == table.spec_members(),
                L == local_ids@,
                K == keys@,
                i < probes.len(),
                pid == probes[i as int],
                cands@ == before + g,
                origins@.len() == before.len() + s,
                s <= slots.len(),
                slots.len() == g.len(),
                forall|k: int| 0 <= k < slots.len() ==> #[trigger] slots@[k] < result_len(L[i as int]@, K[i as int]@)
                    && g[k] == (K[i as int]@[slots@[k] as int], m[pid as int][L[i as int]@[slots@[k] as int] as int])
                    && L[i as int]@[slots@[k] as int] >= 0,
                forall|f: int| 0 <= f < before.len() ==> #[trigger] origins@[f] == before_o[f],
                forall|f: int| 0 <= f < s ==> #[trigger] origins@[before.len() + f] == (i, slots@[f]),
            decreases slots.len() - s,
        {
            origins.push((i, slots[s]));
            s += 1;
        }
        proof {
            assert(probes@.take(i + 1).drop_last() =~= probes@.take(i as int));
            assert(probes@.take(i + 1).last() == pid);
            assert forall|f: int| 0 <= f < origins.len() implies {
                let (a, b) = #[trigger] origins@[f];
                &&& a < i + 1
                &&& b < result_len(L[a as int]@, K[a as int]@)
                &&& L[a as int]@[b as int] >= 0
                &&& cands@[f] == (K[a as int]@[b as int], m[probes[a as int] as int][L[a as int]@[b as int] as int])
            } by {
                if f < before.len() {
                    assert(origins@[f] == before_o[f]);
                    assert(cands@[f] == before[f]);
                } else {
                    let k = f - before.len();
                    assert(origins@[before.len() + k] == (i, slots@[k]));
                    assert(cands@[f] == g[k]);
                }
            }
        }
        i += 1;
    }
    proof {
        assert(probes@.take(probes.len() as int) =~= probes@);
    }
    let raw = table.probed_entries(probes);
    let n = table.n_vectors();
    let (kept, positions, stats) = finish_search(&cands, raw, target, n);
    (kept, positions, origins, stats)
}

/// Each id paired with its key.
pub open spec fn keyed(keys: Seq<u32>, ids: Seq<usize>) -> Seq<(u32, usize)> {
    Seq::new(ids.len(), |i: int| (keys[i], ids[i]))
}

/// Ranks distinct ids by key, best first, keeping the `k` best (ties to
/// the earlier position); also returns each kept entry's position. Used to
/// rank candidates by exact similarity, and to pre-rank them by a partial
/// one.
pub fn rank_distinct(ids: &Vec<usize>, keys: &Vec<u32>, k: usize, n_vectors: usize) -> (r: (
    Vec<(u32, usize)>,
    Vec<usize>,
))
    requires
        keys.len() == ids.len(),
        ids@.no_duplicates(),
        forall|i: int| 0 <= i < ids.len() ==> #[trigger] ids[i] < n_vectors,
    ensures
        is_top_unique(keyed(keys@, ids@), r.0@, k as nat),
        taken_from(keyed(keys@, ids@), r.0@, r.1@),
        r.0.len() == if k < ids.len() { k as int } else { ids.len() as int },
{
    let mut pairs: Vec<(u32, usize)> = Vec::with_capacity(ids.len());
    let mut i: usize = 0;
    while i < ids.len()
        invariant
            keys.len() == ids.len(),
            i <= ids.len(),
            pairs@ == keyed(keys@, ids@).take(i as int),
        decreases ids.len() - i,
    {
        pairs.push((keys[i], ids[i]));
        i += 1;
        proof {
            assert(pairs@ =~= keyed(keys@, ids@).take(i as int));
        }
    }
    proof {
        assert(pairs@ =~= keyed(keys@, ids@));
        assert(ids_of(pairs@) =~= ids@);
    }
    let (kept, positions, _) = merge_candidates(&pairs, k, n_vectors);
    (kept, positions)
}

/// Pre-ranking keeps the budget in full: the number of candidates scored in
/// full is `min(candidates, max_candidates)` when a budget is set and all of
/// them otherwise, whenever pre-ranking is possible (prefix dimensions
/// configured) or no budget is set.
pub proof fn lemma_scored_count(n_cands: nat, max_candidates: nat, prefix_dims: nat, scored: nat)
    requires
        prefix_dims > 0 || max_candidates == 0,
        ({
            let budget = if max_candidates > 0 { max_candidates } else { n_cands };
            scored == if n_cands > budget && prefix_dims > 0 {
                if budget < n_cands { budget } else { n_cands }
            } else {
                n_cands
            }
        }),
    ensures
        scored == if max_candidates > 0 {
            if n_cands < max_candidates { n_cands } else { max_candidates }
        } else {
            n_cands
        },
{
}

/// How many candidates each probed partition contributes: the rerank budget
/// when reranking is on, otherwise `k`.
pub fn collect_count(rerank_top: usize, k: usize) -> (r: usize)
    ensures
        r == if rerank_top > 0 { rerank_top } else { k },
{
    if rerank_top > 0 {
        rerank_top
    } else {
        k
    }
}

/// Whether the candidates are pre-ranked on a prefix of the dimensions, and
/// to how many: when a budget is set (otherwise every candidate fits), the
/// candidates exceed it, and prefix dimensions are configured.
pub fn prerank_budget(n_cands: usize, max_candidates: usize, prefix_dims: usize) -> (r: Option<usize>)
    ensures
        ({
            let budget = if max_candidates > 0 { max_candidates } else { n_cands };
            r == if n_cands > budget && prefix_dims > 0 { Some(budget) } else { None::<usize> }
        }),
{
    let budget = if max_candidates > 0 {
        max_candidates
    } else {
        n_cands
    };
    if n_cands > budget && prefix_dims > 0 {
        Some(budget)
    } else {
        None
    }
}

/// Diagnostic counts from a single routed search.
#[derive(Debug, Clone, Copy)]
pub struct SearchStats {
    /// Total vector entries in probed partitions (actual scan volume).
    pub raw_partition_entries: usize,
    /// Results returned by the per-partition scoring.
    pub tq_results_collected: usize,
    /// Distinct database ids among those results.
    pub unique_ids: usize,
    /// Candidates kept for the final ranking.
    pub rerank_k: usize,
}

impl Default for SearchStats {
    fn default() -> (r: Self)
        ensures
            r.raw_partition_entries == 0,
            r.tq_results_collected == 0,
            r.unique_ids == 0,
            r.rerank_k == 0,
    {
        SearchStats { raw_partition_entries: 0, tq_results_collected: 0, unique_ids: 0, rerank_k: 0 }
    }
}

/// Diagnostic counts from a single search over membership lists.
#[derive(Debug, Clone, Copy)]
pub struct V2SearchStats {
    /// Distinct candidates collected from the probed partitions.
    pub unique_candidates: usize,
    /// Candidates scored in full.
    pub candidates_scored: usize,
}

impl Default for V2SearchStats {
    fn default() -> (r: Self)
        ensures
            r.unique_candidates == 0,
            r.candidates_scored == 0,
    {
        V2SearchStats { unique_candidates: 0, candidates_scored: 0 }
    }
}

} // verus!
