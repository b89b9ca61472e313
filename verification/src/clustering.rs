use vstd::prelude::*;
use rand::rngs::StdRng;
use crate::order_key::NEG_INFINITY_KEY;
use crate::rng::index_below;

verus! {

/// `c` is the centroid a point is assigned to given its similarity keys:
/// the first centroid with the highest key, provided that key beats
/// negative infinity; otherwise centroid 0.
pub open spec fn is_nearest(keys: Seq<u32>, c: int) -> bool {
    if forall|j: int| 0 <= j < keys.len() ==> #[trigger] keys[j] <= NEG_INFINITY_KEY {
        c == 0
    } else {
        &&& 0 <= c < keys.len()
        &&& keys[c] > NEG_INFINITY_KEY
        &&& forall|j: int| 0 <= j < keys.len() ==> #[trigger] keys[j] <= keys[c]
        &&& forall|j: int| 0 <= j < c ==> #[trigger] keys[j] < keys[c]
    }
}

/// The chosen centroid is always a valid centroid, and with a single
/// centroid every point goes to it.
pub proof fn lemma_nearest_in_range(keys: Seq<u32>, c: int)
    requires
        keys.len() >= 1,
        is_nearest(keys, c),
    ensures
        0 <= c < keys.len(),
        keys.len() == 1 ==> c == 0,
{
}

/// The nearest centroid for one point: scans the centroids in order and
/// moves to a centroid only when its key is strictly higher than the best so
/// far (which starts at negative infinity).
pub fn nearest_centroid(keys: &Vec<u32>) -> (c: u32)
    requires
        keys.len() <= u32::MAX,
    ensures
        is_nearest(keys@, c as int),
{
    let mut best_c: u32 = 0;
    let mut best_key: u32 = NEG_INFINITY_KEY;
    let mut c: usize = 0;
    while c < keys.len()
        invariant
            c <= keys.len(),
            keys.len() <= u32::MAX,
            best_key == NEG_INFINITY_KEY ==> best_c == 0 && forall|j: int|
                0 <= j < c ==> #[trigger] keys@[j] <= NEG_INFINITY_KEY,
            best_key != NEG_INFINITY_KEY ==> {
                &&& best_c < c
                &&& best_key == keys@[best_c as int]
                &&& best_key > NEG_INFINITY_KEY
                &&& forall|j: int| 0 <= j < c ==> #[trigger] keys@[j] <= best_key
                &&& forall|j: int| 0 <= j < best_c ==> #[trigger] keys@[j] < best_key
            },
        decreases keys.len() - c,
    {
        if keys[c] > best_key {
            best_key = keys[c];
            best_c = c as u32;
        }
        c += 1;
    }
    best_c
}

/// One assignment pass of k-means: every point moves to its nearest
/// centroid; returns whether any assignment changed.
pub fn assign_step(sim_keys: &Vec<Vec<u32>>, assignments: &mut Vec<u32>) -> (changed: bool)
    requires
        old(assignments).len() == sim_keys.len(),
        forall|i: int| 0 <= i < sim_keys.len() ==> (#[trigger] sim_keys[i]).len() <= u32::MAX,
    ensures
        final(assignments).len() == old(assignments).len(),
        forall|i: int| 0 <= i < sim_keys.len() ==> is_nearest(#[trigger] sim_keys[i]@, final(assignments)@[i] as int),
        changed <==> exists|i: int| 0 <= i < sim_keys.len() && #[trigger] old(assignments)@[i] != final(assignments)@[i],
        forall|i: int| 0 <= i < sim_keys.len() && sim_keys[i].len() >= 1 ==> (#[trigger] final(assignments)@[i] as int)
            < sim_keys[i].len(),
{
    let ghost start = assignments@;
    let mut changed = false;
    let mut i: usize = 0;
    while i < sim_keys.len()
        invariant
            start == old(assignments)@,
            i <= sim_keys.len(),
            assignments.len() == sim_keys.len(),
            forall|i: int| 0 <= i < sim_keys.len() ==> (#[trigger] sim_keys[i]).len() <= u32::MAX,
            forall|j: int| 0 <= j < i ==> is_nearest(#[trigger] sim_keys[j]@, assignments@[j] as int),
            forall|j: int| i <= j < sim_keys.len() ==> #[trigger] assignments@[j] == start[j],
            changed <==> exists|j: int| 0 <= j < i && #[trigger] start[j] != assignments@[j],
        decreases sim_keys.len() - i,
    {
        let best = nearest_centroid(&sim_keys[i]);
        if assignments[i] != best {
            assignments.set(i, best);
            changed = true;
        }
        proof {
            if !changed {
                assert forall|j: int| 0 <= j < i + 1 implies start[j] == #[trigger] assignments@[j] by {}
            } else {
                if start[i as int] == assignments@[i as int] {
                    let w = choose|j: int| 0 <= j < i && #[trigger] start[j] != assignments@[j];
                    assert(start[w] != assignments@[w]);
                } else {
                    assert(start[i as int] != assignments@[i as int]);
                }
            }
        }
        i += 1;
    }
    proof {
        assert forall|i: int| 0 <= i < sim_keys.len() && sim_keys[i].len() >= 1 implies (#[trigger] assignments@[i] as int)
            < sim_keys[i].len() by {
            lemma_nearest_in_range(sim_keys[i]@, assignments@[i] as int);
        }
    }
    changed
}

/// The argument checks of k-means: at least one point, one dimension and
/// one cluster, and a buffer of exactly `n * dim` values.
pub fn kmeans_args_ok(n: usize, dim: usize, k: usize, len: usize) -> (ok: bool)
    ensures
        ok == (n > 0 && dim > 0 && k > 0 && len == n * dim),
{
    if n == 0 || dim == 0 || k == 0 {
        return false;
    }
    match n.checked_mul(dim) {
        Some(total) => total == len,
        None => false,
    }
}

/// How many entries of `s` equal `c`.
pub open spec fn count_of(s: Seq<u32>, c: int) -> nat
    decreases s.len(),
{
    if s.len() == 0 {
        0
    } else {
        count_of(s.drop_last(), c) + if s.last() as int == c { 1nat } else { 0nat }
    }
}

/// Sum of a sequence of counts.
pub open spec fn sum_counts(s: Seq<usize>) -> nat
    decreases s.len(),
{
    if s.len() == 0 {
        0
    } else {
        sum_counts(s.drop_last()) + s.last() as nat
    }
}

proof fn lemma_sum_counts_update(s: Seq<usize>, c: int, x: usize)
    requires
        0 <= c < s.len(),
    ensures
        sum_counts(s.update(c, x)) == sum_counts(s) - s[c] + x,
    decreases s.len(),
{
    if c == s.len() - 1 {
        assert(s.update(c, x).drop_last() =~= s.drop_last());
    } else {
        lemma_sum_counts_update(s.drop_last(), c, x);
        assert(s.update(c, x).drop_last() =~= s.drop_last().update(c, x));
    }
}

proof fn lemma_sum_counts_zero(s: Seq<usize>)
    requires
        forall|c: int| 0 <= c < s.len() ==> #[trigger] s[c] == 0,
    ensures
        sum_counts(s) == 0,
    decreases s.len(),
{
    if s.len() > 0 {
        lemma_sum_counts_zero(s.drop_last());
    }
}

/// The size of every cluster; the sizes add up to the number of points.
pub fn cluster_sizes(assignments: &Vec<u32>, k: usize) -> (counts: Vec<usize>)
    requires
        forall|i: int| 0 <= i < assignments.len() ==> (#[trigger] assignments[i] as int) < k,
    ensures
        counts.len() == k,
        forall|c: int| 0 <= c < k ==> #[trigger] counts@[c] == count_of(assignments@, c),
        sum_counts(counts@) == assignments.len(),
{
    let mut counts: Vec<usize> = vec![0usize; k];
    proof {
        lemma_sum_counts_zero(counts@);
        assert(assignments@.take(0) =~= Seq::<u32>::empty());
    }
    let mut i: usize = 0;
    while i < assignments.len()
        invariant
            i <= assignments.len(),
            counts.len() == k,
            forall|i: int| 0 <= i < assignments.len() ==> (#[trigger] assignments[i] as int) < k,
            forall|c: int| 0 <= c < k ==> #[trigger] counts@[c] == count_of(assignments@.take(i as int), c),
            sum_counts(counts@) == i,
        decreases assignments.len() - i,
    {
        let c = assignments[i] as usize;
        proof {
            assert(assignments@.take(i + 1).drop_last() =~= assignments@.take(i as int));
            assert(count_of(assignments@.take(i as int), c as int) <= i) by {
                lemma_count_le_len(assignments@.take(i as int), c as int);
            }
            lemma_sum_counts_update(counts@, c as int, (counts@[c as int] + 1) as usize);
        }
        counts.set(c, counts[c] + 1);
        proof {
            assert forall|d: int| 0 <= d < k implies #[trigger] counts@[d] == count_of(assignments@.take(i + 1), d) by {
                assert(assignments@.take(i + 1).last() == assignments@[i as int]);
            }
        }
        i += 1;
    }
    proof {
        assert(assignments@.take(assignments.len() as int) =~= assignments@);
    }
    counts
}

proof fn lemma_count_le_len(s: Seq<u32>, c: int)
    ensures
        count_of(s, c) <= s.len(),
    decreases s.len(),
{
    if s.len() > 0 {
        lemma_count_le_len(s.drop_last(), c);
    }
}

/// The update step's treatment of empty clusters: each empty cluster, in
/// cluster order, is reseeded at a random point (drawn from `rng`); every
/// other cluster keeps its mean (`None`).
pub fn reseed_empty_clusters(rng: &mut StdRng, counts: &Vec<usize>, n: usize) -> (r: Vec<Option<usize>>)
    requires
        n > 0,
    ensures
        r.len() == counts.len(),
        forall|c: int| 0 <= c < counts.len() ==> (#[trigger] r@[c] is Some <==> counts@[c] == 0),
        forall|c: int| 0 <= c < counts.len() && #[trigger] r@[c] is Some ==> r@[c]->0 < n,
{
    let mut r: Vec<Option<usize>> = Vec::with_capacity(counts.len());
    let mut c: usize = 0;
    while c < counts.len()
        invariant
            n > 0,
            c <= counts.len(),
            r.len() == c,
            forall|d: int| 0 <= d < c ==> (#[trigger] r@[d] is Some <==> counts@[d] == 0),
            forall|d: int| 0 <= d < c && #[trigger] r@[d] is Some ==> r@[d]->0 < n,
        decreases counts.len() - c,
    {
        if counts[c] > 0 {
            r.push(None);
        } else {
            let idx = index_below(rng, n);
            r.push(Some(idx));
        }
        c += 1;
    }
    r
}

} // verus!
