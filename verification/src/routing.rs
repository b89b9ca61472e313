use vstd::prelude::*;
use vstd::set_lib::{set_int_range, lemma_int_range, lemma_len_subset};
use vstd::seq_lib::seq_to_set_is_finite;
use crate::ranking::{has_id, is_best_entry, top_unique, lemma_ids_cover_range};

verus! {

/// `r` lists `count` distinct partitions of `keys` in descending key order,
/// and every partition left out scores no higher than every partition kept.
/// Up to the order of equal keys this determines `r`.
pub open spec fn is_top_partitions(keys: Seq<u32>, r: Seq<usize>, count: nat) -> bool {
    &&& r.len() == count
    &&& r.no_duplicates()
    &&& forall|i: int| 0 <= i < r.len() ==> #[trigger] r[i] < keys.len()
    &&& forall|a: int, b: int| 0 <= a < b < r.len() ==> keys[r[a] as int] >= keys[r[b] as int]
    &&& forall|p: usize|
        p < keys.len() && !r.contains(p) ==> forall|i: int|
            0 <= i < r.len() ==> keys[p as int] <= keys[#[trigger] r[i] as int]
}

/// Of two partitions with equal keys the lower-numbered one ranks first:
/// along `r` equal keys come in increasing partition order, and a partition
/// left out ties with a kept one only if its number is higher.
pub open spec fn ties_by_index(keys: Seq<u32>, r: Seq<usize>) -> bool {
    &&& forall|a: int, b: int| 0 <= a < b < r.len() ==> keys[r[a] as int] > keys[r[b] as int] || #[trigger] r[a] < #[trigger] r[b]
    &&& forall|p: usize, i: int|
        #![trigger keys[p as int], r[i]]
        p < keys.len() && !r.contains(p) && 0 <= i < r.len() ==> keys[p as int] < keys[r[i] as int] || r[i] < p
}

/// The `count` best partitions by key, best first.
///
/// This is how a vector is placed in its `count` nearest partitions, and how
/// a query picks the partitions it probes.
pub fn top_partitions(keys: &Vec<u32>, count: usize) -> (r: Vec<usize>)
    requires
        count <= keys.len(),
    ensures
        is_top_partitions(keys@, r@, count as nat),
        ties_by_index(keys@, r@),
{
    let n = keys.len();
    let mut cands: Vec<(u32, usize)> = Vec::with_capacity(n);
    let mut p: usize = 0;
    while p < n
        invariant
            n == keys.len(),
            p <= n,
            cands.len() == p,
            forall|j: int| 0 <= j < p ==> #[trigger] cands@[j] == (keys@[j], j as usize),
        decreases n - p,
    {
        cands.push((keys[p], p));
        p += 1;
    }
    let (top, pos) = top_unique(&cands, count, n);
    proof {
        if top.len() < count {
            assert forall|id: usize| id < n implies has_id(top@, id) by {
                assert(cands@[id as int].1 == id);
            }
            lemma_ids_cover_range(top@, n);
        }
    }
    let mut r: Vec<usize> = Vec::with_capacity(top.len());
    let mut i: usize = 0;
    while i < top.len()
        invariant
            i <= top.len(),
            r.len() == i,
            forall|a: int| 0 <= a < i ==> #[trigger] r@[a] == top@[a].1,
        decreases top.len() - i,
    {
        r.push(top[i].1);
        i += 1;
    }
    proof {
        assert forall|i: int| 0 <= i < r.len() implies keys@[#[trigger] r@[i] as int] == top@[i].0 by {
            assert(is_best_entry(cands@, top@[i]));
            let j = choose|j: int| 0 <= j < cands@.len() && cands@[j] == top@[i];
            assert(cands@[j] == (keys@[j], j as usize));
        }
        assert forall|a: int, b: int| 0 <= a < r.len() && 0 <= b < r.len() && a != b implies r@[a]
            != r@[b] by {
            if a < b {
                assert(top@[a].1 != top@[b].1);
            } else {
                assert(top@[b].1 != top@[a].1);
            }
        }
        assert forall|p: usize| p < keys.len() && !r@.contains(p) implies forall|i: int|
            0 <= i < r.len() ==> keys@[p as int] <= keys@[#[trigger] r@[i] as int] by {
            assert(cands@[p as int] == (keys@[p as int], p));
            if has_id(top@, p) {
                let k = choose|k: int| 0 <= k < top@.len() && top@[k].1 == p;
                assert(r@[k] == p);
            }
            assert(!has_id(top@, cands@[p as int].1));
        }
    }
    proof {
        assert forall|i: int| 0 <= i < r.len() implies #[trigger] r@[i] == pos@[i] by {
            assert(cands@[pos@[i] as int] == top@[i]);
        }
        assert forall|a: int, b: int| 0 <= a < b < r.len() implies keys@[r@[a] as int] > keys@[r@[b] as int] || #[trigger] r@[a] < #[trigger] r@[b] by {
            assert(r@[a] == pos@[a] && r@[b] == pos@[b]);
            assert(cands@[pos@[a] as int] == top@[a]);
            assert(cands@[pos@[b] as int] == top@[b]);
            assert(top@[a].0 > top@[b].0 || pos@[a] < pos@[b]);
        }
        assert forall|p: usize, i: int|
            #![trigger keys@[p as int], r@[i]]
            p < keys.len() && !r@.contains(p) && 0 <= i < r.len() implies keys@[p as int] < keys@[r@[i] as int] || r@[i] < p by {
            assert(r@[i] == pos@[i]);
            assert(cands@[pos@[i] as int] == top@[i]);
            assert(cands@[p as int] == (keys@[p as int], p));
            if has_id(top@, p) {
                let k = choose|k: int| 0 <= k < top@.len() && top@[k].1 == p;
                assert(r@[k] == p);
            }
            assert(cands@[p as int].0 < top@[i].0 || pos@[i] < p as int);
        }
    }
    r
}

/// The partitions a query probes: the `min(n_probe, n_partitions)` best
/// partitions by centroid similarity.
pub fn select_probes(keys: &Vec<u32>, n_probe: usize) -> (r: Vec<usize>)
    requires
        n_probe >= 1,
        keys.len() >= 1,
    ensures
        is_top_partitions(keys@, r@, if n_probe < keys.len() { n_probe as nat } else { keys.len() as nat }),
        ties_by_index(keys@, r@),
{
    let count = if n_probe < keys.len() {
        n_probe
    } else {
        keys.len()
    };
    top_partitions(keys, count)
}

/// Boundary-aware assignment: the best partition, then further partitions in
/// descending order while their key is at least `cutoff_key`, at most
/// `min(max_assign, n_partitions)` partitions in all.
///
/// `cutoff_key` is the key of the best similarity minus the threshold.
pub open spec fn is_boundary_assignment(keys: Seq<u32>, r: Seq<usize>, cutoff_key: u32, width: nat) -> bool {
    &&& 1 <= r.len() <= width
    &&& is_top_partitions(keys, r, r.len())
    &&& forall|i: int| 1 <= i < r.len() ==> keys[#[trigger] r[i] as int] >= cutoff_key
    &&& r.len() < width ==> forall|p: usize|
        p < keys.len() && !r.contains(p) ==> keys[p as int] < cutoff_key
}

/// Places a vector in the best partition and in every further partition
/// (best first) whose similarity reaches the cutoff, up to
/// `min(max_assign, n_partitions)` partitions.
pub fn boundary_assignment(keys: &Vec<u32>, cutoff_key: u32, max_assign: usize) -> (r: Vec<usize>)
    requires
        max_assign >= 1,
        keys.len() >= 1,
    ensures
        is_boundary_assignment(
            keys@,
            r@,
            cutoff_key,
            if max_assign < keys.len() { max_assign as nat } else { keys.len() as nat },
        ),
        ties_by_index(keys@, r@),
{
    let width = if max_assign < keys.len() {
        max_assign
    } else {
        keys.len()
    };
    let top = top_partitions(keys, width);
    let mut r: Vec<usize> = Vec::with_capacity(width);
    r.push(top[0]);
    assert(r@ =~= top@.take(1));
    let mut i: usize = 1;
    while i < width
        invariant
            1 <= i <= width,
            width == top.len(),
            is_top_partitions(keys@, top@, width as nat),
            r@ == top@.take(i as int),
            forall|a: int| 1 <= a < i ==> keys@[#[trigger] top@[a] as int] >= cutoff_key,
        ensures
            1 <= i <= width,
            r@ == top@.take(i as int),
            forall|a: int| 1 <= a < i ==> keys@[#[trigger] top@[a] as int] >= cutoff_key,
            i < width ==> keys@[top@[i as int] as int] < cutoff_key,
        decreases width - i,
    {
        let p = top[i];
        if keys[p] >= cutoff_key {
            r.push(p);
            i += 1;
            assert(r@ =~= top@.take(i as int));
        } else {
            break;
        }
    }
    proof {
        let q = r.len() as int;
        assert(q == i);
        assert(is_top_partitions(keys@, r@, r.len() as nat)) by {
            assert forall|a: int| 0 <= a < r.len() implies r@[a] == #[trigger] top@[a] by {}
            assert forall|a: int, b: int| 0 <= a < r.len() && 0 <= b < r.len() && a != b implies
                r@[a] != r@[b] by {
                assert(top@[a] != top@[b]);
            }
            assert forall|p: usize| p < keys.len() && !r@.contains(p) implies forall|a: int|
                0 <= a < r.len() ==> keys@[p as int] <= keys@[#[trigger] r@[a] as int] by {
                if top@.contains(p) {
                    let b = choose|b: int| 0 <= b < top@.len() && top@[b] == p;
                    if b < q {
                        assert(r@[b] == p);
                    }
                    assert forall|a: int| 0 <= a < r.len() implies keys@[p as int] <= keys@[
                        #[trigger] r@[a] as int] by {
                        assert(r@[a] == top@[a]);
                        assert(a < b);
                    }
                } else {
                    assert forall|a: int| 0 <= a < r.len() implies keys@[p as int] <= keys@[
                        #[trigger] r@[a] as int] by {
                        assert(r@[a] == top@[a]);
                    }
                }
            }
        }
        if q < width {
            assert forall|p: usize| p < keys.len() && !r@.contains(p) implies keys@[p as int]
                < cutoff_key by {
                if top@.contains(p) {
                    let b = choose|b: int| 0 <= b < top@.len() && top@[b] == p;
                    if b < q {
                        assert(r@[b] == p);
                    }
                    assert(keys@[top@[b] as int] <= keys@[top@[q] as int] || b == q);
                } else {
                    assert(keys@[p as int] <= keys@[#[trigger] top@[q] as int]);
                }
            }
        }
        assert(ties_by_index(keys@, r@)) by {
            assert forall|a: int, b: int| 0 <= a < b < r.len() implies keys@[r@[a] as int] > keys@[r@[b] as int] || #[trigger] r@[a] < #[trigger] r@[b] by {
                assert(r@[a] == top@[a] && r@[b] == top@[b]);
            }
            assert forall|p: usize, i: int|
                #![trigger keys@[p as int], r@[i]]
                p < keys.len() && !r@.contains(p) && 0 <= i < r.len() implies keys@[p as int] < keys@[r@[i] as int] || r@[i] < p by {
                assert(r@[i] == top@[i]);
                if top@.contains(p) {
                    let b = choose|b: int| 0 <= b < top@.len() && top@[b] == p;
                    if b < q {
                        assert(r@[b] == p);
                    }
                    assert(i < b);
                    assert(keys@[top@[i] as int] > keys@[top@[b] as int] || top@[i] < top@[b]);
                }
            }
        }
    }
    r
}

/// `x` ranks above `y`: a higher key, or an equal key and a lower number.
pub open spec fn ranks_above(keys: Seq<u32>, x: usize, y: usize) -> bool {
    keys[x as int] > keys[y as int] || (keys[x as int] == keys[y as int] && x < y)
}

proof fn lemma_top_partitions_agree_upto(keys: Seq<u32>, r1: Seq<usize>, r2: Seq<usize>, m1: nat, m2: nat, i: int)
    requires
        is_top_partitions(keys, r1, m1),
        is_top_partitions(keys, r2, m2),
        ties_by_index(keys, r1),
        ties_by_index(keys, r2),
        m1 <= m2,
        0 <= i < m1,
    ensures
        forall|t: int| 0 <= t <= i ==> r1[t] == r2[t],
    decreases i,
{
    if i > 0 {
        lemma_top_partitions_agree_upto(keys, r1, r2, m1, m2, i - 1);
    }
    let x = r1[i];
    let y = r2[i];
    if x != y {
        if ranks_above(keys, x, y) {
            if r2.contains(x) {
                let j = choose|j: int| 0 <= j < r2.len() && r2[j] == x;
                if j < i {
                    assert(r1[j] == r2[j]);
                    assert(r1[j] != r1[i]);
                } else {
                    assert(keys[r2[i] as int] >= keys[r2[j] as int]);
                    assert(keys[r2[i] as int] > keys[r2[j] as int] || r2[i] < r2[j]);
                }
            } else {
                assert(keys[x as int] <= keys[r2[i] as int]);
                assert(keys[x as int] < keys[r2[i] as int] || r2[i] < x);
            }
        } else {
            assert(ranks_above(keys, y, x));
            if r1.contains(y) {
                let j = choose|j: int| 0 <= j < r1.len() && r1[j] == y;
                if j < i {
                    assert(r1[j] == r2[j]);
                    assert(r2[j] != r2[i]);
                } else {
                    assert(keys[r1[i] as int] >= keys[r1[j] as int]);
                    assert(keys[r1[i] as int] > keys[r1[j] as int] || r1[i] < r1[j]);
                }
            } else {
                assert(keys[y as int] <= keys[r1[i] as int]);
                assert(keys[y as int] < keys[r1[i] as int] || r1[i] < y);
            }
        }
    }
}

/// The `m1` best partitions are the first `m1` of the `m2` best for any
/// `m2 >= m1` (ties going to the lower partition number, as `top_partitions`
/// breaks them): raising the multi-assignment factor only adds partitions to
/// a vector, and probing more partitions only adds probes.
pub proof fn lemma_top_partitions_prefix(keys: Seq<u32>, r1: Seq<usize>, r2: Seq<usize>, m1: nat, m2: nat)
    requires
        is_top_partitions(keys, r1, m1),
        is_top_partitions(keys, r2, m2),
        ties_by_index(keys, r1),
        ties_by_index(keys, r2),
        m1 <= m2,
    ensures
        r1 == r2.take(m1 as int),
{
    if m1 > 0 {
        lemma_top_partitions_agree_upto(keys, r1, r2, m1, m2, m1 - 1);
    }
    assert(r1 =~= r2.take(m1 as int));
}

/// Boundary-aware assignment with room for a single partition places a
/// vector exactly where single fixed assignment does: in its best partition.
pub proof fn lemma_single_boundary_is_single_assignment(keys: Seq<u32>, rb: Seq<usize>, rf: Seq<usize>, cutoff_key: u32)
    requires
        is_boundary_assignment(keys, rb, cutoff_key, 1),
        ties_by_index(keys, rb),
        is_top_partitions(keys, rf, 1),
        ties_by_index(keys, rf),
    ensures
        rb == rf,
{
    lemma_top_partitions_prefix(keys, rb, rf, 1, 1);
    assert(rf.take(1) =~= rf);
}

/// A lower cutoff never assigns a vector to fewer partitions: with the same
/// similarities and the same width, boundary-aware assignment under cutoff
/// `c2 <= c1` keeps at least as many partitions as under `c1`.
pub proof fn lemma_lower_cutoff_assigns_more(keys: Seq<u32>, r1: Seq<usize>, r2: Seq<usize>, c1: u32, c2: u32, width: nat)
    requires
        is_boundary_assignment(keys, r1, c1, width),
        is_boundary_assignment(keys, r2, c2, width),
        c2 <= c1,
    ensures
        r1.len() <= r2.len(),
{
    broadcast use seq_to_set_is_finite;

    if r1.len() > r2.len() {
        if exists|i: int| 0 <= i < r1.len() && !r2.contains(#[trigger] r1[i]) {
            let i = choose|i: int| 0 <= i < r1.len() && !r2.contains(#[trigger] r1[i]);
            // every partition that r2 leaves out is below c2, since r2 is short
            assert(keys[r1[i] as int] < c2);
            if i == 0 {
                assert(keys[r1[1] as int] >= c1);
                assert(keys[r1[0] as int] >= keys[r1[1] as int]);
            } else {
                assert(keys[r1[i] as int] >= c1);
            }
        } else {
            r1.unique_seq_to_set();
            r2.unique_seq_to_set();
            assert(r1.to_set().subset_of(r2.to_set())) by {
                assert forall|x: usize| r1.to_set().contains(x) implies r2.to_set().contains(x) by {
                    let i = choose|i: int| 0 <= i < r1.len() && r1[i] == x;
                    assert(r2.contains(r1[i]));
                }
            }
            lemma_len_subset(r1.to_set(), r2.to_set());
        }
    }
}

/// Probing as many partitions as there are partitions probes every one: a top
/// list as long as the key list lists every partition.
pub proof fn lemma_full_probe_selects_all(keys: Seq<u32>, r: Seq<usize>, p: usize)
    requires
        is_top_partitions(keys, r, keys.len()),
        p < keys.len(),
    ensures
        r.contains(p),
{
    broadcast use seq_to_set_is_finite;

    let s = r.map_values(|x: usize| x as int);
    assert(s.no_duplicates()) by {
        assert forall|a: int, b: int| 0 <= a < s.len() && 0 <= b < s.len() && a != b implies s[a]
            != s[b] by {
            assert(r[a] != r[b]);
        }
    }
    s.unique_seq_to_set();
    lemma_int_range(0, keys.len() as int);
    assert(s.to_set().subset_of(set_int_range(0, keys.len() as int))) by {
        assert forall|x: int| s.to_set().contains(x) implies set_int_range(0, keys.len() as int).contains(x) by {
            let i = choose|i: int| 0 <= i < s.len() && s[i] == x;
            assert(r[i] < keys.len());
        }
    }
    if !r.contains(p) {
        let bigger = s.to_set().insert(p as int);
        assert(!s.to_set().contains(p as int)) by {
            if s.to_set().contains(p as int) {
                let i = choose|i: int| 0 <= i < s.len() && s[i] == p as int;
                assert(r[i] == p);
            }
        }
        assert(bigger.subset_of(set_int_range(0, keys.len() as int)));
        lemma_len_subset(bigger, set_int_range(0, keys.len() as int));
    }
}

} // verus!
