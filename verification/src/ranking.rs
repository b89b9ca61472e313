use vstd::prelude::*;
use vstd::set_lib::{set_int_range, lemma_int_range};

verus! {

/// `id` is the id of some entry of `c`.
pub open spec fn has_id(c: Seq<(u32, usize)>, id: usize) -> bool {
    exists|j: int| 0 <= j < c.len() && c[j].1 == id
}

/// `e` is an entry of `c`, and no entry of `c` with the same id has a
/// higher key.
pub open spec fn is_best_entry(c: Seq<(u32, usize)>, e: (u32, usize)) -> bool {
    &&& c.contains(e)
    &&& forall|j: int| 0 <= j < c.len() && c[j].1 == e.1 ==> c[j].0 <= e.0
}

/// No id occurs twice in `r`.
pub open spec fn distinct_ids(r: Seq<(u32, usize)>) -> bool {
    forall|a: int, b: int| 0 <= a < b < r.len() ==> r[a].1 != r[b].1
}

/// Keys never increase along `r`.
pub open spec fn keys_descending(r: Seq<(u32, usize)>) -> bool {
    forall|a: int, b: int| 0 <= a < b < r.len() ==> r[a].0 >= r[b].0
}

/// `r` is a best-first choice of at most `target` distinct ids of `c`: every
/// id appears once, with the highest key any of its entries has; keys
/// descend; and an id of `c` is left out only when `r` is already full and
/// none of that id's entries scores above anything kept. Up to the order of
/// equal keys this determines `r`.
pub open spec fn is_top_unique(c: Seq<(u32, usize)>, r: Seq<(u32, usize)>, target: nat) -> bool {
    &&& distinct_ids(r)
    &&& keys_descending(r)
    &&& r.len() <= target
    &&& forall|i: int| 0 <= i < r.len() ==> #[trigger] is_best_entry(c, r[i])
    &&& forall|j: int|
        0 <= j < c.len() && !has_id(r, #[trigger] c[j].1) ==> {
            &&& r.len() == target
            &&& forall|i: int| 0 <= i < r.len() ==> c[j].0 <= #[trigger] r[i].0
        }
}

proof fn lemma_has_id_push(r: Seq<(u32, usize)>, e: (u32, usize), id: usize)
    ensures
        has_id(r.push(e), id) <==> (has_id(r, id) || e.1 == id),
{
    if has_id(r, id) {
        let j = choose|j: int| 0 <= j < r.len() && r[j].1 == id;
        assert(r.push(e)[j] == r[j]);
    }
    if e.1 == id {
        assert(r.push(e)[r.len() as int] == e);
    }
    if has_id(r.push(e), id) {
        let j = choose|j: int| 0 <= j < r.push(e).len() && r.push(e)[j].1 == id;
        if j < r.len() {
            assert(r[j] == r.push(e)[j]);
        }
    }
}

/// A sequence of distinct ids below `bound` that contains every id below
/// `bound` has exactly `bound` entries.
pub proof fn lemma_ids_cover_range(r: Seq<(u32, usize)>, bound: usize)
    requires
        distinct_ids(r),
        forall|i: int| 0 <= i < r.len() ==> #[trigger] r[i].1 < bound,
        forall|id: usize| id < bound ==> has_id(r, id),
    ensures
        r.len() == bound,
{
    let s = r.map_values(|e: (u32, usize)| e.1 as int);
    assert(s.no_duplicates()) by {
        assert forall|a: int, b: int| 0 <= a < s.len() && 0 <= b < s.len() && a != b implies s[a]
            != s[b] by {
            if a < b {
                assert(r[a].1 != r[b].1);
            } else {
                assert(r[b].1 != r[a].1);
            }
        }
    }
    s.unique_seq_to_set();
    lemma_int_range(0, bound as int);
    assert(s.to_set() =~= set_int_range(0, bound as int)) by {
        assert forall|x: int| s.to_set().contains(x) implies set_int_range(0, bound as int).contains(
            x,
        ) by {
            let i = choose|i: int| 0 <= i < s.len() && s[i] == x;
            assert(r[i].1 < bound);
        }
        assert forall|x: int| set_int_range(0, bound as int).contains(x) implies s.to_set().contains(
            x,
        ) by {
            let id = x as usize;
            assert(has_id(r, id));
            let j = choose|j: int| 0 <= j < r.len() && r[j].1 == id;
            assert(s[j] == x);
        }
    }
}

/// `pos` lists, for each kept entry, the position in `c` it was taken from.
pub open spec fn taken_from(c: Seq<(u32, usize)>, r: Seq<(u32, usize)>, pos: Seq<usize>) -> bool {
    &&& pos.len() == r.len()
    &&& forall|i: int| 0 <= i < r.len() ==> #[trigger] pos[i] < c.len() && c[pos[i] as int] == r[i]
}

/// Ties are broken by position: of two kept entries with equal keys the one
/// taken from the earlier position comes first, and an entry whose id was
/// left out ties with a kept entry only if it stands after it.
pub open spec fn first_on_ties(c: Seq<(u32, usize)>, r: Seq<(u32, usize)>, pos: Seq<usize>) -> bool {
    &&& forall|a: int, b: int| 0 <= a < b < r.len() ==> r[a].0 > r[b].0 || #[trigger] pos[a] < #[trigger] pos[b]
    &&& forall|j: int, i: int|
        #![trigger c[j], pos[i]]
        0 <= j < c.len() && !has_id(r, c[j].1) && 0 <= i < r.len() ==> c[j].0 < r[i].0 || pos[i] < j
}

/// Best-first selection of distinct ids: repeatedly takes the highest-keyed
/// entry whose id has not been taken yet (the first such entry on ties),
/// until `target` ids are taken or every id of `cands` is. Returns the kept
/// entries and, for each, its position in `cands`, so that a caller holding
/// per-candidate data (such as the similarity a key was made from) can
/// report it.
pub fn top_unique(cands: &Vec<(u32, usize)>, target: usize, id_bound: usize) -> (r: (Vec<(u32, usize)>, Vec<usize>))
    requires
        forall|j: int| 0 <= j < cands.len() ==> #[trigger] cands[j].1 < id_bound,
    ensures
        is_top_unique(cands@, r.0@, target as nat),
        taken_from(cands@, r.0@, r.1@),
        first_on_ties(cands@, r.0@, r.1@),
        forall|i: int| 0 <= i < r.0.len() ==> #[trigger] r.0[i].1 < id_bound,
{
    let n = cands.len();
    let mut taken: Vec<bool> = vec![false; id_bound];
    let mut r: Vec<(u32, usize)> = Vec::new();
    let mut pos: Vec<usize> = Vec::new();
    while r.len() < target
        invariant
            n == cands.len(),
            taken_from(cands@, r@, pos@),
            first_on_ties(cands@, r@, pos@),
            taken.len() == id_bound,
            forall|j: int| 0 <= j < cands.len() ==> #[trigger] cands[j].1 < id_bound,
            forall|id: usize| id < id_bound ==> (taken@[id as int] <==> has_id(r@, id)),
            forall|i: int| 0 <= i < r.len() ==> #[trigger] r[i].1 < id_bound,
            distinct_ids(r@),
            keys_descending(r@),
            r.len() <= target,
            forall|i: int| 0 <= i < r.len() ==> #[trigger] is_best_entry(cands@, r@[i]),
            forall|j: int|
                0 <= j < cands.len() && !has_id(r@, #[trigger] cands@[j].1) ==> forall|i: int|
                    0 <= i < r.len() ==> cands@[j].0 <= #[trigger] r@[i].0,
        ensures
            r.len() == target || forall|j: int| 0 <= j < cands.len() ==> has_id(r@, #[trigger] cands@[j].1),
        decreases target - r.len(),
    {
        let mut best: usize = n;
        let mut j: usize = 0;
        while j < n
            invariant
                n == cands.len(),
                j <= n,
                taken.len() == id_bound,
                forall|j: int| 0 <= j < cands.len() ==> #[trigger] cands[j].1 < id_bound,
                best == n || (best < j && !taken@[cands@[best as int].1 as int]),
                best == n ==> forall|j2: int| 0 <= j2 < j ==> taken@[#[trigger] cands@[j2].1 as int],
                best < n ==> forall|j2: int|
                    0 <= j2 < j && !taken@[#[trigger] cands@[j2].1 as int] ==> cands@[j2].0
                        <= cands@[best as int].0,
                best < n ==> forall|j2: int|
                    0 <= j2 < j && !taken@[#[trigger] cands@[j2].1 as int] ==> cands@[j2].0
                        < cands@[best as int].0 || best <= j2,
            decreases n - j,
        {
            let e = cands[j];
            if !taken[e.1] {
                if best == n || e.0 > cands[best].0 {
                    best = j;
                }
            }
            j += 1;
        }
        if best == n {
            assert forall|j: int| 0 <= j < cands.len() implies has_id(r@, #[trigger] cands@[j].1) by {
                assert(taken@[cands@[j].1 as int]);
            }
            break;
        }
        let e = cands[best];
        let ghost old_r = r@;
        let ghost old_pos = pos@;
        let ghost old_taken = taken@;
        proof {
            assert(!has_id(old_r, e.1));
            assert forall|id: usize| #![auto] true implies has_id(old_r.push(e), id) <==> (has_id(
                old_r,
                id,
            ) || e.1 == id) by {
                lemma_has_id_push(old_r, e, id);
            }
        }
        taken.set(e.1, true);
        r.push(e);
        pos.push(best);
        proof {
            assert(r@ == old_r.push(e));
            assert(pos@ == old_pos.push(best));
            assert forall|i: int| 0 <= i < r.len() implies #[trigger] pos@[i] < cands.len() && cands@[pos@[i] as int] == r@[i] by {
                if i < old_r.len() {
                    assert(pos@[i] == old_pos[i]);
                    assert(r@[i] == old_r[i]);
                }
            }
            assert forall|a: int, b: int| 0 <= a < b < r@.len() implies r@[a].0 > r@[b].0 || #[trigger] pos@[a] < #[trigger] pos@[b] by {
                assert(pos@[a] == old_pos[a]);
                if b == old_r.len() {
                    assert(!has_id(old_r, cands@[best as int].1));
                    assert(cands@[best as int] == e);
                    assert(r@[a] == old_r[a]);
                    assert(cands@[best as int].0 < old_r[a].0 || old_pos[a] < best);
                } else {
                    assert(pos@[b] == old_pos[b]);
                    assert(r@[a] == old_r[a] && r@[b] == old_r[b]);
                }
            }
            assert forall|j: int, i: int|
                #![trigger cands@[j], pos@[i]]
                0 <= j < cands@.len() && !has_id(r@, cands@[j].1) && 0 <= i < r@.len() implies cands@[j].0 < r@[i].0 || pos@[i] < j by {
                assert(!has_id(old_r, cands@[j].1));
                assert(cands@[j].1 != e.1);
                if i < old_r.len() {
                    assert(pos@[i] == old_pos[i]);
                    assert(r@[i] == old_r[i]);
                    assert(cands@[j].0 < old_r[i].0 || old_pos[i] < j);
                } else {
                    assert(!old_taken[cands@[j].1 as int]);
                    assert(j != best);
                }
            }
            assert forall|a: int, b: int| 0 <= a < b < r@.len() implies r@[a].1 != r@[b].1 by {
                if b == old_r.len() {
                    if r@[a].1 == e.1 {
                        assert(has_id(old_r, e.1));
                    }
                }
            }
            assert forall|a: int, b: int| 0 <= a < b < r@.len() implies r@[a].0 >= r@[b].0 by {
                if b == old_r.len() {
                    assert(!has_id(old_r, cands@[best as int].1));
                    assert(cands@[best as int].0 <= old_r[a].0);
                }
            }
            assert(is_best_entry(cands@, e)) by {
                assert(cands@[best as int] == e);
                assert forall|j: int| 0 <= j < cands.len() && cands@[j].1 == e.1 implies cands@[j].0
                    <= e.0 by {
                    assert(!old_taken[cands@[j].1 as int]);
                }
            }
            assert forall|i: int| 0 <= i < r.len() implies #[trigger] is_best_entry(cands@, r@[i]) by {
                if i < old_r.len() {
                    assert(r@[i] == old_r[i]);
                }
            }
            assert forall|j: int|
                0 <= j < cands.len() && !has_id(r@, #[trigger] cands@[j].1) implies forall|i: int|
                0 <= i < r.len() ==> cands@[j].0 <= #[trigger] r@[i].0 by {
                assert(!has_id(old_r, cands@[j].1));
                assert(cands@[j].1 != e.1);
                assert forall|i: int| 0 <= i < r.len() implies cands@[j].0 <= #[trigger] r@[i].0 by {
                    if i < old_r.len() {
                        assert(r@[i] == old_r[i]);
                    }
                }
            }
        }
    }
    (r, pos)
}

} // verus!
