use vstd::prelude::*;
use vstd::set_lib::{set_int_range, lemma_int_range};
use crate::routing::{
    is_top_partitions, ties_by_index, is_boundary_assignment, top_partitions, boundary_assignment,
    lemma_lower_cutoff_assigns_more, lemma_top_partitions_prefix,
};

verus! {

/// Sum of the lengths of a sequence of sequences.
pub open spec fn total_len(s: Seq<Seq<usize>>) -> nat
    decreases s.len(),
{
    if s.len() == 0 {
        0
    } else {
        total_len(s.drop_last()) + s.last().len()
    }
}

/// The views of a sequence of vectors.
pub open spec fn rows_view(v: Seq<Vec<usize>>) -> Seq<Seq<usize>> {
    v.map_values(|r: Vec<usize>| r@)
}

pub open spec fn strictly_increasing(s: Seq<usize>) -> bool {
    forall|a: int, b: int| 0 <= a < b < s.len() ==> s[a] < s[b]
}

proof fn lemma_total_len_update(s: Seq<Seq<usize>>, p: int, t: Seq<usize>)
    requires
        0 <= p < s.len(),
    ensures
        total_len(s.update(p, t)) == total_len(s) - s[p].len() + t.len(),
    decreases s.len(),
{
    if p == s.len() - 1 {
        assert(s.update(p, t).drop_last() =~= s.drop_last());
    } else {
        lemma_total_len_update(s.drop_last(), p, t);
        assert(s.update(p, t).drop_last() =~= s.drop_last().update(p, t));
    }
}

proof fn lemma_total_len_bound(s: Seq<Seq<usize>>, b: nat)
    requires
        forall|p: int| 0 <= p < s.len() ==> #[trigger] s[p].len() <= b,
    ensures
        total_len(s) <= s.len() * b,
    decreases s.len(),
{
    if s.len() > 0 {
        lemma_total_len_bound(s.drop_last(), b);
        assert(s.drop_last().len() * b + b == s.len() * b) by (nonlinear_arith)
            requires
                s.drop_last().len() + 1 == s.len(),
        ;
    }
}

proof fn lemma_total_len_take_push(s: Seq<Seq<usize>>, i: int)
    requires
        0 <= i < s.len(),
    ensures
        total_len(s.take(i + 1)) == total_len(s.take(i)) + s[i].len(),
{
    assert(s.take(i + 1).drop_last() =~= s.take(i));
}

proof fn lemma_total_len_take_mono(s: Seq<Seq<usize>>, i: int)
    requires
        0 <= i <= s.len(),
    ensures
        total_len(s.take(i)) <= total_len(s),
    decreases s.len() - i,
{
    if i == s.len() {
        assert(s.take(i) =~= s);
    } else {
        lemma_total_len_take_push(s, i);
        lemma_total_len_take_mono(s, i + 1);
    }
}

/// `members` with every probed partition emptied.
pub open spec fn unprobed(members: Seq<Seq<usize>>, probes: Seq<usize>) -> Seq<Seq<usize>> {
    Seq::new(members.len(), |q: int| if probes.contains(q as usize) { Seq::empty() } else { members[q] })
}

/// Reading distinct partitions reads each stored entry at most once: the
/// entries read plus those of the partitions not read are all the entries.
pub proof fn lemma_probed_concat_split(members: Seq<Seq<usize>>, probes: Seq<usize>)
    requires
        members.len() <= usize::MAX,
        probes.no_duplicates(),
        forall|i: int| 0 <= i < probes.len() ==> #[trigger] probes[i] < members.len(),
    ensures
        probed_concat(members, probes).len() + total_len(unprobed(members, probes)) == total_len(members),
    decreases probes.len(),
{
    if probes.len() == 0 {
        assert(unprobed(members, probes) =~= members);
    } else {
        let pre = probes.drop_last();
        let last = probes.last();
        assert(pre.no_duplicates());
        lemma_probed_concat_split(members, pre);
        assert(!pre.contains(last)) by {
            if pre.contains(last) {
                let k = choose|k: int| 0 <= k < pre.len() && pre[k] == last;
                assert(probes[k] == probes[probes.len() - 1]);
            }
        }
        let u = unprobed(members, pre);
        assert(unprobed(members, probes) =~= u.update(last as int, Seq::empty())) by {
            assert forall|q: int| 0 <= q < members.len() implies #[trigger] unprobed(members, probes)[q]
                == u.update(last as int, Seq::empty())[q] by {
                lemma_push_contains(pre, last, q as usize);
                assert(probes =~= pre.push(last));
            }
        }
        assert(u[last as int] == members[last as int]);
        lemma_total_len_update(u, last as int, Seq::empty());
    }
}

/// Reading distinct partitions never reads more entries than are stored.
pub proof fn lemma_probed_concat_len_total(members: Seq<Seq<usize>>, probes: Seq<usize>)
    requires
        members.len() <= usize::MAX,
        probes.no_duplicates(),
        forall|i: int| 0 <= i < probes.len() ==> #[trigger] probes[i] < members.len(),
    ensures
        probed_concat(members, probes).len() <= total_len(members),
        (forall|q: usize| q < members.len() ==> probes.contains(q)) ==> probed_concat(members, probes).len()
            == total_len(members),
{
    lemma_probed_concat_split(members, probes);
    if forall|q: usize| q < members.len() ==> probes.contains(q) {
        let u = unprobed(members, probes);
        assert forall|q: int| 0 <= q < u.len() implies #[trigger] u[q].len() <= 0 by {
            assert(probes.contains(q as usize));
        }
        lemma_total_len_bound(u, 0);
    }
}

proof fn lemma_push_contains(s: Seq<usize>, x: usize, v: usize)
    ensures
        s.push(x).contains(v) <==> (s.contains(v) || v == x),
{
    if s.contains(v) {
        let b = choose|b: int| 0 <= b < s.len() && s[b] == v;
        assert(s.push(x)[b] == v);
    }
    if v == x {
        assert(s.push(x)[s.len() as int] == v);
    }
    if s.push(x).contains(v) {
        let b = choose|b: int| 0 <= b < s.push(x).len() && s.push(x)[b] == v;
        if b < s.len() {
            assert(s[b] == v);
        }
    }
}


/// The members of the probed partitions, partition after partition.
pub open spec fn probed_concat(members: Seq<Seq<usize>>, probes: Seq<usize>) -> Seq<usize>
    decreases probes.len(),
{
    if probes.len() == 0 {
        Seq::empty()
    } else {
        probed_concat(members, probes.drop_last()) + members[probes.last() as int]
    }
}

/// `s` with every element after its first occurrence removed.
pub open spec fn dedup_first(s: Seq<usize>) -> Seq<usize>
    decreases s.len(),
{
    if s.len() == 0 {
        Seq::empty()
    } else {
        let d = dedup_first(s.drop_last());
        if d.contains(s.last()) {
            d
        } else {
            d.push(s.last())
        }
    }
}

/// The candidates of a probed partition: for each returned local position
/// that is not negative, its key and the global id stored at that position.
pub open spec fn gathered(row: Seq<usize>, local_ids: Seq<i64>, keys: Seq<u32>, len: int) -> Seq<(u32, usize)>
    decreases len,
{
    if len <= 0 {
        Seq::empty()
    } else {
        let prev = gathered(row, local_ids, keys, len - 1);
        if local_ids[len - 1] < 0 {
            prev
        } else {
            prev.push((keys[len - 1], row[local_ids[len - 1] as int]))
        }
    }
}

/// The shorter of a partition's result lists (positions and keys).
pub open spec fn result_len(local_ids: Seq<i64>, keys: Seq<u32>) -> int {
    if local_ids.len() < keys.len() { local_ids.len() as int } else { keys.len() as int }
}

/// The result slots that `gathered` turns into candidates: the slots below
/// `len` whose position is not negative, in order.
pub open spec fn gathered_slots(local_ids: Seq<i64>, len: int) -> Seq<usize>
    decreases len,
{
    if len <= 0 {
        Seq::empty()
    } else {
        let prev = gathered_slots(local_ids, len - 1);
        if local_ids[len - 1] < 0 {
            prev
        } else {
            prev.push((len - 1) as usize)
        }
    }
}

/// First-occurrence deduplication keeps exactly the elements of `s`, once each.
pub proof fn lemma_dedup_first(s: Seq<usize>)
    ensures
        dedup_first(s).no_duplicates(),
        forall|v: usize| #[trigger] dedup_first(s).contains(v) <==> s.contains(v),
    decreases s.len(),
{
    if s.len() > 0 {
        let d = dedup_first(s.drop_last());
        lemma_dedup_first(s.drop_last());
        assert(s =~= s.drop_last().push(s.last()));
        assert forall|v: usize| #[trigger] dedup_first(s).contains(v) <==> s.contains(v) by {
            lemma_push_contains(s.drop_last(), s.last(), v);
            if !d.contains(s.last()) {
                lemma_push_contains(d, s.last(), v);
            }
        }
        if !d.contains(s.last()) {
            let e = d.push(s.last());
            assert forall|a: int, b: int| 0 <= a < e.len() && 0 <= b < e.len() && a != b implies e[a]
                != e[b] by {
                if a == d.len() {
                    if e[a] == e[b] {
                        assert(d[b] == s.last());
                    }
                } else if b == d.len() {
                    if e[a] == e[b] {
                        assert(d[a] == s.last());
                    }
                } else {
                    assert(e[a] == d[a] && e[b] == d[b]);
                }
            }
        }
    }
}

/// An id is among the probed members exactly when some probed partition
/// holds it.
pub proof fn lemma_probed_concat_contains(members: Seq<Seq<usize>>, probes: Seq<usize>, v: usize)
    requires
        forall|i: int| 0 <= i < probes.len() ==> #[trigger] probes[i] < members.len(),
    ensures
        probed_concat(members, probes).contains(v) <==> exists|i: int|
            0 <= i < probes.len() && #[trigger] members[probes[i] as int].contains(v),
    decreases probes.len(),
{
    if probes.len() > 0 {
        let pre = probes.drop_last();
        lemma_probed_concat_contains(members, pre, v);
        let x = probed_concat(members, pre);
        let y = members[probes.last() as int];
        let c = x + y;
        if c.contains(v) {
            let k = choose|k: int| 0 <= k < c.len() && c[k] == v;
            if k < x.len() {
                assert(x[k] == v);
                let i = choose|i: int| 0 <= i < pre.len() && #[trigger] members[pre[i] as int].contains(v);
                assert(probes[i] == pre[i]);
            } else {
                assert(y[k - x.len()] == v);
                assert(members[probes[probes.len() - 1] as int].contains(v));
            }
        }
        if exists|i: int| 0 <= i < probes.len() && #[trigger] members[probes[i] as int].contains(v) {
            let i = choose|i: int| 0 <= i < probes.len() && #[trigger] members[probes[i] as int].contains(v);
            if i < pre.len() {
                assert(pre[i] == probes[i]);
                assert(x.contains(v));
                let k = choose|k: int| 0 <= k < x.len() && x[k] == v;
                assert(c[k] == v);
            } else {
                let k = choose|k: int| 0 <= k < y.len() && y[k] == v;
                assert(c[x.len() + k] == v);
            }
        }
    }
}

/// With a fixed multi-assignment factor `m`, exactly `n * m` vector copies
/// are stored.
pub proof fn lemma_fixed_assignment_storage(assignments: Seq<Seq<usize>>, m: nat)
    requires
        forall|i: int| 0 <= i < assignments.len() ==> #[trigger] assignments[i].len() == m,
    ensures
        total_len(assignments) == assignments.len() * m,
    decreases assignments.len(),
{
    if assignments.len() > 0 {
        lemma_fixed_assignment_storage(assignments.drop_last(), m);
        assert(assignments.drop_last().len() * m + m == assignments.len() * m) by (nonlinear_arith)
            requires
                assignments.drop_last().len() + 1 == assignments.len(),
        ;
    }
}

/// With boundary-aware assignment every vector is stored at least once and at
/// most `width` times, so between `n` and `n * width` copies are stored.
pub proof fn lemma_boundary_assignment_storage(assignments: Seq<Seq<usize>>, width: nat)
    requires
        forall|i: int| 0 <= i < assignments.len() ==> 1 <= #[trigger] assignments[i].len() <= width,
    ensures
        assignments.len() <= total_len(assignments) <= assignments.len() * width,
    decreases assignments.len(),
{
    if assignments.len() > 0 {
        lemma_boundary_assignment_storage(assignments.drop_last(), width);
        assert(assignments.drop_last().len() * width + width == assignments.len() * width) by (nonlinear_arith)
            requires
                assignments.drop_last().len() + 1 == assignments.len(),
        ;
    }
}

/// Probing every partition makes every stored vector a candidate.
pub proof fn lemma_full_probe_covers(members: Seq<Seq<usize>>, probes: Seq<usize>, v: usize, p: usize)
    requires
        forall|i: int| 0 <= i < probes.len() ==> #[trigger] probes[i] < members.len(),
        forall|q: usize| q < members.len() ==> probes.contains(q),
        p < members.len(),
        members[p as int].contains(v),
    ensures
        dedup_first(probed_concat(members, probes)).contains(v),
{
    assert(probes.contains(p));
    let i = choose|i: int| 0 <= i < probes.len() && probes[i] == p;
    assert(members[probes[i] as int].contains(v));
    lemma_probed_concat_contains(members, probes, v);
    lemma_dedup_first(probed_concat(members, probes));
}

/// Storing vectors in more partitions never removes a vector from the
/// candidates of a query: if every partition of `fewer` is contained in the
/// same partition of `more`, the candidates collected from `fewer` are
/// candidates collected from `more` for the same probes.
pub proof fn lemma_more_assignment_keeps_candidates(
    fewer: Seq<Seq<usize>>,
    more: Seq<Seq<usize>>,
    probes: Seq<usize>,
    v: usize,
)
    requires
        fewer.len() == more.len(),
        forall|i: int| 0 <= i < probes.len() ==> #[trigger] probes[i] < fewer.len(),
        forall|p: int, u: usize| 0 <= p < fewer.len() && #[trigger] fewer[p].contains(u) ==> more[p].contains(u),
        dedup_first(probed_concat(fewer, probes)).contains(v),
    ensures
        dedup_first(probed_concat(more, probes)).contains(v),
{
    lemma_dedup_first(probed_concat(fewer, probes));
    lemma_dedup_first(probed_concat(more, probes));
    lemma_probed_concat_contains(fewer, probes, v);
    lemma_probed_concat_contains(more, probes, v);
    let i = choose|i: int| 0 <= i < probes.len() && #[trigger] fewer[probes[i] as int].contains(v);
    assert(more[probes[i] as int].contains(v));
}

proof fn lemma_total_len_pointwise(s1: Seq<Seq<usize>>, s2: Seq<Seq<usize>>)
    requires
        s1.len() == s2.len(),
        forall|i: int| 0 <= i < s1.len() ==> #[trigger] s1[i].len() <= s2[i].len(),
    ensures
        total_len(s1) <= total_len(s2),
    decreases s1.len(),
{
    if s1.len() > 0 {
        lemma_total_len_pointwise(s1.drop_last(), s2.drop_last());
    }
}

/// A lower boundary cutoff never stores fewer vector copies: if every
/// vector's cutoff under the second setting is at most its cutoff under the
/// first (a larger threshold), the second assignment stores at least as
/// many copies.
pub proof fn lemma_lower_cutoff_stores_more(
    keys: Seq<Seq<u32>>,
    rows1: Seq<Seq<usize>>,
    rows2: Seq<Seq<usize>>,
    c1: Seq<u32>,
    c2: Seq<u32>,
    width: nat,
)
    requires
        rows1.len() == keys.len(),
        rows2.len() == keys.len(),
        c1.len() == keys.len(),
        c2.len() == keys.len(),
        forall|v: int| 0 <= v < keys.len() ==> #[trigger] c2[v] <= c1[v],
        forall|v: int| 0 <= v < keys.len() ==> is_boundary_assignment(keys[v], #[trigger] rows1[v], c1[v], width),
        forall|v: int| 0 <= v < keys.len() ==> is_boundary_assignment(keys[v], #[trigger] rows2[v], c2[v], width),
    ensures
        total_len(rows1) <= total_len(rows2),
{
    assert forall|v: int| 0 <= v < rows1.len() implies #[trigger] rows1[v].len() <= rows2[v].len() by {
        lemma_lower_cutoff_assigns_more(keys[v], rows1[v], rows2[v], c1[v], c2[v], width);
    }
    lemma_total_len_pointwise(rows1, rows2);
}

/// Vector `v` is held by exactly the partitions that `row` lists.
pub open spec fn holds_exactly(members: Seq<Seq<usize>>, v: usize, row: Seq<usize>) -> bool {
    forall|p: int| 0 <= p < members.len() ==> (#[trigger] members[p].contains(v) <==> row.contains(p as usize))
}

/// Vector `v`, whose keys are `keys_v`, is held by exactly its `m` best
/// partitions (ties going to the lower partition number).
pub open spec fn placed_top(members: Seq<Seq<usize>>, keys_v: Seq<u32>, v: usize, m: nat) -> bool {
    exists|row: Seq<usize>|
        #[trigger] is_top_partitions(keys_v, row, m) && ties_by_index(keys_v, row) && holds_exactly(members, v, row)
}

/// Vector `v`, whose keys are `keys_v`, is held by exactly the partitions
/// that boundary-aware assignment with this cutoff and width picks.
pub open spec fn placed_boundary(members: Seq<Seq<usize>>, keys_v: Seq<u32>, v: usize, cutoff_key: u32, width: nat) -> bool {
    exists|row: Seq<usize>|
        #[trigger] is_boundary_assignment(keys_v, row, cutoff_key, width) && ties_by_index(keys_v, row) && holds_exactly(members, v, row)
}

/// The number of stored copies, or `None` when it does not fit in `usize`.
fn checked_total(rows: &Vec<Vec<usize>>) -> (r: Option<usize>)
    ensures
        r matches Some(t) ==> t == total_len(rows_view(rows@)),
        r is None ==> total_len(rows_view(rows@)) > usize::MAX,
{
    let ghost av = rows_view(rows@);
    let mut total: usize = 0;
    let mut i: usize = 0;
    proof {
        assert(av.take(0) =~= Seq::<Seq<usize>>::empty());
    }
    while i < rows.len()
        invariant
            av == rows_view(rows@),
            i <= rows.len(),
            total == total_len(av.take(i as int)),
        decreases rows.len() - i,
    {
        proof {
            lemma_total_len_take_push(av, i as int);
            assert(av[i as int] == rows[i as int]@);
        }
        match total.checked_add(rows[i].len()) {
            Some(t) => {
                total = t;
            },
            None => {
                proof {
                    lemma_total_len_take_mono(av, i + 1);
                }
                return None;
            },
        }
        i += 1;
    }
    proof {
        assert(av.take(rows.len() as int) =~= av);
    }
    Some(total)
}

/// Which vectors each partition holds: the inverted index of a
/// multi-assignment, with each partition's members in increasing id order.
pub struct PartitionTable {
    members: Vec<Vec<usize>>,
    n_vectors: usize,
    total_stored: usize,
}

impl PartitionTable {
    /// The members of every partition.
    pub closed spec fn spec_members(self) -> Seq<Seq<usize>> {
        rows_view(self.members@)
    }

    /// Number of vectors the table was built over.
    pub closed spec fn spec_n_vectors(self) -> nat {
        self.n_vectors as nat
    }

    /// Number of stored (vector, partition) pairs.
    pub closed spec fn spec_total_stored(self) -> nat {
        self.total_stored as nat
    }

    /// Members are increasing ids of indexed vectors, and the stored count is
    /// the total number of memberships.
    pub open spec fn inv(self) -> bool {
        &&& forall|p: int|
            0 <= p < self.spec_members().len() ==> strictly_increasing(
                #[trigger] self.spec_members()[p],
            )
        &&& forall|p: int, a: int|
            0 <= p < self.spec_members().len() && 0 <= a < self.spec_members()[p].len()
                ==> #[trigger] self.spec_members()[p][a] < self.spec_n_vectors()
        &&& self.spec_total_stored() == total_len(self.spec_members())
        &&& self.spec_members().len() <= usize::MAX
        &&& self.spec_n_vectors() <= usize::MAX
    }


    /// Number of partitions.
    pub fn n_partitions(&self) -> (r: usize)
        ensures
            r == self.spec_members().len(),
    {
        self.members.len()
    }

    /// Number of vectors the table was built over.
    pub fn n_vectors(&self) -> (r: usize)
        ensures
            r == self.spec_n_vectors(),
    {
        self.n_vectors
    }

    /// Number of stored (vector, partition) pairs.
    pub fn total_stored(&self) -> (r: usize)
        ensures
            r == self.spec_total_stored(),
    {
        self.total_stored
    }

    /// The members of partition `p`, in increasing id order.
    pub fn members(&self, p: usize) -> (r: &Vec<usize>)
        requires
            p < self.spec_members().len(),
        ensures
            r@ == self.spec_members()[p as int],
    {
        &self.members[p]
    }

    /// Number of entries held by the probed partitions: what a scan of them
    /// touches. Probes are distinct partitions, so this never exceeds the
    /// number of stored entries.
    pub fn probed_entries(&self, probes: &Vec<usize>) -> (r: usize)
        requires
            self.inv(),
            probes@.no_duplicates(),
            forall|i: int| 0 <= i < probes.len() ==> #[trigger] probes[i] < self.spec_members().len(),
        ensures
            r == probed_concat(self.spec_members(), probes@).len(),
            r <= self.spec_total_stored(),
    {
        let ghost m = self.spec_members();
        assert(m.len() == self.members.len());
        let mut total: usize = 0;
        let mut i: usize = 0;
        while i < probes.len()
            invariant
                m.len() <= usize::MAX,
                m == self.spec_members(),
                m == rows_view(self.members@),
                self.inv(),
                i <= probes.len(),
                probes@.no_duplicates(),
                forall|i: int| 0 <= i < probes.len() ==> #[trigger] probes[i] < m.len(),
                total == probed_concat(m, probes@.take(i as int)).len(),
            decreases probes.len() - i,
        {
            proof {
                let t = probes@.take(i + 1);
                assert(t.drop_last() =~= probes@.take(i as int));
                assert(t.no_duplicates()) by {
                    assert forall|a: int, b: int| 0 <= a < t.len() && 0 <= b < t.len() && a != b implies t[a] != t[b] by {
                        assert(t[a] == probes@[a] && t[b] == probes@[b]);
                    }
                }
                lemma_probed_concat_len_total(m, t);
            }
            total = total + self.members[probes[i]].len();
            i += 1;
        }
        proof {
            assert(probes@.take(probes.len() as int) =~= probes@);
            lemma_probed_concat_len_total(m, probes@);
        }
        total
    }

    /// The distinct vectors held by the probed partitions, in order of first
    /// appearance when the partitions are read in probe order.
    pub fn collect_unique(&self, probes: &Vec<usize>) -> (r: Vec<usize>)
        requires
            self.inv(),
            forall|i: int| 0 <= i < probes.len() ==> #[trigger] probes[i] < self.spec_members().len(),
        ensures
            r@ == dedup_first(probed_concat(self.spec_members(), probes@)),
            r@.no_duplicates(),
            forall|v: usize|
                #[trigger] r@.contains(v) <==> exists|i: int|
                    0 <= i < probes.len() && #[trigger] self.spec_members()[probes[i] as int].contains(v),
    {
        let ghost m = self.spec_members();
        let nv = self.n_vectors;
        let mut visited: Vec<bool> = vec![false; nv];
        let mut cands: Vec<usize> = Vec::new();
        let mut i: usize = 0;
        proof {
            assert(probes@.take(0) =~= Seq::<usize>::empty());
        }
        while i < probes.len()
            invariant
                m == self.spec_members(),
                m == rows_view(self.members@),
                nv == self.spec_n_vectors(),
                self.inv(),
                i <= probes.len(),
                visited.len() == nv,
                forall|i: int| 0 <= i < probes.len() ==> #[trigger] probes[i] < m.len(),
                cands@ == dedup_first(probed_concat(m, probes@.take(i as int))),
                forall|v: usize| v < nv ==> (visited@[v as int] <==> cands@.contains(v)),
            decreases probes.len() - i,
        {
            let row = &self.members[probes[i]];
            let ghost x = probed_concat(m, probes@.take(i as int));
            let mut a: usize = 0;
            proof {
                assert(x + row@.take(0) =~= x);
            }
            while a < row.len()
                invariant
                    m == self.spec_members(),
                    nv == self.spec_n_vectors(),
                    self.inv(),
                    i < probes.len(),
                    probes[i as int] < m.len(),
                    row@ == m[probes[i as int] as int],
                    a <= row.len(),
                    visited.len() == nv,
                    cands@ == dedup_first(x + row@.take(a as int)),
                    forall|v: usize| v < nv ==> (visited@[v as int] <==> cands@.contains(v)),
                decreases row.len() - a,
            {
                let v = row[a];
                proof {
                    assert(row@[a as int] < nv);
                    let s = x + row@.take(a + 1);
                    assert(s.drop_last() =~= x + row@.take(a as int));
                    assert(s.last() == v);
                }
                if !visited[v] {
                    visited.set(v, true);
                    let ghost old_c = cands@;
                    cands.push(v);
                    proof {
                        assert forall|u: usize| u < nv implies (visited@[u as int] <==> cands@.contains(u)) by {
                            lemma_push_contains(old_c, v, u);
                        }
                    }
                }
                a += 1;
            }
            proof {
                assert(row@.take(row.len() as int) =~= row@);
                assert(probes@.take(i + 1).drop_last() =~= probes@.take(i as int));
                assert(probes@.take(i + 1).last() == probes@[i as int]);
            }
            i += 1;
        }
        proof {
            assert(probes@.take(probes.len() as int) =~= probes@);
            lemma_dedup_first(probed_concat(m, probes@));
            assert forall|v: usize| #[trigger] cands@.contains(v) <==> exists|i: int|
                0 <= i < probes.len() && #[trigger] m[probes[i] as int].contains(v) by {
                lemma_probed_concat_contains(m, probes@, v);
            }
        }
        cands
    }

    /// How many results to ask of a probed partition's scorer: `None` for an
    /// empty partition (it is skipped), otherwise `min(collect_k, size)`.
    pub fn probe_request(&self, pid: usize, collect_k: usize) -> (r: Option<usize>)
        requires
            pid < self.spec_members().len(),
        ensures
            r is None <==> self.spec_members()[pid as int].len() == 0,
            r matches Some(k) ==> k == if collect_k < self.spec_members()[pid as int].len() {
                collect_k as int
            } else {
                self.spec_members()[pid as int].len() as int
            },
    {
        let len = self.members[pid].len();
        if len == 0 {
            None
        } else if collect_k < len {
            Some(collect_k)
        } else {
            Some(len)
        }
    }

    /// Turns the local result positions of a probed partition into
    /// (key, global id) candidates, skipping negative positions (empty
    /// result slots). Positions and keys are read pairwise up to the shorter
    /// of the two. The result slot of each candidate is appended to `slots`,
    /// so that data kept per slot (the similarity a key was made from) can
    /// follow the candidate.
    pub fn gather_candidates(
        &self,
        pid: usize,
        local_ids: &Vec<i64>,
        keys: &Vec<u32>,
        out: &mut Vec<(u32, usize)>,
        slots: &mut Vec<usize>,
    )
        requires
            self.inv(),
            pid < self.spec_members().len(),
            forall|j: int|
                0 <= j < local_ids.len() && j < keys.len() ==> #[trigger] local_ids[j]
                    < self.spec_members()[pid as int].len(),
        ensures
            ({
                let n = result_len(local_ids@, keys@);
                let g = gathered(self.spec_members()[pid as int], local_ids@, keys@, n);
                let gs = gathered_slots(local_ids@, n);
                &&& final(out)@ == old(out)@ + g
                &&& final(slots)@ == old(slots)@ + gs
                &&& g.len() == gs.len()
                &&& g.len() <= n
                &&& forall|k: int| 0 <= k < gs.len() ==> #[trigger] gs[k] < n && g[k] == (keys@[gs[k] as int], self.spec_members()[pid as int][local_ids@[gs[k] as int] as int])
                    && local_ids@[gs[k] as int] >= 0
            }),
            forall|j: int|
                old(out)@.len() <= j < final(out)@.len() ==> #[trigger] final(out)@[j].1
                    < self.spec_n_vectors(),
    {
        let ghost m = self.spec_members();
        let row = &self.members[pid];
        let n = if local_ids.len() < keys.len() {
            local_ids.len()
        } else {
            keys.len()
        };
        let ghost start = out@;
        let ghost sstart = slots@;
        let mut j: usize = 0;
        while j < n
            invariant
                m == self.spec_members(),
                self.inv(),
                pid < m.len(),
                row@ == m[pid as int],
                n <= local_ids.len(),
                n <= keys.len(),
                j <= n,
                forall|j: int| 0 <= j < local_ids.len() && j < keys.len() ==> #[trigger] local_ids[j] < row.len(),
                out@ == start + gathered(row@, local_ids@, keys@, j as int),
                slots@ == sstart + gathered_slots(local_ids@, j as int),
                gathered(row@, local_ids@, keys@, j as int).len() == gathered_slots(local_ids@, j as int).len(),
                gathered_slots(local_ids@, j as int).len() <= j,
                forall|k: int| 0 <= k < gathered_slots(local_ids@, j as int).len() ==> #[trigger] gathered_slots(local_ids@, j as int)[k] < j
                    && gathered(row@, local_ids@, keys@, j as int)[k] == (keys@[gathered_slots(local_ids@, j as int)[k] as int], row@[local_ids@[gathered_slots(local_ids@, j as int)[k] as int] as int])
                    && local_ids@[gathered_slots(local_ids@, j as int)[k] as int] >= 0,
                forall|k: int| start.len() <= k < out@.len() ==> #[trigger] out@[k].1 < self.spec_n_vectors(),
            decreases n - j,
        {
            let ghost g0 = gathered(row@, local_ids@, keys@, j as int);
            let ghost s0 = gathered_slots(local_ids@, j as int);
            let l = local_ids[j];
            if l >= 0 {
                let li = l as usize;
                let g = row[li];
                proof {
                    assert(m[pid as int][li as int] < self.spec_n_vectors());
                }
                out.push((keys[j], g));
                slots.push(j);
                proof {
                    assert(gathered(row@, local_ids@, keys@, j + 1) == g0.push((keys@[j as int], row@[l as int])));
                    assert(gathered_slots(local_ids@, j + 1) == s0.push(j));
                    assert(out@ =~= start + gathered(row@, local_ids@, keys@, j + 1));
                    assert(slots@ =~= sstart + gathered_slots(local_ids@, j + 1));
                    assert forall|k: int| 0 <= k < s0.push(j).len() implies #[trigger] s0.push(j)[k] < j + 1
                        && g0.push((keys@[j as int], row@[l as int]))[k] == (keys@[s0.push(j)[k] as int], row@[local_ids@[s0.push(j)[k] as int] as int])
                        && local_ids@[s0.push(j)[k] as int] >= 0 by {
                        if k < s0.len() {
                            assert(s0.push(j)[k] == s0[k]);
                            assert(g0.push((keys@[j as int], row@[l as int]))[k] == g0[k]);
                        }
                    }
                }
            } else {
                proof {
                    assert(gathered(row@, local_ids@, keys@, j + 1) == g0);
                    assert(gathered_slots(local_ids@, j + 1) == s0);
                }
            }
            j += 1;
        }
    }

    /// Inverts a multi-assignment: vector `i` goes into every partition that
    /// `assignments[i]` lists, members in increasing id order.
    pub fn build(n_partitions: usize, assignments: &Vec<Vec<usize>>) -> (t: Self)
        requires
            forall|i: int, a: int|
                0 <= i < assignments.len() && 0 <= a < assignments[i]@.len()
                    ==> #[trigger] assignments[i]@[a] < n_partitions,
            forall|i: int| 0 <= i < assignments.len() ==> (#[trigger] assignments[i]@).no_duplicates(),
            total_len(rows_view(assignments@)) <= usize::MAX,
        ensures
            t.inv(),
            t.spec_members().len() == n_partitions,
            t.spec_n_vectors() == assignments.len(),
            forall|p: int, v: usize|
                0 <= p < n_partitions ==> (#[trigger] t.spec_members()[p].contains(v) <==> (v
                    < assignments.len() && assignments[v as int]@.contains(p as usize))),
            t.spec_total_stored() == total_len(rows_view(assignments@)),
    {
        let n = assignments.len();
        let ghost av = rows_view(assignments@);
        let mut members: Vec<Vec<usize>> = Vec::with_capacity(n_partitions);
        let mut p: usize = 0;
        while p < n_partitions
            invariant
                p <= n_partitions,
                members.len() == p,
                forall|q: int| 0 <= q < p ==> (#[trigger] members@[q])@.len() == 0,
            decreases n_partitions - p,
        {
            members.push(Vec::new());
            p += 1;
        }
        proof {
            assert(total_len(rows_view(members@)) == 0) by {
                lemma_total_len_bound(rows_view(members@), 0);
            }
            assert(av.take(0) =~= Seq::<Seq<usize>>::empty());
        }
        let mut total: usize = 0;
        let mut i: usize = 0;
        while i < n
            invariant
                n == assignments.len(),
                av == rows_view(assignments@),
                i <= n,
                members.len() == n_partitions,
                total_len(av) <= usize::MAX,
                forall|i: int, a: int|
                    0 <= i < assignments.len() && 0 <= a < assignments[i]@.len()
                        ==> #[trigger] assignments[i]@[a] < n_partitions,
                forall|i: int| 0 <= i < assignments.len() ==> (#[trigger] assignments[i]@).no_duplicates(),
                forall|q: int| 0 <= q < n_partitions ==> strictly_increasing(#[trigger] members@[q]@),
                forall|q: int, a: int|
                    0 <= q < n_partitions && 0 <= a < members@[q]@.len() ==> #[trigger] members@[q]@[a] < i,
                forall|q: int, v: usize|
                    0 <= q < n_partitions ==> (#[trigger] members@[q]@.contains(v) <==> (v < i
                        && assignments[v as int]@.contains(q as usize))),
                total == total_len(av.take(i as int)),
                total == total_len(rows_view(members@)),
            decreases n - i,
        {
            let row = &assignments[i];
            let m = row.len();
            let mut a: usize = 0;
            while a < m
                invariant
                    n == assignments.len(),
                    av == rows_view(assignments@),
                    i < n,
                    row == &assignments[i as int],
                    m == row.len(),
                    a <= m,
                    members.len() == n_partitions,
                    total_len(av) <= usize::MAX,
                    forall|i: int, a: int|
                        0 <= i < assignments.len() && 0 <= a < assignments[i]@.len()
                            ==> #[trigger] assignments[i]@[a] < n_partitions,
                    forall|i: int| 0 <= i < assignments.len() ==> (#[trigger] assignments[i]@).no_duplicates(),
                    forall|q: int| 0 <= q < n_partitions ==> strictly_increasing(#[trigger] members@[q]@),
                    forall|q: int, b: int|
                        0 <= q < n_partitions && 0 <= b < members@[q]@.len() ==> #[trigger] members@[q]@[b] <= i,
                    forall|q: int, v: usize|
                        0 <= q < n_partitions ==> (#[trigger] members@[q]@.contains(v) <==> ((v < i
                            && assignments[v as int]@.contains(q as usize)) || (v == i
                            && row@.take(a as int).contains(q as usize)))),
                    total == total_len(av.take(i as int)) + a,
                    total == total_len(rows_view(members@)),
                decreases m - a,
            {
                let pid = row[a];
                let ghost before = rows_view(members@);
                proof {
                    assert(!row@.take(a as int).contains(pid)) by {
                        if row@.take(a as int).contains(pid) {
                            let b = choose|b: int| 0 <= b < a && row@.take(a as int)[b] == pid;
                            assert(row@[b] == row@[a as int]);
                        }
                    }
                    assert(!members@[pid as int]@.contains(i));
                    assert forall|b: int| 0 <= b < members@[pid as int]@.len() implies #[trigger] members@[pid as int]@[b] < i by {
                        assert(members@[pid as int]@.contains(members@[pid as int]@[b]));
                    }
                    lemma_total_len_update(before, pid as int, before[pid as int].push(i));
                    lemma_total_len_take_push(av, i as int);
                    lemma_total_len_take_mono(av, i + 1);
                    assert(av[i as int] == row@);
                }
                members[pid].push(i);
                total = total + 1;
                proof {
                    assert(rows_view(members@) =~= before.update(pid as int, before[pid as int].push(i)));
                    assert(row@.take(a + 1) =~= row@.take(a as int).push(pid));
                    assert forall|q: int, v: usize|
                        0 <= q < n_partitions implies (#[trigger] members@[q]@.contains(v) <==> ((v < i
                            && assignments[v as int]@.contains(q as usize)) || (v == i
                            && row@.take(a + 1).contains(q as usize)))) by {
                        lemma_push_contains(row@.take(a as int), pid, q as usize);
                        if q == pid {
                            assert(members@[q]@ == before[q].push(i));
                            lemma_push_contains(before[q], i, v);
                        } else {
                            assert(members@[q]@ == before[q]);
                        }
                    }
                }
                a += 1;
            }
            proof {
                assert(row@.take(m as int) =~= row@);
                lemma_total_len_take_push(av, i as int);
                assert(av[i as int] == row@);
            }
            i += 1;
            proof {
                assert forall|q: int, v: usize|
                    0 <= q < n_partitions implies (#[trigger] members@[q]@.contains(v) <==> (v < i
                        && assignments[v as int]@.contains(q as usize))) by {
                }
                assert forall|q: int, b: int|
                    0 <= q < n_partitions && 0 <= b < members@[q]@.len() implies #[trigger] members@[q]@[b] < i by {
                    assert(members@[q]@[b] <= i - 1);
                }
            }
        }
        proof {
            assert(av.take(n as int) =~= av);
        }
        let t = PartitionTable { members, n_vectors: n, total_stored: total };
        proof {
            assert(t.spec_members() == rows_view(members@));
            assert(t.spec_members().len() == n_partitions);
        }
        t
    }

    /// `build`, or `None` when the number of stored copies does not fit in
    /// `usize`.
    pub fn try_build(n_partitions: usize, assignments: &Vec<Vec<usize>>) -> (r: Option<Self>)
        requires
            forall|i: int, a: int|
                0 <= i < assignments.len() && 0 <= a < assignments[i]@.len()
                    ==> #[trigger] assignments[i]@[a] < n_partitions,
            forall|i: int| 0 <= i < assignments.len() ==> (#[trigger] assignments[i]@).no_duplicates(),
        ensures
            r is Some <==> total_len(rows_view(assignments@)) <= usize::MAX,
            r matches Some(t) ==> {
                &&& t.inv()
                &&& t.spec_members().len() == n_partitions
                &&& t.spec_n_vectors() == assignments.len()
                &&& forall|p: int, v: usize|
                    0 <= p < n_partitions ==> (#[trigger] t.spec_members()[p].contains(v) <==> (v
                        < assignments.len() && assignments[v as int]@.contains(p as usize)))
                &&& t.spec_total_stored() == total_len(rows_view(assignments@))
            },
    {
        match checked_total(assignments) {
            Some(_) => Some(Self::build(n_partitions, assignments)),
            None => None,
        }
    }

    /// Fixed multi-assignment: every vector goes into its `m` best partitions
    /// by key (`keys[v][p]` is the key of vector `v`'s similarity to
    /// partition `p`), so `n * m` copies are stored; `None` when that count
    /// does not fit in `usize`.
    pub fn build_fixed(n_partitions: usize, keys: &Vec<Vec<u32>>, m: usize) -> (r: Option<Self>)
        requires
            m <= n_partitions,
            forall|v: int| 0 <= v < keys.len() ==> (#[trigger] keys[v]@).len() == n_partitions,
        ensures
            r is Some <==> keys.len() * m <= usize::MAX,
            r matches Some(t) ==> {
                &&& t.inv()
                &&& t.spec_members().len() == n_partitions
                &&& t.spec_n_vectors() == keys.len()
                &&& t.spec_total_stored() == keys.len() * m
                &&& forall|v: int| 0 <= v < keys.len() ==> placed_top(t.spec_members(), #[trigger] keys[v]@, v as usize, m as nat)
                &&& m >= 1 ==> forall|v: usize| v < keys.len() ==> #[trigger] stored_somewhere(t.spec_members(), v)
            },
    {
        let n = keys.len();
        let mut rows: Vec<Vec<usize>> = Vec::with_capacity(n);
        let mut v: usize = 0;
        while v < n
            invariant
                n == keys.len(),
                v <= n,
                rows.len() == v,
                m <= n_partitions,
                forall|v: int| 0 <= v < keys.len() ==> (#[trigger] keys[v]@).len() == n_partitions,
                forall|u: int| 0 <= u < v ==> is_top_partitions(keys[u]@, #[trigger] rows@[u]@, m as nat)
                    && ties_by_index(keys[u]@, rows@[u]@),
            decreases n - v,
        {
            let row = top_partitions(&keys[v], m);
            rows.push(row);
            v += 1;
        }
        proof {
            assert forall|i: int, a: int|
                0 <= i < rows.len() && 0 <= a < rows[i]@.len() implies #[trigger] rows[i]@[a] < n_partitions by {
                assert(is_top_partitions(keys[i]@, rows@[i]@, m as nat));
            }
            assert forall|i: int| 0 <= i < rows.len() implies (#[trigger] rows[i]@).no_duplicates() by {
                assert(is_top_partitions(keys[i]@, rows@[i]@, m as nat));
            }
            assert forall|i: int| 0 <= i < rows_view(rows@).len() implies #[trigger] rows_view(rows@)[i].len() == m by {
                assert(is_top_partitions(keys[i]@, rows@[i]@, m as nat));
            }
            lemma_fixed_assignment_storage(rows_view(rows@), m as nat);
        }
        match Self::try_build(n_partitions, &rows) {
            Some(t) => {
                proof {
                    assert(rows_view(rows@).len() == keys.len());
                    assert forall|v: int| 0 <= v < keys.len() implies placed_top(t.spec_members(), #[trigger] keys[v]@, v as usize, m as nat) by {
                        let row = rows@[v]@;
                        assert(is_top_partitions(keys[v]@, row, m as nat) && ties_by_index(keys[v]@, row));
                        assert forall|p: int| 0 <= p < t.spec_members().len() implies (#[trigger] t.spec_members()[p].contains(v as usize) <==> row.contains(p as usize)) by {}
                        assert(holds_exactly(t.spec_members(), v as usize, row));
                    }
                    if m >= 1 {
                        assert forall|v: usize| v < keys.len() implies #[trigger] stored_somewhere(t.spec_members(), v) by {
                            let row = rows@[v as int]@;
                            assert(is_top_partitions(keys[v as int]@, row, m as nat));
                            assert(row.contains(row[0]));
                            assert(t.spec_members()[row[0] as int].contains(v));
                        }
                    }
                }
                Some(t)
            },
            None => None,
        }
    }

    /// Boundary-aware multi-assignment: every vector goes into its best
    /// partition and into each further partition, best first, whose key
    /// reaches the vector's cutoff key (`cutoffs[v]`, the key of its best
    /// similarity minus the threshold), at most `min(max_assign,
    /// n_partitions)` partitions in all. `None` when the number of stored
    /// copies does not fit in `usize`.
    pub fn build_boundary(n_partitions: usize, keys: &Vec<Vec<u32>>, cutoffs: &Vec<u32>, max_assign: usize) -> (r: Option<Self>)
        requires
            n_partitions >= 1,
            max_assign >= 1,
            cutoffs.len() == keys.len(),
            forall|v: int| 0 <= v < keys.len() ==> (#[trigger] keys[v]@).len() == n_partitions,
        ensures
            ({
                let width = if max_assign < n_partitions { max_assign as nat } else { n_partitions as nat };
                &&& keys.len() * width <= usize::MAX ==> r is Some
                &&& r is None ==> exists|rows: Seq<Seq<usize>>| {
                    &&& rows.len() == keys.len()
                    &&& total_len(rows) > usize::MAX
                    &&& forall|v: int| 0 <= v < keys.len() ==> is_boundary_assignment(keys[v]@, #[trigger] rows[v], cutoffs[v], width)
                        && ties_by_index(keys[v]@, rows[v])
                }
                &&& r matches Some(t) ==> {
                    &&& t.inv()
                    &&& t.spec_members().len() == n_partitions
                    &&& t.spec_n_vectors() == keys.len()
                    &&& keys.len() <= t.spec_total_stored() <= keys.len() * width
                    &&& forall|v: int| 0 <= v < keys.len() ==> placed_boundary(t.spec_members(), #[trigger] keys[v]@, v as usize, cutoffs[v], width)
                    &&& forall|v: usize| v < keys.len() ==> #[trigger] stored_somewhere(t.spec_members(), v)
                }
            }),
    {
        let ghost width: nat = if max_assign < n_partitions { max_assign as nat } else { n_partitions as nat };
        let n = keys.len();
        let mut rows: Vec<Vec<usize>> = Vec::with_capacity(n);
        let mut v: usize = 0;
        while v < n
            invariant
                n == keys.len(),
                v <= n,
                rows.len() == v,
                n_partitions >= 1,
                max_assign >= 1,
                cutoffs.len() == keys.len(),
                width == if max_assign < n_partitions { max_assign as nat } else { n_partitions as nat },
                forall|v: int| 0 <= v < keys.len() ==> (#[trigger] keys[v]@).len() == n_partitions,
                forall|u: int| 0 <= u < v ==> is_boundary_assignment(keys[u]@, #[trigger] rows@[u]@, cutoffs[u], width)
                    && ties_by_index(keys[u]@, rows@[u]@),
            decreases n - v,
        {
            let row = boundary_assignment(&keys[v], cutoffs[v], max_assign);
            rows.push(row);
            v += 1;
        }
        proof {
            assert forall|i: int, a: int|
                0 <= i < rows.len() && 0 <= a < rows[i]@.len() implies #[trigger] rows[i]@[a] < n_partitions by {
                assert(is_boundary_assignment(keys[i]@, rows@[i]@, cutoffs[i], width));
            }
            assert forall|i: int| 0 <= i < rows.len() implies (#[trigger] rows[i]@).no_duplicates() by {
                assert(is_boundary_assignment(keys[i]@, rows@[i]@, cutoffs[i], width));
            }
            assert forall|i: int| 0 <= i < rows_view(rows@).len() implies 1 <= #[trigger] rows_view(rows@)[i].len() <= width by {
                assert(is_boundary_assignment(keys[i]@, rows@[i]@, cutoffs[i], width));
            }
            lemma_boundary_assignment_storage(rows_view(rows@), width);
        }
        match Self::try_build(n_partitions, &rows) {
            Some(t) => {
                proof {
                    assert(rows_view(rows@).len() == keys.len());
                    assert forall|v: int| 0 <= v < keys.len() implies placed_boundary(t.spec_members(), #[trigger] keys[v]@, v as usize, cutoffs[v], width) by {
                        let row = rows@[v]@;
                        assert(is_boundary_assignment(keys[v]@, row, cutoffs[v], width) && ties_by_index(keys[v]@, row));
                        assert forall|p: int| 0 <= p < t.spec_members().len() implies (#[trigger] t.spec_members()[p].contains(v as usize) <==> row.contains(p as usize)) by {}
                        assert(holds_exactly(t.spec_members(), v as usize, row));
                    }
                    assert forall|v: usize| v < keys.len() implies #[trigger] stored_somewhere(t.spec_members(), v) by {
                        let row = rows@[v as int]@;
                        assert(is_boundary_assignment(keys[v as int]@, row, cutoffs[v as int], width));
                        assert(row.contains(row[0]));
                        assert(t.spec_members()[row[0] as int].contains(v));
                    }
                }
                Some(t)
            },
            None => {
                proof {
                    let rs = rows_view(rows@);
                    assert(rs.len() == keys.len());
                    assert forall|u: int| 0 <= u < keys.len() implies is_boundary_assignment(keys[u]@, #[trigger] rs[u], cutoffs[u], width)
                        && ties_by_index(keys[u]@, rs[u]) by {
                        assert(rs[u] == rows@[u]@);
                    }
                }
                None
            },
        }
    }
}

/// Probing every partition scans every stored copy exactly once: the
/// entries of the probed partitions number exactly the stored copies.
pub proof fn lemma_full_probe_scans_everything(t: PartitionTable, probes: Seq<usize>)
    requires
        t.inv(),
        probes.no_duplicates(),
        forall|i: int| 0 <= i < probes.len() ==> #[trigger] probes[i] < t.spec_members().len(),
        forall|q: usize| q < t.spec_members().len() ==> probes.contains(q),
    ensures
        probed_concat(t.spec_members(), probes).len() == t.spec_total_stored(),
{
    lemma_probed_concat_len_total(t.spec_members(), probes);
}

/// Some partition holds vector `v`.
pub open spec fn stored_somewhere(members: Seq<Seq<usize>>, v: usize) -> bool {
    exists|p: int| 0 <= p < members.len() && #[trigger] members[p].contains(v)
}

/// A duplicate-free sequence of ids below `n` that holds every id below `n`
/// has exactly `n` entries.
pub(crate) proof fn lemma_distinct_cover(s: Seq<usize>, n: nat)
    requires
        n <= usize::MAX,
        s.no_duplicates(),
        forall|i: int| 0 <= i < s.len() ==> #[trigger] s[i] < n,
        forall|v: usize| v < n ==> s.contains(v),
    ensures
        s.len() == n,
{
    let t = s.map_values(|x: usize| x as int);
    assert(t.no_duplicates()) by {
        assert forall|a: int, b: int| 0 <= a < t.len() && 0 <= b < t.len() && a != b implies t[a] != t[b] by {
            assert(s[a] != s[b]);
        }
    }
    t.unique_seq_to_set();
    lemma_int_range(0, n as int);
    assert(t.to_set() =~= set_int_range(0, n as int)) by {
        assert forall|x: int| t.to_set().contains(x) implies set_int_range(0, n as int).contains(x) by {
            let i = choose|i: int| 0 <= i < t.len() && t[i] == x;
            assert(s[i] < n);
        }
        assert forall|x: int| set_int_range(0, n as int).contains(x) implies t.to_set().contains(x) by {
            let v = x as usize;
            assert(s.contains(v));
            let i = choose|i: int| 0 <= i < s.len() && s[i] == v;
            assert(t[i] == x);
        }
    }
}

/// Probing every partition of a table in which every vector is stored
/// somewhere gathers every vector exactly once: the distinct candidates
/// number exactly the indexed vectors.
pub proof fn lemma_full_probe_collects_all(t: PartitionTable, probes: Seq<usize>)
    requires
        t.inv(),
        forall|i: int| 0 <= i < probes.len() ==> #[trigger] probes[i] < t.spec_members().len(),
        forall|q: usize| q < t.spec_members().len() ==> probes.contains(q),
        forall|v: usize| v < t.spec_n_vectors() ==> #[trigger] stored_somewhere(t.spec_members(), v),
    ensures
        dedup_first(probed_concat(t.spec_members(), probes)).len() == t.spec_n_vectors(),
{
    let m = t.spec_members();
    let d = dedup_first(probed_concat(m, probes));
    lemma_dedup_first(probed_concat(m, probes));
    assert forall|i: int| 0 <= i < d.len() implies #[trigger] d[i] < t.spec_n_vectors() by {
        assert(d.contains(d[i]));
        lemma_probed_concat_contains(m, probes, d[i]);
        let k = choose|k: int| 0 <= k < probes.len() && #[trigger] m[probes[k] as int].contains(d[i]);
        let a = choose|a: int| 0 <= a < m[probes[k] as int].len() && m[probes[k] as int][a] == d[i];
        assert(m[probes[k] as int][a] < t.spec_n_vectors());
    }
    assert forall|v: usize| v < t.spec_n_vectors() implies d.contains(v) by {
        assert(stored_somewhere(m, v));
        let p = choose|p: int| 0 <= p < m.len() && #[trigger] m[p].contains(v);
        lemma_full_probe_covers(m, probes, v, p as usize);
    }
    assert(t.spec_n_vectors() <= usize::MAX);
    lemma_distinct_cover(d, t.spec_n_vectors());
}

proof fn lemma_strict_same_elements(a: Seq<usize>, b: Seq<usize>)
    requires
        strictly_increasing(a),
        strictly_increasing(b),
        forall|v: usize| a.contains(v) <==> b.contains(v),
    ensures
        a == b,
    decreases a.len() + b.len(),
{
    if a.len() == 0 || b.len() == 0 {
        if a.len() > 0 {
            assert(a.contains(a[0]));
        }
        if b.len() > 0 {
            assert(b.contains(b[0]));
        }
        assert(a =~= b);
    } else {
        let x = a.last();
        let y = b.last();
        assert(a.contains(x));
        assert(b.contains(y));
        let i = choose|i: int| 0 <= i < b.len() && b[i] == x;
        let j = choose|j: int| 0 <= j < a.len() && a[j] == y;
        if i < b.len() - 1 {
            assert(b[i] < b[b.len() - 1]);
        }
        if j < a.len() - 1 {
            assert(a[j] < a[a.len() - 1]);
        }
        assert(x == y);
        let a2 = a.drop_last();
        let b2 = b.drop_last();
        assert forall|v: usize| a2.contains(v) <==> b2.contains(v) by {
            if a2.contains(v) {
                let k = choose|k: int| 0 <= k < a2.len() && a2[k] == v;
                assert(a[k] < a[a.len() - 1]);
                assert(b.contains(v));
                let l = choose|l: int| 0 <= l < b.len() && b[l] == v;
                assert(l != b.len() - 1);
                assert(b2[l] == v);
            }
            if b2.contains(v) {
                let k = choose|k: int| 0 <= k < b2.len() && b2[k] == v;
                assert(b[k] < b[b.len() - 1]);
                assert(a.contains(v));
                let l = choose|l: int| 0 <= l < a.len() && a[l] == v;
                assert(l != a.len() - 1);
                assert(a2[l] == v);
            }
        }
        assert(strictly_increasing(a2));
        assert(strictly_increasing(b2));
        lemma_strict_same_elements(a2, b2);
        assert(a =~= a2.push(x));
        assert(b =~= b2.push(y));
    }
}

/// Two tables that place every vector in the same partitions hold the same
/// member lists and the same number of copies.
proof fn lemma_same_placement_same_table(t1: PartitionTable, t2: PartitionTable)
    requires
        t1.inv(),
        t2.inv(),
        t1.spec_members().len() == t2.spec_members().len(),
        t1.spec_n_vectors() == t2.spec_n_vectors(),
        forall|p: int, v: usize|
            0 <= p < t1.spec_members().len() && v < t1.spec_n_vectors() ==> (#[trigger] t1.spec_members()[p].contains(v)
                <==> t2.spec_members()[p].contains(v)),
    ensures
        t1.spec_members() == t2.spec_members(),
        t1.spec_total_stored() == t2.spec_total_stored(),
{
    let m1 = t1.spec_members();
    let m2 = t2.spec_members();
    assert forall|p: int| 0 <= p < m1.len() implies #[trigger] m1[p] == m2[p] by {
        assert forall|v: usize| m1[p].contains(v) <==> m2[p].contains(v) by {
            if m1[p].contains(v) {
                let a = choose|a: int| 0 <= a < m1[p].len() && m1[p][a] == v;
                assert(m1[p][a] < t1.spec_n_vectors());
            }
            if m2[p].contains(v) {
                let a = choose|a: int| 0 <= a < m2[p].len() && m2[p][a] == v;
                assert(m2[p][a] < t2.spec_n_vectors());
            }
        }
        lemma_strict_same_elements(m1[p], m2[p]);
    }
    assert(m1 =~= m2);
}

/// The fixed multi-assignment table is determined by the similarities:
/// two tables that each place every vector in its `m` best partitions
/// (ties to the lower partition number) are the same table.
pub proof fn lemma_fixed_build_determined(t1: PartitionTable, t2: PartitionTable, keys: Seq<Seq<u32>>, m: nat)
    requires
        t1.inv(),
        t2.inv(),
        t1.spec_members().len() == t2.spec_members().len(),
        t1.spec_n_vectors() == keys.len(),
        t2.spec_n_vectors() == keys.len(),
        forall|v: int| 0 <= v < keys.len() ==> placed_top(t1.spec_members(), #[trigger] keys[v], v as usize, m),
        forall|v: int| 0 <= v < keys.len() ==> placed_top(t2.spec_members(), #[trigger] keys[v], v as usize, m),
    ensures
        t1.spec_members() == t2.spec_members(),
        t1.spec_total_stored() == t2.spec_total_stored(),
{
    assert forall|p: int, v: usize|
        0 <= p < t1.spec_members().len() && v < t1.spec_n_vectors() implies (#[trigger] t1.spec_members()[p].contains(v)
            <==> t2.spec_members()[p].contains(v)) by {
        let kv = keys[v as int];
        assert(placed_top(t1.spec_members(), kv, v, m));
        assert(placed_top(t2.spec_members(), kv, v, m));
        let r1 = choose|row: Seq<usize>| #[trigger] is_top_partitions(kv, row, m) && ties_by_index(kv, row) && holds_exactly(t1.spec_members(), v, row);
        let r2 = choose|row: Seq<usize>| #[trigger] is_top_partitions(kv, row, m) && ties_by_index(kv, row) && holds_exactly(t2.spec_members(), v, row);
        lemma_top_partitions_prefix(kv, r1, r2, m, m);
        assert(r2.take(m as int) =~= r2);
    }
    lemma_same_placement_same_table(t1, t2);
}

/// Boundary-aware assignment with room for a single partition builds the
/// same table as single fixed assignment over the same similarities.
pub proof fn lemma_single_boundary_table_is_single_fixed(
    tb: PartitionTable,
    tf: PartitionTable,
    keys: Seq<Seq<u32>>,
    cutoffs: Seq<u32>,
)
    requires
        tb.inv(),
        tf.inv(),
        tb.spec_members().len() == tf.spec_members().len(),
        tb.spec_n_vectors() == keys.len(),
        tf.spec_n_vectors() == keys.len(),
        cutoffs.len() == keys.len(),
        forall|v: int| 0 <= v < keys.len() ==> placed_boundary(tb.spec_members(), #[trigger] keys[v], v as usize, cutoffs[v], 1),
        forall|v: int| 0 <= v < keys.len() ==> placed_top(tf.spec_members(), #[trigger] keys[v], v as usize, 1),
    ensures
        tb.spec_members() == tf.spec_members(),
        tb.spec_total_stored() == tf.spec_total_stored(),
{
    assert forall|p: int, v: usize|
        0 <= p < tb.spec_members().len() && v < tb.spec_n_vectors() implies (#[trigger] tb.spec_members()[p].contains(v)
            <==> tf.spec_members()[p].contains(v)) by {
        let kv = keys[v as int];
        let c = cutoffs[v as int];
        assert(placed_boundary(tb.spec_members(), kv, v, c, 1));
        assert(placed_top(tf.spec_members(), kv, v, 1));
        let rb = choose|row: Seq<usize>| #[trigger] is_boundary_assignment(kv, row, c, 1) && ties_by_index(kv, row) && holds_exactly(tb.spec_members(), v, row);
        let rf = choose|row: Seq<usize>| #[trigger] is_top_partitions(kv, row, 1) && ties_by_index(kv, row) && holds_exactly(tf.spec_members(), v, row);
        lemma_top_partitions_prefix(kv, rb, rf, 1, 1);
        assert(rf.take(1) =~= rf);
    }
    lemma_same_placement_same_table(tb, tf);
}

/// The boundary-aware table is determined by the similarities and cutoffs:
/// two tables that each place every vector by boundary-aware assignment with
/// the same cutoffs and width (ties to the lower partition number) are the
/// same table.
pub proof fn lemma_boundary_build_determined(
    t1: PartitionTable,
    t2: PartitionTable,
    keys: Seq<Seq<u32>>,
    cutoffs: Seq<u32>,
    width: nat,
)
    requires
        t1.inv(),
        t2.inv(),
        t1.spec_members().len() == t2.spec_members().len(),
        t1.spec_n_vectors() == keys.len(),
        t2.spec_n_vectors() == keys.len(),
        cutoffs.len() == keys.len(),
        forall|v: int| 0 <= v < keys.len() ==> placed_boundary(t1.spec_members(), #[trigger] keys[v], v as usize, cutoffs[v], width),
        forall|v: int| 0 <= v < keys.len() ==> placed_boundary(t2.spec_members(), #[trigger] keys[v], v as usize, cutoffs[v], width),
    ensures
        t1.spec_members() == t2.spec_members(),
        t1.spec_total_stored() == t2.spec_total_stored(),
{
    assert forall|p: int, v: usize|
        0 <= p < t1.spec_members().len() && v < t1.spec_n_vectors() implies (#[trigger] t1.spec_members()[p].contains(v)
            <==> t2.spec_members()[p].contains(v)) by {
        let kv = keys[v as int];
        let c = cutoffs[v as int];
        assert(placed_boundary(t1.spec_members(), kv, v, c, width));
        assert(placed_boundary(t2.spec_members(), kv, v, c, width));
        let r1 = choose|row: Seq<usize>| #[trigger] is_boundary_assignment(kv, row, c, width) && ties_by_index(kv, row) && holds_exactly(t1.spec_members(), v, row);
        let r2 = choose|row: Seq<usize>| #[trigger] is_boundary_assignment(kv, row, c, width) && ties_by_index(kv, row) && holds_exactly(t2.spec_members(), v, row);
        lemma_lower_cutoff_assigns_more(kv, r1, r2, c, c, width);
        lemma_lower_cutoff_assigns_more(kv, r2, r1, c, c, width);
        lemma_top_partitions_prefix(kv, r1, r2, r1.len(), r2.len());
        assert(r2.take(r2.len() as int) =~= r2);
    }
    lemma_same_placement_same_table(t1, t2);
}

} // verus!
