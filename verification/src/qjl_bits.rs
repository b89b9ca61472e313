use vstd::prelude::*;
use crate::rng::{seeded_rng, fair_coin};

verus! {

/// Bit `t` of a byte, counting from the most significant bit (t = 0).
pub open spec fn bit_of(byte: u8, t: int) -> bool {
    (byte >> ((7 - t) as u8)) & 1u8 == 1u8
}

/// The sign bit stored for flat position `p`: byte `p / 8`, bit `p % 8`
/// counted from the most significant bit.
pub open spec fn packed_bit(bytes: Seq<u8>, p: int) -> bool {
    bit_of(bytes[p / 8], p % 8)
}

proof fn lemma_set_bit(b: u8, t: u8, s: u8)
    requires
        t < 8,
        s < 8,
    ensures
        bit_of(b | (1u8 << (7 - t) as u8), s as int) == (s == t || bit_of(b, s as int)),
{
    assert(((b | (1u8 << ((7u8 - t) as u8))) >> ((7u8 - s) as u8)) & 1u8 == 1u8 <==> (s == t || (b
        >> ((7u8 - s) as u8)) & 1u8 == 1u8)) by (bit_vector)
        requires
            t < 8u8,
            s < 8u8,
    ;
}

proof fn lemma_zero_byte(s: u8)
    requires
        s < 8,
    ensures
        !bit_of(0u8, s as int),
{
    assert((0u8 >> ((7u8 - s) as u8)) & 1u8 == 0u8) by (bit_vector)
        requires
            s < 8u8,
    ;
}

/// The byte that sign `p` of a flat `n x dim` sign matrix is written to when
/// each vector gets `n_bytes` bytes: byte `j / 8` of row `i`, for
/// `p = i * dim + j`.
pub open spec fn sign_slot(p: int, dim: int, n_bytes: int) -> int {
    (p / dim) * n_bytes + (p % dim) / 8
}

/// The bit (from the most significant) that sign `p` is written to.
pub open spec fn sign_shift(p: int, dim: int) -> int {
    (p % dim) % 8
}

/// Some set sign is written to bit `t` of byte `b`.
pub open spec fn written(signs: Seq<bool>, dim: int, n_bytes: int, b: int, t: int) -> bool {
    exists|p: int| 0 <= p < signs.len() && signs[p] && #[trigger] sign_slot(p, dim, n_bytes) == b && sign_shift(p, dim) == t
}

proof fn lemma_slot_facts(p: int, dim: int, n_bytes: int)
    requires
        0 <= p,
        dim > 0,
        n_bytes == dim / 8,
    ensures
        0 <= sign_slot(p, dim, n_bytes),
        8 * sign_slot(p, dim, n_bytes) <= p,
        0 <= sign_shift(p, dim) < 8,
        dim % 8 == 0 ==> sign_slot(p, dim, n_bytes) == p / 8 && sign_shift(p, dim) == p % 8,
{
    let i = p / dim;
    let j = p % dim;
    assert(p == i * dim + j && 0 <= j < dim && 0 <= i) by (nonlinear_arith)
        requires dim > 0, 0 <= p, i == p / dim, j == p % dim;
    assert(8 * (i * n_bytes + j / 8) <= p) by (nonlinear_arith)
        requires p == i * dim + j, 0 <= j, 0 <= i, n_bytes == dim / 8, dim > 0;
    if dim % 8 == 0 {
        assert(p / 8 == i * n_bytes + j / 8 && p % 8 == j % 8) by (nonlinear_arith)
            requires p == i * dim + j, 0 <= j < dim, 0 <= i, n_bytes == dim / 8, dim % 8 == 0;
    }
}

proof fn lemma_slot_bound(p: int, dim: int, n_bytes: int, n: int)
    requires
        0 <= p < n * dim,
        dim > 0,
        n_bytes == dim / 8,
        dim % 8 == 0,
    ensures
        sign_slot(p, dim, n_bytes) < n * n_bytes,
{
    let i = p / dim;
    let j = p % dim;
    assert(i < n && j / 8 < n_bytes && i * n_bytes + n_bytes <= n * n_bytes) by (nonlinear_arith)
        requires dim > 0, 0 <= p < n * dim, i == p / dim, j == p % dim, n_bytes == dim / 8, dim % 8 == 0;
    assert(sign_slot(p, dim, n_bytes) == i * n_bytes + j / 8);
}

/// Packs the signs of `signs.len() / dim` vectors of `dim` coordinates,
/// `dim / 8` bytes per vector: a set sign `p = i * dim + j` sets bit `j % 8`
/// (from the most significant) of byte `j / 8` of row `i`. When `dim` is not
/// a multiple of eight, trailing coordinates land in the next row's first
/// byte, and `None` is returned when one lands past the last byte.
pub fn pack_sign_rows(signs: &Vec<bool>, dim: usize) -> (r: Option<Vec<u8>>)
    requires
        dim > 0,
        signs.len() % dim == 0,
    ensures
        ({
            let n_bytes = (dim / 8) as int;
            let len = (signs.len() / dim) * n_bytes;
            &&& r is None <==> exists|p: int|
                0 <= p < signs.len() && signs@[p] && #[trigger] sign_slot(p, dim as int, n_bytes) >= len
            &&& r matches Some(bytes) ==> {
                &&& bytes.len() == len
                &&& forall|b: int, t: int|
                    0 <= b < len && 0 <= t < 8 ==> (#[trigger] bit_of(bytes@[b], t) <==> written(signs@, dim as int, n_bytes, b, t))
            }
            &&& dim % 8 == 0 ==> (r matches Some(bytes) && forall|p: int|
                0 <= p < signs.len() ==> #[trigger] packed_bit(bytes@, p) == signs@[p])
        }),
{
    let n_bytes = dim / 8;
    let n = signs.len() / dim;
    proof {
        assert(n * n_bytes * 8 <= signs.len()) by (nonlinear_arith)
            requires n == signs.len() / dim, n_bytes == dim / 8, dim > 0;
    }
    let len = n * n_bytes;
    let mut bytes: Vec<u8> = vec![0u8; len];
    proof {
        assert forall|b: int, t: int| 0 <= b < len && 0 <= t < 8 implies !#[trigger] bit_of(bytes@[b], t) by {
            assert(bytes@[b] == 0u8);
            lemma_zero_byte(t as u8);
        }
    }
    let mut p: usize = 0;
    while p < signs.len()
        invariant
            dim > 0,
            signs.len() % dim == 0,
            n_bytes == dim / 8,
            n == signs.len() / dim,
            len == n * n_bytes,
            bytes.len() == len,
            p <= signs.len(),
            forall|q: int| 0 <= q < p && signs@[q] ==> #[trigger] sign_slot(q, dim as int, n_bytes as int) < len,
            forall|b: int, t: int|
                0 <= b < len && 0 <= t < 8 ==> (#[trigger] bit_of(bytes@[b], t) <==> exists|q: int|
                    0 <= q < p && signs@[q] && #[trigger] sign_slot(q, dim as int, n_bytes as int) == b
                        && sign_shift(q, dim as int) == t),
        decreases signs.len() - p,
    {
        proof {
            lemma_slot_facts(p as int, dim as int, n_bytes as int);
        }
        if signs[p] {
            let idx = (p / dim) * n_bytes + (p % dim) / 8;
            let t = ((p % dim) % 8) as u8;
            if idx >= len {
                proof {
                    assert(sign_slot(p as int, dim as int, n_bytes as int) == idx);
                    if dim % 8 == 0 {
                        assert(p < n * dim) by (nonlinear_arith)
                            requires p < signs.len(), n == signs.len() / dim, dim > 0, signs.len() % dim == 0;
                        lemma_slot_bound(p as int, dim as int, n_bytes as int, n as int);
                    }
                }
                return None;
            }
            let old_byte = bytes[idx];
            let ghost before = bytes@;
            bytes.set(idx, old_byte | (1u8 << (7 - t)));
            proof {
                assert forall|b: int, s: int| 0 <= b < len && 0 <= s < 8 implies (#[trigger] bit_of(bytes@[b], s) <==> exists|q: int|
                    0 <= q < p + 1 && signs@[q] && #[trigger] sign_slot(q, dim as int, n_bytes as int) == b
                        && sign_shift(q, dim as int) == s) by {
                    if b == idx as int {
                        lemma_set_bit(old_byte, t, s as u8);
                    } else {
                        assert(bytes@[b] == before[b]);
                    }
                    if exists|q: int| 0 <= q < p + 1 && signs@[q] && #[trigger] sign_slot(q, dim as int, n_bytes as int) == b
                        && sign_shift(q, dim as int) == s {
                        let q = choose|q: int| 0 <= q < p + 1 && signs@[q] && #[trigger] sign_slot(q, dim as int, n_bytes as int) == b
                            && sign_shift(q, dim as int) == s;
                        if q < p {
                            assert(exists|q: int| 0 <= q < p && signs@[q] && #[trigger] sign_slot(q, dim as int, n_bytes as int) == b
                                && sign_shift(q, dim as int) == s);
                        }
                    }
                }
            }
        } else {
            proof {
                assert forall|b: int, s: int| 0 <= b < len && 0 <= s < 8 implies (#[trigger] bit_of(bytes@[b], s) <==> exists|q: int|
                    0 <= q < p + 1 && signs@[q] && #[trigger] sign_slot(q, dim as int, n_bytes as int) == b
                        && sign_shift(q, dim as int) == s) by {
                    if exists|q: int| 0 <= q < p + 1 && signs@[q] && #[trigger] sign_slot(q, dim as int, n_bytes as int) == b
                        && sign_shift(q, dim as int) == s {
                        let q = choose|q: int| 0 <= q < p + 1 && signs@[q] && #[trigger] sign_slot(q, dim as int, n_bytes as int) == b
                            && sign_shift(q, dim as int) == s;
                        assert(q < p);
                    }
                }
            }
        }
        p += 1;
    }
    proof {
        let nb = n_bytes as int;
        let d = dim as int;
        assert forall|b: int, t: int| 0 <= b < len && 0 <= t < 8 implies (#[trigger] bit_of(bytes@[b], t) <==> written(signs@, d, nb, b, t)) by {}
        if dim % 8 == 0 {
            assert forall|q: int| 0 <= q < signs.len() implies #[trigger] packed_bit(bytes@, q) == signs@[q] by {
                lemma_slot_facts(q, d, nb);
                assert(q < n * d) by (nonlinear_arith)
                    requires q < signs.len(), n == signs.len() / dim, d == dim, 0 <= q, d > 0, signs.len() % dim == 0;
                lemma_slot_bound(q, d, nb, n as int);
                assert(bit_of(bytes@[q / 8], q % 8) <==> written(signs@, d, nb, q / 8, q % 8));
                if written(signs@, d, nb, q / 8, q % 8) {
                    let p = choose|p: int| 0 <= p < signs.len() && signs@[p] && #[trigger] sign_slot(p, d, nb) == q / 8 && sign_shift(p, d) == q % 8;
                    lemma_slot_facts(p, d, nb);
                    assert(p == q) by (nonlinear_arith)
                        requires p / 8 == q / 8, p % 8 == q % 8, 0 <= p, 0 <= q;
                }
                if signs@[q] {
                    assert(sign_slot(q, d, nb) == q / 8);
                }
            }
        }
    }
    Some(bytes)
}

/// Reads the sign stored for coordinate `j` of vector `vec_idx` when each
/// vector takes `n_bytes` bytes.
pub fn sign_bit(bytes: &Vec<u8>, vec_idx: usize, n_bytes: usize, j: usize) -> (b: bool)
    requires
        j < 8 * n_bytes,
        (vec_idx + 1) * n_bytes <= bytes.len(),
    ensures
        b == bit_of(bytes@[vec_idx * n_bytes + j / 8], (j % 8) as int),
{
    proof {
        assert(vec_idx * n_bytes + j / 8 < (vec_idx + 1) * n_bytes) by (nonlinear_arith)
            requires
                j < 8 * n_bytes;
    }
    let byte = bytes[vec_idx * n_bytes + j / 8];
    let t = (j % 8) as u8;
    (byte >> (7 - t)) & 1 == 1
}

/// What `sign_bit` reads back is what `pack_sign_rows` stored: with `dim = 8 *
/// n_bytes` signs per vector, coordinate `j` of vector `i` is flat position
/// `i * dim + j`.
pub proof fn lemma_sign_roundtrip(signs: Seq<bool>, bytes: Seq<u8>, n_bytes: nat, i: nat, j: nat)
    requires
        bytes.len() * 8 == signs.len(),
        forall|p: int| 0 <= p < signs.len() ==> #[trigger] packed_bit(bytes, p) == signs[p],
        j < 8 * n_bytes,
        (i + 1) * n_bytes <= bytes.len(),
    ensures
        bit_of(bytes[(i * n_bytes + j / 8) as int], (j % 8) as int) == signs[(i * (8 * n_bytes) + j) as int],
{
    let p = i * (8 * n_bytes) + j;
    assert(p / 8 == i * n_bytes + j / 8 && p % 8 == j % 8 && p < signs.len()) by (nonlinear_arith)
        requires
            p == i * (8 * n_bytes) + j,
            j < 8 * n_bytes,
            (i + 1) * n_bytes <= bytes.len(),
            bytes.len() * 8 == signs.len(),
    ;
    assert(packed_bit(bytes, p as int) == signs[p as int]);
}

/// The quantization level the encoder picks for a coordinate: one past the
/// last boundary among the first `l` that the coordinate exceeds, or 0.
pub open spec fn level_below(val_key: u32, boundary_keys: Seq<u32>, l: int) -> nat
    decreases l,
{
    if l <= 0 {
        0
    } else if val_key > boundary_keys[l - 1] {
        l as nat
    } else {
        level_below(val_key, boundary_keys, l - 1)
    }
}

/// Scans all boundaries and records the level above the last one exceeded.
pub fn quantize_level(val_key: u32, boundary_keys: &Vec<u32>) -> (level: usize)
    ensures
        level == level_below(val_key, boundary_keys@, boundary_keys.len() as int),
        level <= boundary_keys.len(),
{
    let mut level: usize = 0;
    let mut l: usize = 0;
    while l < boundary_keys.len()
        invariant
            l <= boundary_keys.len(),
            level == level_below(val_key, boundary_keys@, l as int),
            level <= l,
        decreases boundary_keys.len() - l,
    {
        if val_key > boundary_keys[l] {
            level = l + 1;
        }
        l += 1;
    }
    level
}

proof fn lemma_level_below_bound(v: u32, b: Seq<u32>, l: int)
    requires
        0 <= l <= b.len(),
    ensures
        level_below(v, b, l) <= l,
        forall|i: int| level_below(v, b, l) <= i < l ==> v <= #[trigger] b[i],
        level_below(v, b, l) > 0 ==> v > b[level_below(v, b, l) - 1],
    decreases l,
{
    if l > 0 {
        lemma_level_below_bound(v, b, l - 1);
    }
}

/// With ascending boundaries, a larger value never gets a lower level.
pub proof fn lemma_quantize_monotone(v1: u32, v2: u32, b: Seq<u32>)
    requires
        v1 <= v2,
        forall|i: int, j: int| 0 <= i <= j < b.len() ==> b[i] <= b[j],
    ensures
        level_below(v1, b, b.len() as int) <= level_below(v2, b, b.len() as int),
{
    let l1 = level_below(v1, b, b.len() as int);
    let l2 = level_below(v2, b, b.len() as int);
    lemma_level_below_bound(v1, b, b.len() as int);
    lemma_level_below_bound(v2, b, b.len() as int);
    if l1 > l2 {
        assert(v1 > b[l1 - 1]);
        assert(v2 <= b[l1 - 1]);
    }
}

/// The seed of the projection-sign generator: one past the seed of the
/// rotation, so the two draw different streams.
pub fn sign_seed(seed: u64) -> (r: u64)
    requires
        seed < u64::MAX,
    ensures
        r == seed + 1,
{
    seed + 1
}

/// Turns coin flips into projection signs: heads gives +1, tails -1.
pub fn signs_from_coins(coins: &Vec<bool>) -> (signs: Vec<i8>)
    ensures
        signs.len() == coins.len(),
        forall|j: int| 0 <= j < coins.len() ==> #[trigger] signs@[j] == if coins@[j] { 1i8 } else { -1i8 },
{
    let mut signs: Vec<i8> = Vec::with_capacity(coins.len());
    let mut j: usize = 0;
    while j < coins.len()
        invariant
            j <= coins.len(),
            signs.len() == j,
            forall|i: int| 0 <= i < j ==> #[trigger] signs@[i] == if coins@[i] { 1i8 } else { -1i8 },
        decreases coins.len() - j,
    {
        if coins[j] {
            signs.push(1);
        } else {
            signs.push(-1);
        }
        j += 1;
    }
    signs
}

/// The shared ±1 projection signs: `dim` fair coin flips from a generator
/// seeded with `sign_seed(seed)`, turned into signs by `signs_from_coins`.
/// Which way each coin falls is up to the generator.
pub fn random_signs(dim: usize, seed: u64) -> (signs: Vec<i8>)
    requires
        seed < u64::MAX,
    ensures
        signs.len() == dim,
        forall|j: int| 0 <= j < dim ==> #[trigger] signs@[j] == 1 || signs@[j] == -1,
{
    let mut rng = seeded_rng(sign_seed(seed));
    let mut coins: Vec<bool> = Vec::with_capacity(dim);
    let mut j: usize = 0;
    while j < dim
        invariant
            j <= dim,
            coins.len() == j,
        decreases dim - j,
    {
        coins.push(fair_coin(&mut rng));
        j += 1;
    }
    signs_from_coins(&coins)
}

/// Memory held by the residual-sign correction: sign bits, one scale per
/// vector, the shared signs, and the `dim x dim` rotation.
pub fn qjl_memory_bytes(n_vectors: usize, dim: usize) -> (r: usize)
    requires
        n_vectors * (dim / 8) + n_vectors * 4 + dim + dim * dim * 4 <= usize::MAX,
    ensures
        r == n_vectors * (dim / 8) + n_vectors * 4 + dim + dim * dim * 4,
{
    let n_bytes = dim / 8;
    proof {
        assert(n_vectors * n_bytes <= usize::MAX && n_vectors * 4 <= usize::MAX && dim * dim <= usize::MAX
            && dim * dim * 4 <= usize::MAX) by (nonlinear_arith)
            requires
                n_vectors * n_bytes + n_vectors * 4 + dim + dim * dim * 4 <= usize::MAX;
    }
    n_vectors * n_bytes + n_vectors * 4 + dim + dim * dim * 4
}

} // verus!
