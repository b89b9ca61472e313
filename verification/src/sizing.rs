use vstd::prelude::*;

verus! {

/// Why a set of vectors cannot be indexed.
#[derive(Debug, Clone, Copy, PartialEq, Eq)]
pub enum BuildError {
    /// The flat length is not a multiple of the dimensionality.
    RaggedLength,
    /// There is no vector.
    NoVectors,
    /// The multi-assignment factor is zero.
    MultiAssignZero,
    /// The multi-assignment factor exceeds the number of partitions.
    MultiAssignTooLarge,
}

/// The number of vectors in a flat buffer of `len` values of dimension
/// `dim`, if the buffer holds a whole, non-zero number of them.
pub fn vector_count(len: usize, dim: usize) -> (r: Result<usize, BuildError>)
    requires
        dim > 0,
    ensures
        len % dim != 0 ==> r == Err::<usize, BuildError>(BuildError::RaggedLength),
        len % dim == 0 && len / dim == 0 ==> r == Err::<usize, BuildError>(BuildError::NoVectors),
        len % dim == 0 && len / dim > 0 ==> r == Ok::<usize, BuildError>(len / dim),
{
    let n = len / dim;
    proof {
        vstd::arithmetic::div_mod::lemma_fundamental_div_mod(len as int, dim as int);
        vstd::arithmetic::mul::lemma_mul_is_commutative(n as int, dim as int);
        assert(n * dim <= len);
    }
    if len != n * dim {
        Err(BuildError::RaggedLength)
    } else if n == 0 {
        Err(BuildError::NoVectors)
    } else {
        Ok(n)
    }
}

/// Checks a build of the routed index: a whole, non-zero number of vectors
/// and a multi-assignment factor between 1 and the number of partitions, in
/// that order of precedence.
pub fn check_build(len: usize, dim: usize, multi_assign: usize, n_partitions: usize) -> (r: Result<usize, BuildError>)
    requires
        dim > 0,
    ensures
        len % dim != 0 ==> r == Err::<usize, BuildError>(BuildError::RaggedLength),
        len % dim == 0 && len / dim == 0 ==> r == Err::<usize, BuildError>(BuildError::NoVectors),
        len % dim == 0 && len / dim > 0 && multi_assign == 0 ==> r == Err::<usize, BuildError>(BuildError::MultiAssignZero),
        len % dim == 0 && len / dim > 0 && multi_assign > 0 && multi_assign > n_partitions ==> r
            == Err::<usize, BuildError>(BuildError::MultiAssignTooLarge),
        len % dim == 0 && len / dim > 0 && 1 <= multi_assign <= n_partitions ==> r == Ok::<usize, BuildError>(len / dim),
{
    let n = match vector_count(len, dim) {
        Ok(n) => n,
        Err(e) => return Err(e),
    };
    if multi_assign < 1 {
        Err(BuildError::MultiAssignZero)
    } else if multi_assign > n_partitions {
        Err(BuildError::MultiAssignTooLarge)
    } else {
        Ok(n)
    }
}

/// Approximate memory of the routed index: `bit_width`-bit codes for every
/// stored copy, a 4-byte norm and an 8-byte id per copy, and the 4-byte
/// centroid coordinates.
pub open spec fn spec_index_memory(total_stored: int, dim: int, bit_width: int, n_partitions: int) -> int {
    total_stored * dim * bit_width / 8 + total_stored * 4 + n_partitions * dim * 4 + total_stored * 8
}

pub fn index_memory_bytes(total_stored: usize, dim: usize, bit_width: usize, n_partitions: usize) -> (r: usize)
    requires
        total_stored * dim <= usize::MAX,
        total_stored * dim * bit_width <= usize::MAX,
        n_partitions * dim <= usize::MAX,
        spec_index_memory(total_stored as int, dim as int, bit_width as int, n_partitions as int)
            <= usize::MAX,
        n_partitions * dim * 4 <= usize::MAX,
    ensures
        r == spec_index_memory(total_stored as int, dim as int, bit_width as int, n_partitions as int),
{
    let codes = total_stored * dim * bit_width / 8;
    let centroids = n_partitions * dim * 4;
    let norms = total_stored * 4;
    let ids = total_stored * 8;
    codes + norms + centroids + ids
}

/// The code bytes of the memory estimate grow with the bit width: more bits
/// per coordinate never lower the estimate.
pub proof fn lemma_memory_grows_with_bit_width(total_stored: nat, dim: nat, bw1: nat, bw2: nat, n_partitions: nat)
    requires
        bw1 <= bw2,
    ensures
        spec_index_memory(total_stored as int, dim as int, bw1 as int, n_partitions as int)
            <= spec_index_memory(total_stored as int, dim as int, bw2 as int, n_partitions as int),
{
    assert(total_stored * dim * bw1 <= total_stored * dim * bw2) by (nonlinear_arith)
        requires bw1 <= bw2;
    assert((total_stored * dim * bw1) / 8 <= (total_stored * dim * bw2) / 8) by (nonlinear_arith)
        requires total_stored * dim * bw1 <= total_stored * dim * bw2;
}

/// Eight bits per coordinate cost exactly one byte per coordinate of every
/// stored copy over an estimate without codes, and each bit of width costs
/// `total_stored * dim / 8` bytes when that count is whole.
pub proof fn lemma_memory_code_bytes(total_stored: nat, dim: nat, bit_width: nat, n_partitions: nat)
    ensures
        spec_index_memory(total_stored as int, dim as int, 8, n_partitions as int)
            - spec_index_memory(total_stored as int, dim as int, 0, n_partitions as int) == total_stored * dim,
        (total_stored * dim) % 8 == 0 ==> spec_index_memory(total_stored as int, dim as int, bit_width as int, n_partitions as int)
            - spec_index_memory(total_stored as int, dim as int, 0, n_partitions as int) == bit_width * ((total_stored * dim) / 8),
        spec_index_memory(total_stored as int, dim as int, 4, n_partitions as int)
            - spec_index_memory(total_stored as int, dim as int, 2, n_partitions as int) >= (total_stored * dim) / 4,
{
    let c = total_stored * dim;
    assert(c * 8 / 8 == c) by (nonlinear_arith);
    assert(c * 0 / 8 == 0) by (nonlinear_arith);
    if c % 8 == 0 {
        assert(c * bit_width / 8 == bit_width * (c / 8)) by (nonlinear_arith)
            requires c % 8 == 0;
    }
    assert(c * 4 / 8 - c * 2 / 8 >= c / 4) by (nonlinear_arith);
}

/// Without codes the estimate is twelve bytes per stored copy (norm and id)
/// plus four bytes per centroid coordinate; an index storing nothing costs
/// exactly its centroids.
pub proof fn lemma_memory_without_codes(total_stored: nat, dim: nat, bit_width: nat, n_partitions: nat)
    ensures
        spec_index_memory(total_stored as int, dim as int, 0, n_partitions as int) == 12 * total_stored + 4 * (n_partitions * dim),
        spec_index_memory(0, dim as int, bit_width as int, n_partitions as int) == 4 * (n_partitions * dim),
{
    assert(total_stored * dim * 0 / 8 == 0) by (nonlinear_arith);
    assert(0 * dim * bit_width / 8 == 0) by (nonlinear_arith);
    assert(n_partitions * dim * 4 == 4 * (n_partitions * dim)) by (nonlinear_arith);
}

/// Approximate number of vectors one query scans: the probed fraction of the
/// partitions applied to the vector count (zero for an empty index).
pub fn vectors_scanned_per_query(n_vectors: usize, n_probe: usize, n_partitions: usize) -> (r: usize)
    requires
        n_vectors == 0 || (n_partitions > 0 && n_vectors * n_probe <= usize::MAX),
    ensures
        r == if n_vectors == 0 { 0 } else { (n_vectors * n_probe) / (n_partitions as int) },
{
    if n_vectors == 0 {
        0
    } else {
        n_vectors * n_probe / n_partitions
    }
}

} // verus!
