//! The proof container, the extraction of the composition's out-of-domain value from it, and
//! the estimate of its size.
use vstd::prelude::*;
use vstd::layout::size_of;
use crate::m31::M31;
use crate::qm31::{QM31, SECURE_EXTENSION_DEGREE, q_from_partial, group_qm31};
use crate::qm31_algebra::Q4;
use crate::circle::{CirclePoint, QPoint};
use crate::poly::{fold_spec, views, pairwise, recombine_factors, lemma_fold_bottom_level, circle_eval, coeff_chunk};
use crate::circle::{qp_canon, qp_on_circle, qp_repeated_double};
use crate::qm31_algebra::{q_add, q_mul};
use crate::secure_poly::{secure_coeffs_eval, secure_chunk_evals, lemma_secure_split_k_recombines};
use crate::domain::pow2;

verus! {

broadcast use group_qm31;

/// Recombines the `2^k` composition chunk evaluations (in split order) into the composition's
/// evaluation at `point`: a bottom-up fold whose level `i` combines adjacent pairs `a + m_i b`
/// with `m_i = (2^(chunk_log_degree_bound - 1 + i) point).x`.
pub fn recombine_split_evals(
    chunk_evals: &[QM31],
    point: CirclePoint<QM31>,
    chunk_log_degree_bound: u32,
    k: u32,
) -> (r: QM31)
    requires
        k < 64,
        chunk_evals@.len() == pow2(k as nat),
        k == 0 || chunk_log_degree_bound >= 1,
        chunk_log_degree_bound as int + k as int <= u32::MAX as int + 2,
    ensures
        r@ == fold_spec(views(chunk_evals@), recombine_factors(point@, chunk_log_degree_bound as nat, k as nat)),
{
    let ghost factors = recombine_factors(point@, chunk_log_degree_bound as nat, k as nat);
    let mut level: Vec<QM31> = Vec::new();
    let mut c: usize = 0;
    while c < chunk_evals.len()
        invariant
            c <= chunk_evals@.len(),
            level@ == chunk_evals@.take(c as int),
        decreases chunk_evals@.len() - c,
    {
        level.push(chunk_evals[c]);
        c = c + 1;
        assert(level@ =~= chunk_evals@.take(c as int));
    }
    assert(level@ =~= chunk_evals@);
    assert(factors.take(k as int) =~= factors);
    let mut i: u32 = 0;
    while i < k
        invariant
            k < 64,
            i <= k,
            k == 0 || chunk_log_degree_bound >= 1,
            chunk_log_degree_bound as int + k as int <= u32::MAX as int + 2,
            factors == recombine_factors(point@, chunk_log_degree_bound as nat, k as nat),
            level@.len() == pow2((k - i) as nat),
            fold_spec(views(chunk_evals@), factors) == fold_spec(views(level@), factors.take(k - i)),
        decreases k - i,
    {
        let m = point.repeated_double(chunk_log_degree_bound - 1 + i).x;
        let ghost f = factors.take(k - i);
        let ghost old_level = views(level@);
        proof {
            vstd::arithmetic::power2::lemma_pow2_unfold((k - i) as nat);
            lemma_fold_bottom_level(old_level, f);
            assert(f[f.len() - 1] == m@);
            assert(f.take(f.len() - 1) =~= factors.take(k - i - 1));
        }
        let half = level.len() / 2;
        let level_len = level.len();
        assert(level_len == 2 * half);
        let mut next: Vec<QM31> = Vec::new();
        let mut t: usize = 0;
        while t < half
            invariant
                level_len == level@.len(),
                level_len == 2 * half,
                half == level@.len() / 2,
                t <= half,
                next@.len() == t,
                forall|u: int| 0 <= u < t ==> #[trigger] next@[u]@ == pairwise(views(level@), m@)[u],
            decreases half - t,
        {
            next.push(level[2 * t] + m * level[2 * t + 1]);
            proof {
                crate::qm31_algebra::lemma_q_mul_comm(m@, level@[2 * t + 1]@);
            }
            t = t + 1;
        }
        proof {
            vstd::arithmetic::power2::lemma_pow2_unfold((k - i) as nat);
        }
        assert(views(next@) =~= pairwise(old_level, m@));
        level = next;
        i = i + 1;
    }
    proof {
        vstd::arithmetic::power2::lemma2_to64();
        assert(factors.take(0).len() == 0);
    }
    level[0]
}

// ---------------------------------------------------------------------------
// The proof container.
// ---------------------------------------------------------------------------

/// Parameters of FRI.
#[derive(Clone, Copy, Debug, PartialEq, Eq, Structural)]
pub struct FriConfig {
    pub log_blowup_factor: u32,
    pub log_last_layer_degree_bound: u32,
    pub n_queries: usize,
}

/// Parameters of the polynomial commitment scheme.
#[derive(Clone, Copy, Debug, PartialEq, Eq, Structural)]
pub struct PcsConfig {
    pub pow_bits: u32,
    pub fri_config: FriConfig,
    pub lifting_log_size: Option<u32>,
}

/// The authentication paths of a Merkle decommitment: the sibling hashes, of type `H`.
#[derive(Clone, Debug)]
pub struct MerkleDecommitment<H> {
    pub hash_witness: Vec<H>,
}

/// One FRI layer: the values the verifier cannot compute, their decommitment and the layer's
/// commitment.
#[derive(Clone, Debug)]
pub struct FriLayerProof<H> {
    pub fri_witness: Vec<QM31>,
    pub decommitment: MerkleDecommitment<H>,
    pub commitment: H,
}

/// A univariate polynomial over the secure field, by its coefficients.
#[derive(Clone, Debug)]
pub struct LinePoly {
    pub coeffs: Vec<QM31>,
}

/// The FRI proof: the first layer, the inner layers and the last layer's polynomial.
#[derive(Clone, Debug)]
pub struct FriProof<H> {
    pub first_layer: FriLayerProof<H>,
    pub inner_layers: Vec<FriLayerProof<H>>,
    pub last_layer_poly: LinePoly,
}

/// The proof of the commitment scheme: per tree, the commitment, the out-of-domain samples
/// (per column, per sample point), the decommitment and the queried values; the proof of
/// work, the FRI proof and the configuration.
#[derive(Clone, Debug)]
pub struct CommitmentSchemeProof<H> {
    pub commitments: Vec<H>,
    pub sampled_values: Vec<Vec<Vec<QM31>>>,
    pub decommitments: Vec<MerkleDecommitment<H>>,
    pub queried_values: Vec<Vec<M31>>,
    pub proof_of_work: u64,
    pub fri_proof: FriProof<H>,
    pub config: PcsConfig,
}

/// A STARK proof, with Merkle hashes of type `H`.
#[derive(Clone, Debug)]
pub struct StarkProof<H>(pub CommitmentSchemeProof<H>);

/// A STARK proof together with the auxiliary data (of type `A`) the prover keeps beside it.
#[derive(Clone, Debug)]
pub struct ExtendedStarkProof<H, A> {
    pub proof: StarkProof<H>,
    pub aux: A,
}

// ---------------------------------------------------------------------------
// Reading the composition's out-of-domain values.
// ---------------------------------------------------------------------------

/// Every one of the first `n` columns holds exactly one sample.
pub open spec fn single_samples(mask: Seq<Vec<QM31>>, n: int) -> bool {
    forall|i: int| 0 <= i < n ==> (#[trigger] mask[i])@.len() == 1
}

/// The values of the `n_chunks` secure chunks whose coordinate columns are the first
/// `4 n_chunks` columns of `mask`, each holding one sample.
pub open spec fn mask_chunk_evals(mask: Seq<Vec<QM31>>, n_chunks: nat) -> Seq<Q4> {
    Seq::new(
        n_chunks,
        |c: int|
            q_from_partial(mask[4 * c]@[0]@, mask[4 * c + 1]@[0]@, mask[4 * c + 2]@[0]@, mask[4 * c + 3]@[0]@),
    )
}

/// The composition's value recombined from the chunk samples in `mask`.
pub open spec fn mask_recombined(mask: Seq<Vec<QM31>>, point: QPoint, chunk_log: nat, k: nat) -> Q4 {
    fold_spec(mask_chunk_evals(mask, pow2(k)), recombine_factors(point, chunk_log, k))
}

/// Combines the single samples of the first `4 n_chunks` columns into chunk values, or `None`
/// when a column does not hold exactly one sample.
fn collect_chunk_evals(mask: &Vec<Vec<QM31>>, n_chunks: usize) -> (r: Option<Vec<QM31>>)
    requires
        4 * n_chunks <= mask@.len(),
        4 * n_chunks <= usize::MAX,
    ensures
        r is Some <==> single_samples(mask@, 4 * n_chunks),
        r matches Some(v) ==> views(v@) == mask_chunk_evals(mask@, n_chunks as nat),
{
    let mut i: usize = 0;
    while i < 4 * n_chunks
        invariant
            4 * n_chunks <= mask@.len(),
            4 * n_chunks <= usize::MAX,
            i <= 4 * n_chunks,
            single_samples(mask@, i as int),
        decreases 4 * n_chunks - i,
    {
        if mask[i].len() != 1 {
            return None;
        }
        i = i + 1;
    }
    let mut out: Vec<QM31> = Vec::new();
    let mut c: usize = 0;
    while c < n_chunks
        invariant
            4 * n_chunks <= mask@.len(),
            4 * n_chunks <= usize::MAX,
            single_samples(mask@, 4 * n_chunks),
            c <= n_chunks,
            out@.len() == c,
            forall|j: int| 0 <= j < c ==> (#[trigger] out@[j])@ == mask_chunk_evals(mask@, n_chunks as nat)[j],
        decreases n_chunks - c,
    {
        assert(mask@[4 * c as int]@.len() == 1);
        assert(mask@[4 * c + 1]@.len() == 1);
        assert(mask@[4 * c + 2]@.len() == 1);
        assert(mask@[4 * c + 3]@.len() == 1);
        let v = QM31::from_partial_evals(
            [mask[4 * c][0], mask[4 * c + 1][0], mask[4 * c + 2][0], mask[4 * c + 3][0]],
        );
        out.push(v);
        c = c + 1;
    }
    assert(views(out@) =~= mask_chunk_evals(mask@, n_chunks as nat));
    Some(out)
}

/// Column `i` of `mask` holds the value at `z` of coordinate `i % 4` of chunk `i / 4` of the
/// `2^k` chunks that `split_k` cuts from the secure polynomial with coordinate coefficients `c`
/// of log size `n`.
pub open spec fn mask_holds_chunk_values(mask: Seq<Vec<QM31>>, c: [Seq<M31>; 4], n: nat, k: nat, z: QPoint) -> bool {
    forall|i: int|
        0 <= i < 4 * pow2(k) ==> (#[trigger] mask[i])@.len() == 1 && mask[i]@[0]@ == circle_eval(
            coeff_chunk(c[i % 4], n, k, i / 4),
            (n - k) as nat,
            z,
        )
}

/// The recombination reads back the composition's value: when the mask holds the samples of
/// the split chunks of a polynomial at a point of the circle, the recombined value is the
/// polynomial's value there.
pub proof fn lemma_recombined_mask_is_composition_value(
    mask: Seq<Vec<QM31>>,
    c: [Seq<M31>; 4],
    n: nat,
    k: nat,
    z: QPoint,
)
    requires
        k < n,
        c[0].len() == pow2(n),
        c[1].len() == pow2(n),
        c[2].len() == pow2(n),
        c[3].len() == pow2(n),
        qp_canon(z),
        qp_on_circle(z),
        mask_holds_chunk_values(mask, c, n, k, z),
    ensures
        mask_recombined(mask, z, (n - k) as nat, k) == secure_coeffs_eval(c, n, z),
{
    lemma_secure_split_k_recombines(c, n, k, z);
    assert forall|ch: int| 0 <= ch < pow2(k) implies #[trigger] mask_chunk_evals(mask, pow2(k))[ch] == secure_chunk_evals(c, n, k, z)[ch] by {
        assert((4 * ch) % 4 == 0 && (4 * ch) / 4 == ch);
        assert((4 * ch + 1) % 4 == 1 && (4 * ch + 1) / 4 == ch);
        assert((4 * ch + 2) % 4 == 2 && (4 * ch + 2) / 4 == ch);
        assert((4 * ch + 3) % 4 == 3 && (4 * ch + 3) / 4 == ch);
        assert(mask[4 * ch]@[0]@ == circle_eval(coeff_chunk(c[0], n, k, ch), (n - k) as nat, z));
        assert(mask[4 * ch + 1]@[0]@ == circle_eval(coeff_chunk(c[1], n, k, ch), (n - k) as nat, z));
        assert(mask[4 * ch + 2]@[0]@ == circle_eval(coeff_chunk(c[2], n, k, ch), (n - k) as nat, z));
        assert(mask[4 * ch + 3]@[0]@ == circle_eval(coeff_chunk(c[3], n, k, ch), (n - k) as nat, z));
    }
    assert(mask_chunk_evals(mask, pow2(k)) =~= secure_chunk_evals(c, n, k, z));
}

impl<H> StarkProof<H> {
    /// The composition's out-of-domain value, recombined from the last tree's samples: the
    /// `4 * 2^composition_log_split` coordinate columns of the split chunks, each with one
    /// sample. `None` when the samples do not have that shape.
    pub fn extract_composition_oods_eval(
        &self,
        oods_point: CirclePoint<QM31>,
        max_log_degree_bound: u32,
        composition_log_split: u32,
    ) -> (r: Option<QM31>)
        requires
            composition_log_split < 64,
            4 * pow2(composition_log_split as nat) <= usize::MAX,
            composition_log_split > 0 ==> max_log_degree_bound >= 1,
            max_log_degree_bound as int + composition_log_split as int <= u32::MAX as int + 2,
        ensures
            ({
                let trees = self.0.sampled_values@;
                let n_cols = 4 * pow2(composition_log_split as nat);
                &&& r is Some <==> (trees.len() > 0 && trees.last()@.len() == n_cols && single_samples(
                    trees.last()@,
                    n_cols as int,
                ))
                &&& r matches Some(v) ==> v@ == mask_recombined(
                    trees.last()@,
                    oods_point@,
                    max_log_degree_bound as nat,
                    composition_log_split as nat,
                )
            }),
    {
        let trees = &self.0.sampled_values;
        if trees.len() == 0 {
            return None;
        }
        let composition_mask = &trees[trees.len() - 1];
        proof {
            vstd::arithmetic::power2::lemma2_to64();
            vstd::arithmetic::power2::lemma_pow2_pos(composition_log_split as nat);
            vstd::bits::lemma_u64_shl_is_mul(1, composition_log_split as u64);
        }
        let n_chunks: usize = (1u64 << composition_log_split) as usize;
        let n_cols = n_chunks * SECURE_EXTENSION_DEGREE;
        if composition_mask.len() != n_cols {
            return None;
        }
        let chunk_evals = match collect_chunk_evals(composition_mask, n_chunks) {
            Some(v) => v,
            None => return None,
        };
        assert(views(chunk_evals@).len() == chunk_evals@.len());
        Some(recombine_split_evals(chunk_evals.as_slice(), oods_point, max_log_degree_bound, composition_log_split))
    }

    /// The masked composition's out-of-domain value `q'(z)`, recombined from the first
    /// `4 * 2^composition_log_split` columns of the second-to-last tree (the last tree holds the
    /// randomizer; a trailing salt column is not read). `None` when there are fewer than two
    /// trees, fewer columns, or a read column does not hold exactly one sample.
    pub fn extract_composition_oods_eval_zk(
        &self,
        oods_point: CirclePoint<QM31>,
        max_log_degree_bound: u32,
        composition_log_split: u32,
    ) -> (r: Option<QM31>)
        requires
            composition_log_split < 64,
            4 * pow2(composition_log_split as nat) <= usize::MAX,
            composition_log_split > 0 ==> max_log_degree_bound >= 1,
            max_log_degree_bound as int + composition_log_split as int <= u32::MAX as int + 2,
        ensures
            ({
                let trees = self.0.sampled_values@;
                let n_cols = 4 * pow2(composition_log_split as nat);
                let mask = if trees.len() >= 2 { trees[trees.len() - 2]@ } else { Seq::empty() };
                &&& r is Some <==> (trees.len() >= 2 && mask.len() >= n_cols && single_samples(mask, n_cols as int))
                &&& r matches Some(v) ==> v@ == mask_recombined(
                    mask,
                    oods_point@,
                    max_log_degree_bound as nat,
                    composition_log_split as nat,
                )
            }),
    {
        let trees = &self.0.sampled_values;
        if trees.len() < 2 {
            return None;
        }
        let composition_mask = &trees[trees.len() - 2];
        proof {
            vstd::arithmetic::power2::lemma2_to64();
            vstd::arithmetic::power2::lemma_pow2_pos(composition_log_split as nat);
            vstd::bits::lemma_u64_shl_is_mul(1, composition_log_split as u64);
        }
        let n_chunks: usize = (1u64 << composition_log_split) as usize;
        let n_cols = n_chunks * SECURE_EXTENSION_DEGREE;
        if composition_mask.len() < n_cols {
            return None;
        }
        let chunk_evals = match collect_chunk_evals(composition_mask, n_chunks) {
            Some(v) => v,
            None => return None,
        };
        assert(views(chunk_evals@).len() == chunk_evals@.len());
        Some(recombine_split_evals(chunk_evals.as_slice(), oods_point, max_log_degree_bound, composition_log_split))
    }

    /// The composition randomizer's out-of-domain value `t(z)`, combined from the first four
    /// columns of the last tree (its unsplit coordinates; a trailing salt column is not read).
    /// `None` when there is no tree, it has fewer than four columns, or one of them does not
    /// hold exactly one sample.
    pub fn extract_t_oods_eval(&self) -> (r: Option<QM31>)
        ensures
            ({
                let trees = self.0.sampled_values@;
                let mask = trees.last()@;
                &&& r is Some <==> (trees.len() > 0 && mask.len() >= 4 && single_samples(mask, 4))
                &&& r matches Some(v) ==> v@ == mask_chunk_evals(mask, 1)[0]
            }),
    {
        let trees = &self.0.sampled_values;
        if trees.len() == 0 {
            return None;
        }
        let t_mask = &trees[trees.len() - 1];
        if t_mask.len() < SECURE_EXTENSION_DEGREE {
            return None;
        }
        match collect_chunk_evals(t_mask, 1) {
            Some(v) => {
                assert(views(v@).len() == v@.len());
                assert(views(v@)[0] == v@[0]@);
                Some(v[0])
            },
            None => None,
        }
    }
}

// ---------------------------------------------------------------------------
// Size estimates.
// ---------------------------------------------------------------------------

/// The sum of a sequence of sizes.
pub open spec fn sum_nat(s: Seq<nat>) -> nat
    decreases s.len(),
{
    if s.len() == 0 {
        0
    } else {
        sum_nat(s.drop_last()) + s.last()
    }
}

/// Adding the next size to a prefix sum; a prefix sum is at most the whole sum.
pub proof fn lemma_sum_nat_step(s: Seq<nat>, i: int)
    requires
        0 <= i < s.len(),
    ensures
        sum_nat(s.take(i + 1)) == sum_nat(s.take(i)) + s[i],
        sum_nat(s.take(i + 1)) <= sum_nat(s),
    decreases s.len() - i,
{
    assert(s.take(i + 1).drop_last() =~= s.take(i));
    if i + 1 == s.len() {
        assert(s.take(i + 1) =~= s);
    } else {
        lemma_sum_nat_step(s, i + 1);
    }
}

/// The sum of pointwise sums is the sum of the sums.
pub proof fn lemma_sum_nat_add(a: Seq<nat>, b: Seq<nat>)
    requires
        a.len() == b.len(),
    ensures
        sum_nat(Seq::new(a.len(), |i: int| a[i] + b[i])) == sum_nat(a) + sum_nat(b),
    decreases a.len(),
{
    let c = Seq::new(a.len(), |i: int| a[i] + b[i]);
    if a.len() > 0 {
        lemma_sum_nat_add(a.drop_last(), b.drop_last());
        assert(c.drop_last() =~= Seq::new(a.drop_last().len(), |i: int| a.drop_last()[i] + b.drop_last()[i]));
    }
}

/// The size of `n` values of type `T`.
pub open spec fn elems_size<T>(n: nat) -> nat {
    size_of::<T>() * n
}

/// The size in bytes of a base field element, held in one `u32`.
pub const BASE_FIELD_BYTES: usize = 4;

/// The size in bytes of a secure field element, four base field elements.
pub const SECURE_FIELD_BYTES: usize = 16;

/// The size of a sequence of columns of field elements of `bytes` bytes each.
pub open spec fn columns_size<T>(cols: Seq<Vec<T>>, bytes: nat) -> nat {
    sum_nat(cols.map_values(|c: Vec<T>| bytes * c@.len()))
}

/// The size of a sequence of trees of columns of field elements of `bytes` bytes each.
pub open spec fn trees_size<T>(trees: Seq<Vec<Vec<T>>>, bytes: nat) -> nat {
    sum_nat(trees.map_values(|t: Vec<Vec<T>>| columns_size::<T>(t@, bytes)))
}

/// The size of Merkle decommitments: their sibling hashes.
pub open spec fn decommitments_size<H>(d: Seq<MerkleDecommitment<H>>) -> nat {
    sum_nat(d.map_values(|x: MerkleDecommitment<H>| elems_size::<H>(x.hash_witness@.len())))
}

/// The size of a FRI layer's witness values.
pub open spec fn layer_samples_size<H>(l: FriLayerProof<H>) -> nat {
    (SECURE_FIELD_BYTES as nat) * l.fri_witness@.len()
}

/// The size of a FRI layer's hashes: its decommitment and its commitment.
pub open spec fn layer_hashes_size<H>(l: FriLayerProof<H>) -> nat {
    elems_size::<H>(l.decommitment.hash_witness@.len()) + size_of::<H>()
}

pub open spec fn layer_size<H>(l: FriLayerProof<H>) -> nat {
    layer_samples_size(l) + layer_hashes_size(l)
}

pub open spec fn layers_samples_size<H>(s: Seq<FriLayerProof<H>>) -> nat {
    sum_nat(s.map_values(|l: FriLayerProof<H>| layer_samples_size(l)))
}

pub open spec fn layers_hashes_size<H>(s: Seq<FriLayerProof<H>>) -> nat {
    sum_nat(s.map_values(|l: FriLayerProof<H>| layer_hashes_size(l)))
}

pub open spec fn layers_size<H>(s: Seq<FriLayerProof<H>>) -> nat {
    sum_nat(s.map_values(|l: FriLayerProof<H>| layer_size(l)))
}

/// The size of a FRI proof.
pub open spec fn fri_size<H>(f: FriProof<H>) -> nat {
    layer_size(f.first_layer) + layers_size(f.inner_layers@) + (SECURE_FIELD_BYTES as nat) * f.last_layer_poly.coeffs@.len()
}

/// The estimated size in bytes of a commitment scheme proof: the sizes of all its values.
pub open spec fn proof_size<H>(p: CommitmentSchemeProof<H>) -> nat {
    elems_size::<H>(p.commitments@.len()) + trees_size(p.sampled_values@, SECURE_FIELD_BYTES as nat)
        + decommitments_size(p.decommitments@) + columns_size(p.queried_values@, BASE_FIELD_BYTES as nat) + size_of::<u64>() + fri_size(p.fri_proof) + size_of::<PcsConfig>()
}

/// Size estimates in bytes for the parts of a proof.
#[derive(Clone, Copy, Debug, PartialEq, Eq, Structural)]
pub struct StarkProofSizeBreakdown {
    pub oods_samples: usize,
    pub queries_values: usize,
    pub fri_samples: usize,
    pub fri_decommitments: usize,
    pub trace_decommitments: usize,
}

impl M31 {
    /// The size in bytes of a base field element: that of the `u32` that holds it.
    pub fn size_estimate(&self) -> (r: usize)
        ensures
            r == BASE_FIELD_BYTES,
    {
        proof {
            broadcast use vstd::layout::layout_of_primitives;
        }
        core::mem::size_of::<u32>()
    }
}

impl QM31 {
    /// The size in bytes of a secure field element: four base field elements.
    pub fn size_estimate(&self) -> (r: usize)
        ensures
            r == SECURE_FIELD_BYTES,
    {
        proof {
            broadcast use vstd::layout::layout_of_primitives;
        }
        SECURE_EXTENSION_DEGREE * core::mem::size_of::<u32>()
    }
}

/// The size of `n` values of type `T`.
fn elems_size_exec<T>(n: usize) -> (r: usize)
    requires
        elems_size::<T>(n as nat) <= usize::MAX,
    ensures
        r == elems_size::<T>(n as nat),
{
    core::mem::size_of::<T>() * n
}

/// The size of `n` field elements of `bytes` bytes each.
fn values_size_exec(bytes: usize, n: usize) -> (r: usize)
    requires
        bytes * n <= usize::MAX,
    ensures
        r == bytes * n,
{
    bytes * n
}

/// The size of a sequence of columns.
fn columns_size_exec<T>(cols: &Vec<Vec<T>>, bytes: usize) -> (r: usize)
    requires
        columns_size::<T>(cols@, bytes as nat) <= usize::MAX,
    ensures
        r == columns_size::<T>(cols@, bytes as nat),
{
    let ghost m = cols@.map_values(|c: Vec<T>| (bytes as nat) * c@.len());
    let mut acc: usize = 0;
    let mut i: usize = 0;
    while i < cols.len()
        invariant
            i <= cols@.len(),
            m == cols@.map_values(|c: Vec<T>| (bytes as nat) * c@.len()),
            sum_nat(m) <= usize::MAX,
            acc == sum_nat(m.take(i as int)),
        decreases cols@.len() - i,
    {
        proof { lemma_sum_nat_step(m, i as int); }
        acc = acc + values_size_exec(bytes, cols[i].len());
        i = i + 1;
    }
    assert(m.take(cols@.len() as int) =~= m);
    acc
}

/// The size of a sequence of trees of columns.
fn trees_size_exec<T>(trees: &Vec<Vec<Vec<T>>>, bytes: usize) -> (r: usize)
    requires
        trees_size::<T>(trees@, bytes as nat) <= usize::MAX,
    ensures
        r == trees_size::<T>(trees@, bytes as nat),
{
    let ghost m = trees@.map_values(|t: Vec<Vec<T>>| columns_size::<T>(t@, bytes as nat));
    let mut acc: usize = 0;
    let mut i: usize = 0;
    while i < trees.len()
        invariant
            i <= trees@.len(),
            m == trees@.map_values(|t: Vec<Vec<T>>| columns_size::<T>(t@, bytes as nat)),
            sum_nat(m) <= usize::MAX,
            acc == sum_nat(m.take(i as int)),
        decreases trees@.len() - i,
    {
        proof { lemma_sum_nat_step(m, i as int); }
        acc = acc + columns_size_exec(&trees[i], bytes);
        i = i + 1;
    }
    assert(m.take(trees@.len() as int) =~= m);
    acc
}

/// The size of a sequence of decommitments.
fn decommitments_size_exec<H>(d: &Vec<MerkleDecommitment<H>>) -> (r: usize)
    requires
        decommitments_size::<H>(d@) <= usize::MAX,
    ensures
        r == decommitments_size::<H>(d@),
{
    let ghost m = d@.map_values(|x: MerkleDecommitment<H>| elems_size::<H>(x.hash_witness@.len()));
    let mut acc: usize = 0;
    let mut i: usize = 0;
    while i < d.len()
        invariant
            i <= d@.len(),
            m == d@.map_values(|x: MerkleDecommitment<H>| elems_size::<H>(x.hash_witness@.len())),
            sum_nat(m) <= usize::MAX,
            acc == sum_nat(m.take(i as int)),
        decreases d@.len() - i,
    {
        proof { lemma_sum_nat_step(m, i as int); }
        acc = acc + elems_size_exec::<H>(d[i].hash_witness.len());
        i = i + 1;
    }
    assert(m.take(d@.len() as int) =~= m);
    acc
}

/// The witness and hash sizes of a sequence of FRI layers.
fn layers_sizes_exec<H>(s: &Vec<FriLayerProof<H>>) -> (r: (usize, usize))
    requires
        layers_size::<H>(s@) <= usize::MAX,
    ensures
        r.0 == layers_samples_size::<H>(s@),
        r.1 == layers_hashes_size::<H>(s@),
        r.0 + r.1 == layers_size::<H>(s@),
{
    let ghost ms = s@.map_values(|l: FriLayerProof<H>| layer_samples_size(l));
    let ghost mh = s@.map_values(|l: FriLayerProof<H>| layer_hashes_size(l));
    let ghost m = s@.map_values(|l: FriLayerProof<H>| layer_size(l));
    proof {
        lemma_sum_nat_add(ms, mh);
        assert(m =~= Seq::new(ms.len(), |i: int| ms[i] + mh[i]));
    }
    let mut samples: usize = 0;
    let mut hashes: usize = 0;
    let mut i: usize = 0;
    while i < s.len()
        invariant
            i <= s@.len(),
            ms == s@.map_values(|l: FriLayerProof<H>| layer_samples_size(l)),
            mh == s@.map_values(|l: FriLayerProof<H>| layer_hashes_size(l)),
            m == s@.map_values(|l: FriLayerProof<H>| layer_size(l)),
            sum_nat(m) <= usize::MAX,
            samples == sum_nat(ms.take(i as int)),
            hashes == sum_nat(mh.take(i as int)),
            samples + hashes == sum_nat(m.take(i as int)),
        decreases s@.len() - i,
    {
        proof {
            lemma_sum_nat_step(ms, i as int);
            lemma_sum_nat_step(mh, i as int);
            lemma_sum_nat_step(m, i as int);
        }
        let layer = &s[i];
        let ws = values_size_exec(SECURE_FIELD_BYTES, layer.fri_witness.len());
        let hs = elems_size_exec::<H>(layer.decommitment.hash_witness.len()) + core::mem::size_of::<H>();
        samples = samples + ws;
        hashes = hashes + hs;
        i = i + 1;
    }
    assert(ms.take(s@.len() as int) =~= ms);
    assert(mh.take(s@.len() as int) =~= mh);
    assert(m.take(s@.len() as int) =~= m);
    (samples, hashes)
}

impl<H> StarkProof<H> {
    /// The estimated size in bytes of the proof.
    pub fn size_estimate(&self) -> (r: usize)
        requires
            proof_size(self.0) <= usize::MAX,
        ensures
            r == proof_size(self.0),
    {
        let p = &self.0;
        let commitments = elems_size_exec::<H>(p.commitments.len());
        let sampled = trees_size_exec(&p.sampled_values, SECURE_FIELD_BYTES);
        let decommitments = decommitments_size_exec(&p.decommitments);
        let queried = columns_size_exec(&p.queried_values, BASE_FIELD_BYTES);
        let pow = core::mem::size_of::<u64>();
        let f = &p.fri_proof;
        let first = values_size_exec(SECURE_FIELD_BYTES, f.first_layer.fri_witness.len())
            + elems_size_exec::<H>(f.first_layer.decommitment.hash_witness.len()) + core::mem::size_of::<H>();
        let (inner_samples, inner_hashes) = layers_sizes_exec(&f.inner_layers);
        let last = values_size_exec(SECURE_FIELD_BYTES, f.last_layer_poly.coeffs.len());
        let fri = first + (inner_samples + inner_hashes) + last;
        let config = core::mem::size_of::<PcsConfig>();
        commitments + sampled + decommitments + queried + pow + fri + config
    }

    /// The estimated sizes in bytes of the parts of the proof: the out-of-domain samples, the
    /// queried values, the FRI values, the FRI hashes and the trace commitments with their
    /// decommitments.
    pub fn size_breakdown_estimate(&self) -> (r: StarkProofSizeBreakdown)
        requires
            proof_size(self.0) <= usize::MAX,
        ensures
            r.oods_samples == trees_size(self.0.sampled_values@, SECURE_FIELD_BYTES as nat),
            r.queries_values == columns_size(self.0.queried_values@, BASE_FIELD_BYTES as nat),
            r.fri_samples == SECURE_FIELD_BYTES * self.0.fri_proof.last_layer_poly.coeffs@.len()
                + layers_samples_size(self.0.fri_proof.inner_layers@)
                + layer_samples_size(self.0.fri_proof.first_layer),
            r.fri_decommitments == layers_hashes_size(self.0.fri_proof.inner_layers@)
                + layer_hashes_size(self.0.fri_proof.first_layer),
            r.trace_decommitments == elems_size::<H>(self.0.commitments@.len()) + decommitments_size(
                self.0.decommitments@,
            ),
    {
        let p = &self.0;
        let f = &p.fri_proof;
        let (inner_samples, inner_hashes) = layers_sizes_exec(&f.inner_layers);
        let first_samples = values_size_exec(SECURE_FIELD_BYTES, f.first_layer.fri_witness.len());
        let first_hashes = elems_size_exec::<H>(f.first_layer.decommitment.hash_witness.len()) + core::mem::size_of::<H>();
        StarkProofSizeBreakdown {
            oods_samples: trees_size_exec(&p.sampled_values, SECURE_FIELD_BYTES),
            queries_values: columns_size_exec(&p.queried_values, BASE_FIELD_BYTES),
            fri_samples: values_size_exec(SECURE_FIELD_BYTES, f.last_layer_poly.coeffs.len()) + inner_samples + first_samples,
            fri_decommitments: inner_hashes + first_hashes,
            trace_decommitments: elems_size_exec::<H>(p.commitments.len()) + decommitments_size_exec(&p.decommitments),
        }
    }
}

/// The parts of the size breakdown add up to the size estimate, less the proof of work and the
/// configuration.
pub proof fn lemma_size_breakdown_sums<H>(p: CommitmentSchemeProof<H>)
    ensures
        ({
            let f = p.fri_proof;
            let oods_samples = trees_size(p.sampled_values@, SECURE_FIELD_BYTES as nat);
            let queries_values = columns_size(p.queried_values@, BASE_FIELD_BYTES as nat);
            let fri_samples = SECURE_FIELD_BYTES * f.last_layer_poly.coeffs@.len() + layers_samples_size(f.inner_layers@)
                + layer_samples_size(f.first_layer);
            let fri_decommitments = layers_hashes_size(f.inner_layers@) + layer_hashes_size(f.first_layer);
            let trace_decommitments = elems_size::<H>(p.commitments@.len()) + decommitments_size(p.decommitments@);
            proof_size(p) == oods_samples + queries_values + fri_samples + fri_decommitments + trace_decommitments
                + size_of::<u64>() + size_of::<PcsConfig>()
        }),
{
    let s = p.fri_proof.inner_layers@;
    let ms = s.map_values(|l: FriLayerProof<H>| layer_samples_size(l));
    let mh = s.map_values(|l: FriLayerProof<H>| layer_hashes_size(l));
    let m = s.map_values(|l: FriLayerProof<H>| layer_size(l));
    lemma_sum_nat_add(ms, mh);
    assert(m =~= Seq::new(ms.len(), |i: int| ms[i] + mh[i]));
}

/// With one split the recombination is `evals[0] + (2^(chunk_log - 1) z).x * evals[1]`, the
/// `split_at_mid` identity.
pub proof fn lemma_single_split_recombination(evals: Seq<Q4>, z: QPoint, chunk_log: nat)
    requires
        evals.len() == 2,
        chunk_log >= 1,
    ensures
        fold_spec(evals, recombine_factors(z, chunk_log, 1)) == q_add(
            evals[0],
            q_mul(evals[1], qp_repeated_double(z, (chunk_log - 1) as nat).0),
        ),
{
    let f = recombine_factors(z, chunk_log, 1);
    assert(evals.take(1) =~= seq![evals[0]]);
    assert(evals.skip(1) =~= seq![evals[1]]);
    assert(f.drop_first().len() == 0);
    assert(f[0] == qp_repeated_double(z, (chunk_log - 1) as nat).0);
    assert(fold_spec(evals.take(1), f.drop_first()) == evals[0]);
    assert(fold_spec(evals.skip(1), f.drop_first()) == evals[1]);
    assert(evals.len() / 2 == 1);
}

} // verus!
