//! The decisions of the verifier: the degree bounds it works at, the size of the composition
//! randomizer tree it accepts, and the DEEP-ALI comparison of the composition's out-of-domain
//! value with the value the trace samples determine.
use vstd::prelude::*;
use crate::qm31::{QM31, group_qm31};
use crate::qm31_algebra::q_sub;
use crate::circle::CirclePoint;
use crate::domain::{pow2, InvalidCanonicCosetLogSize};
use crate::stark_proof::{StarkProof, PcsConfig, single_samples, mask_recombined, mask_chunk_evals};

verus! {

broadcast use group_qm31;

/// The index of the preprocessed trace among the committed trees.
pub const PREPROCESSED_TRACE_IDX: usize = 0;

/// The composition polynomial is committed as `2^COMPOSITION_LOG_SPLIT` chunks.
pub const COMPOSITION_LOG_SPLIT: u32 = 1;

/// The configured lifting log size is below the least the committed trees need.
#[derive(Clone, Copy, Debug, PartialEq, Eq, Structural)]
pub struct InvalidLiftingLogSizeError {
    pub lifting_log_size: u32,
    pub min_log_size: u32,
}

/// Why a proof was rejected.
#[derive(Clone, Debug)]
pub enum VerificationError {
    InvalidStructure(String),
    OodsNotMatching,
    ProofOfWork,
    InvalidLiftingLogSize(InvalidLiftingLogSizeError),
    InvalidCanonicCosetLogSize(InvalidCanonicCosetLogSize),
}

/// The lifting log size: the configured one, which must be at least `min_log_size`, or
/// `min_log_size` when none is configured.
pub open spec fn lifting_log_size_spec(config: PcsConfig, min_log_size: u32) -> Result<u32, InvalidLiftingLogSizeError> {
    match config.lifting_log_size {
        Some(l) => if l < min_log_size {
            Err(InvalidLiftingLogSizeError { lifting_log_size: l, min_log_size })
        } else {
            Ok(l)
        },
        None => Ok(min_log_size),
    }
}

/// The log size every committed tree is lifted to.
pub fn try_get_lifting_log_size(config: &PcsConfig, min_log_size: u32) -> (r: Result<u32, InvalidLiftingLogSizeError>)
    ensures
        r == lifting_log_size_spec(*config, min_log_size),
{
    match config.lifting_log_size {
        Some(l) => if l < min_log_size {
            Err(InvalidLiftingLogSizeError { lifting_log_size: l, min_log_size })
        } else {
            Ok(l)
        },
        None => Ok(min_log_size),
    }
}

/// The degree bounds the verifier works at: the split composition's log degree bound, the
/// lifting log size, and the largest log degree bound of a committed polynomial, the lifting
/// log size less the blowup. When all preprocessed columns are included, the lifting must reach
/// the preprocessed trace's height.
pub open spec fn verifier_degree_bounds_spec(
    composition_log_degree_bound: u32,
    config: PcsConfig,
    include_all_preprocessed_columns: bool,
    preprocessed_trace_height: u32,
) -> Result<(u32, u32, u32), InvalidLiftingLogSizeError> {
    let split = (composition_log_degree_bound - COMPOSITION_LOG_SPLIT) as u32;
    let blowup = config.fri_config.log_blowup_factor;
    match lifting_log_size_spec(config, (split + blowup) as u32) {
        Err(e) => Err(e),
        Ok(lifting) => if include_all_preprocessed_columns && lifting < preprocessed_trace_height {
            Err(InvalidLiftingLogSizeError { lifting_log_size: lifting, min_log_size: preprocessed_trace_height })
        } else {
            Ok((split, lifting, (lifting - blowup) as u32))
        },
    }
}

/// When the lifting log size is found, the degree bounds are refused exactly when all
/// preprocessed columns are included and the lifting stays below the preprocessed trace's
/// height; a lifting at or above that height gives the split bound, the lifting and the lifting
/// less the blowup.
pub proof fn lemma_degree_bounds_accept_reaching_lifting(
    composition_log_degree_bound: u32,
    config: PcsConfig,
    include_all_preprocessed_columns: bool,
    preprocessed_trace_height: u32,
)
    ensures
        ({
            let split = (composition_log_degree_bound - COMPOSITION_LOG_SPLIT) as u32;
            let blowup = config.fri_config.log_blowup_factor;
            let b = verifier_degree_bounds_spec(
                composition_log_degree_bound,
                config,
                include_all_preprocessed_columns,
                preprocessed_trace_height,
            );
            lifting_log_size_spec(config, (split + blowup) as u32) matches Ok(l) ==> {
                &&& (!include_all_preprocessed_columns || l >= preprocessed_trace_height) ==> b == Ok::<
                    (u32, u32, u32),
                    InvalidLiftingLogSizeError,
                >((split, l, (l - blowup) as u32))
                &&& (include_all_preprocessed_columns && l < preprocessed_trace_height) ==> b is Err
            }
        }),
{
}

/// The degree bounds of `verifier_degree_bounds_spec`; a lifting error is the proof's
/// `InvalidLiftingLogSize`.
pub fn verifier_degree_bounds(
    composition_log_degree_bound: u32,
    config: &PcsConfig,
    include_all_preprocessed_columns: bool,
    preprocessed_trace_height: u32,
) -> (r: Result<(u32, u32, u32), VerificationError>)
    requires
        composition_log_degree_bound >= COMPOSITION_LOG_SPLIT,
        composition_log_degree_bound - COMPOSITION_LOG_SPLIT + config.fri_config.log_blowup_factor <= u32::MAX,
    ensures
        match verifier_degree_bounds_spec(
            composition_log_degree_bound,
            *config,
            include_all_preprocessed_columns,
            preprocessed_trace_height,
        ) {
            Ok(b) => r == Ok::<(u32, u32, u32), VerificationError>(b),
            Err(e) => (r matches Err(VerificationError::InvalidLiftingLogSize(e2)) && e2 == e),
        },
        ({
            let split = (composition_log_degree_bound - COMPOSITION_LOG_SPLIT) as u32;
            let blowup = config.fri_config.log_blowup_factor;
            lifting_log_size_spec(*config, (split + blowup) as u32) matches Ok(l) ==> {
                &&& (r is Ok <==> (!include_all_preprocessed_columns || l >= preprocessed_trace_height))
                &&& r is Ok ==> r == Ok::<(u32, u32, u32), VerificationError>((split, l, (l - blowup) as u32))
            }
        }),
{
    proof {
        lemma_degree_bounds_accept_reaching_lifting(
            composition_log_degree_bound,
            *config,
            include_all_preprocessed_columns,
            preprocessed_trace_height,
        );
    }
    let split = composition_log_degree_bound - COMPOSITION_LOG_SPLIT;
    let blowup = config.fri_config.log_blowup_factor;
    let lifting = match try_get_lifting_log_size(config, split + blowup) {
        Ok(l) => l,
        Err(e) => return Err(VerificationError::InvalidLiftingLogSize(e)),
    };
    if include_all_preprocessed_columns && lifting < preprocessed_trace_height {
        return Err(
            VerificationError::InvalidLiftingLogSize(
                InvalidLiftingLogSizeError { lifting_log_size: lifting, min_log_size: preprocessed_trace_height },
            ),
        );
    }
    Ok((split, lifting, lifting - blowup))
}

/// The out-of-domain checks' preconditions on the recombination.
pub open spec fn recombination_ok(max_log_degree_bound: u32) -> bool {
    max_log_degree_bound >= 1
}

/// The DEEP-ALI check of a proof without masking: the composition's value recombined from the
/// last tree's samples must equal `expected`, the value the trace samples determine.
pub fn check_composition_oods<H>(
    proof: &StarkProof<H>,
    oods_point: CirclePoint<QM31>,
    max_log_degree_bound: u32,
    expected: QM31,
) -> (r: Result<(), VerificationError>)
    requires
        recombination_ok(max_log_degree_bound),
    ensures
        ({
            let trees = proof.0.sampled_values@;
            let shaped = trees.len() > 0 && trees.last()@.len() == 8 && single_samples(trees.last()@, 8);
            let value = mask_recombined(trees.last()@, oods_point@, max_log_degree_bound as nat, 1);
            &&& (r is Ok) <==> (shaped && value == expected@)
            &&& (r matches Err(VerificationError::InvalidStructure(_))) <==> !shaped
            &&& (r matches Err(VerificationError::OodsNotMatching)) <==> (shaped && value != expected@)
        }),
{
    proof { vstd::arithmetic::power2::lemma2_to64(); }
    let value = match proof.extract_composition_oods_eval(oods_point, max_log_degree_bound, COMPOSITION_LOG_SPLIT) {
        Some(v) => v,
        None => return Err(VerificationError::InvalidStructure("Unexpected sampled_values structure".to_owned())),
    };
    if value != expected {
        return Err(VerificationError::OodsNotMatching);
    }
    Ok(())
}

/// The composition randomizer's tree must be large enough for the randomizer to resist
/// reconstruction: its `2^(split + 1)` coefficients must be at least `1 + n_queries + 1`.
pub fn check_randomizer_tree_size(split_composition_log_degree_bound: u32, n_queries: usize) -> (r: Result<
    (),
    VerificationError,
>)
    requires
        split_composition_log_degree_bound + COMPOSITION_LOG_SPLIT < 64,
        pow2((split_composition_log_degree_bound + COMPOSITION_LOG_SPLIT) as nat) <= usize::MAX,
        n_queries + 2 <= usize::MAX,
    ensures
        r is Ok <==> pow2((split_composition_log_degree_bound + COMPOSITION_LOG_SPLIT) as nat) >= n_queries + 2,
        r is Err ==> r matches Err(VerificationError::InvalidStructure(_)),
{
    let required_t_dimension = 1 + n_queries + 1;
    let log_space = split_composition_log_degree_bound + COMPOSITION_LOG_SPLIT;
    proof {
        vstd::arithmetic::power2::lemma2_to64();
        vstd::bits::lemma_u64_shl_is_mul(1, log_space as u64);
        vstd::arithmetic::power2::lemma_pow2_pos(log_space as nat);
    }
    let t_coefficient_space: usize = (1u64 << log_space) as usize;
    if t_coefficient_space < required_t_dimension {
        return Err(
            VerificationError::InvalidStructure(
                "composition randomizer tree too small for reconstruction-resistance".to_owned(),
            ),
        );
    }
    Ok(())
}

/// The DEEP-ALI check of a masked proof: the masked composition's value `q'(z)`, recombined
/// from the second-to-last tree, less the randomizer's value `t(z)` from the last tree, must
/// equal `expected`.
pub fn check_composition_oods_zk<H>(
    proof: &StarkProof<H>,
    oods_point: CirclePoint<QM31>,
    max_log_degree_bound: u32,
    expected: QM31,
) -> (r: Result<(), VerificationError>)
    requires
        recombination_ok(max_log_degree_bound),
    ensures
        ({
            let trees = proof.0.sampled_values@;
            let q_mask = if trees.len() >= 2 { trees[trees.len() - 2]@ } else { Seq::empty() };
            let t_mask = trees.last()@;
            let shaped = trees.len() >= 2 && q_mask.len() >= 8 && single_samples(q_mask, 8) && t_mask.len() >= 4
                && single_samples(t_mask, 4);
            let value = q_sub(
                mask_recombined(q_mask, oods_point@, max_log_degree_bound as nat, 1),
                mask_chunk_evals(t_mask, 1)[0],
            );
            &&& (r is Ok) <==> (shaped && value == expected@)
            &&& (r matches Err(VerificationError::InvalidStructure(_))) <==> !shaped
            &&& (r matches Err(VerificationError::OodsNotMatching)) <==> (shaped && value != expected@)
        }),
{
    proof { vstd::arithmetic::power2::lemma2_to64(); }
    let q_value = match proof.extract_composition_oods_eval_zk(oods_point, max_log_degree_bound, COMPOSITION_LOG_SPLIT) {
        Some(v) => v,
        None => return Err(VerificationError::InvalidStructure("Unexpected sampled_values structure".to_owned())),
    };
    let t_value = match proof.extract_t_oods_eval() {
        Some(v) => v,
        None => return Err(VerificationError::InvalidStructure("Unexpected sampled_values structure".to_owned())),
    };
    let difference = q_value - t_value;
    assert(difference@ == q_sub(q_value@, t_value@));
    if difference != expected {
        return Err(VerificationError::OodsNotMatching);
    }
    Ok(())
}

} // verus!
