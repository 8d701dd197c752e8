//! The decisions of the prover: the degree bound it commits at, the checks of the masked path
//! (randomizer budget, lifting), the masking of the composition, and the sanity check of the
//! composition's out-of-domain value before the proof is returned.
use vstd::prelude::*;
use rand::rngs::StdRng;
use crate::qm31::{QM31, group_qm31};
use crate::qm31_algebra::q_sub;
use crate::circle::CirclePoint;
use crate::domain::{pow2, InvalidCanonicCosetLogSize};
use crate::secure_poly::SecureCirclePoly;
use crate::stark_proof::{StarkProof, PcsConfig, single_samples, mask_recombined, mask_chunk_evals};
use crate::stark_verifier::{
    COMPOSITION_LOG_SPLIT, InvalidLiftingLogSizeError, lifting_log_size_spec, try_get_lifting_log_size,
    recombination_ok,
};
use crate::statistical_zk::{
    WitnessMaskError, composition_randomizer_budget, required_composition_randomizer_dimension,
    sample_composition_randomizer, add_composition_randomizer, is_masked_sum, randomizer_per_chunk,
    composition_randomizer_coeffs, composition_randomizer_draws,
};
use crate::m31::M31;

verus! {

broadcast use group_qm31;

/// Why proving failed.
#[derive(Clone, Copy, Debug, PartialEq, Eq, Structural)]
pub enum ProvingError {
    ConstraintsNotSatisfied,
    InvalidLiftingLogSize(InvalidLiftingLogSizeError),
    InvalidCanonicCosetLogSize(InvalidCanonicCosetLogSize),
    WitnessMask(WitnessMaskError),
}

/// The largest log degree bound of a committed polynomial: the lifting log size (at least the
/// split composition's domain log size, and at least the preprocessed trace's when all
/// preprocessed columns are included) less the blowup.
pub fn prover_degree_bound(
    config: &PcsConfig,
    split_composition_log_size: u32,
    include_all_preprocessed_columns: bool,
    preprocessed_log_size: u32,
) -> (r: Result<u32, ProvingError>)
    requires
        lifting_log_size_spec(*config, split_composition_log_size) matches Ok(l) ==> l
            >= config.fri_config.log_blowup_factor,
    ensures
        match lifting_log_size_spec(*config, split_composition_log_size) {
            Err(e) => r == Err::<u32, ProvingError>(ProvingError::InvalidLiftingLogSize(e)),
            Ok(l) => r == (if include_all_preprocessed_columns && l < preprocessed_log_size {
                Err(
                    ProvingError::InvalidLiftingLogSize(
                        InvalidLiftingLogSizeError { lifting_log_size: l, min_log_size: preprocessed_log_size },
                    ),
                )
            } else {
                Ok((l - config.fri_config.log_blowup_factor) as u32)
            }),
        },
{
    let lifting = match try_get_lifting_log_size(config, split_composition_log_size) {
        Ok(l) => l,
        Err(e) => return Err(ProvingError::InvalidLiftingLogSize(e)),
    };
    if include_all_preprocessed_columns && lifting < preprocessed_log_size {
        return Err(
            ProvingError::InvalidLiftingLogSize(
                InvalidLiftingLogSizeError { lifting_log_size: lifting, min_log_size: preprocessed_log_size },
            ),
        );
    }
    Ok(lifting - config.fri_config.log_blowup_factor)
}

/// The prover's sanity check: the composition's value recombined from the proof's samples must
/// equal `expected`, the value the trace samples determine.
pub fn check_composition_oods<H>(
    proof: &StarkProof<H>,
    oods_point: CirclePoint<QM31>,
    max_log_degree_bound: u32,
    expected: QM31,
) -> (r: Result<(), ProvingError>)
    requires
        recombination_ok(max_log_degree_bound),
        ({
            let trees = proof.0.sampled_values@;
            trees.len() > 0 && trees.last()@.len() == 8 && single_samples(trees.last()@, 8)
        }),
    ensures
        ({
            let trees = proof.0.sampled_values@;
            let value = mask_recombined(trees.last()@, oods_point@, max_log_degree_bound as nat, 1);
            r == (if value == expected@ {
                Ok::<(), ProvingError>(())
            } else {
                Err(ProvingError::ConstraintsNotSatisfied)
            })
        }),
{
    proof { vstd::arithmetic::power2::lemma2_to64(); }
    let value = match proof.extract_composition_oods_eval(oods_point, max_log_degree_bound, COMPOSITION_LOG_SPLIT) {
        Some(v) => v,
        None => return Err(ProvingError::ConstraintsNotSatisfied),
    };
    if value != expected {
        return Err(ProvingError::ConstraintsNotSatisfied);
    }
    Ok(())
}

/// Fails unless the composition randomizer's dimension reaches the budget for one
/// out-of-domain point and `n_queries` queries at the composition's split.
pub fn check_randomizer_budget(randomizer_dimension: usize, n_queries: usize) -> (r: Result<(), ProvingError>)
    requires
        (3 + pow2(COMPOSITION_LOG_SPLIT as nat)) * (1 + n_queries) + 3 <= usize::MAX,
    ensures
        ({
            let required = composition_randomizer_budget(1, n_queries as int, COMPOSITION_LOG_SPLIT as nat);
            r == (if randomizer_dimension < required {
                Err(
                    ProvingError::WitnessMask(
                        WitnessMaskError::CompositionRandomizerBudgetTooSmall {
                            dimension: randomizer_dimension,
                            required: required as usize,
                        },
                    ),
                )
            } else {
                Ok::<(), ProvingError>(())
            })
        }),
{
    proof { vstd::arithmetic::power2::lemma2_to64(); }
    let required = required_composition_randomizer_dimension(1, n_queries, COMPOSITION_LOG_SPLIT);
    if randomizer_dimension < required {
        return Err(
            ProvingError::WitnessMask(
                WitnessMaskError::CompositionRandomizerBudgetTooSmall { dimension: randomizer_dimension, required },
            ),
        );
    }
    Ok(())
}

/// The largest log degree bound on the masked path. The lifting must place every tree at the
/// height of the unsplit randomizer, `composition_log_size + log_blowup`; any other lifting is
/// refused.
pub fn zk_degree_bound(config: &PcsConfig, composition_log_size: u32) -> (r: Result<u32, ProvingError>)
    requires
        composition_log_size >= COMPOSITION_LOG_SPLIT,
        composition_log_size + config.fri_config.log_blowup_factor <= u32::MAX,
    ensures
        ({
            let blowup = config.fri_config.log_blowup_factor;
            let split = (composition_log_size - COMPOSITION_LOG_SPLIT + blowup) as u32;
            let full = (composition_log_size + blowup) as u32;
            match lifting_log_size_spec(*config, split) {
                Err(e) => r == Err::<u32, ProvingError>(ProvingError::InvalidLiftingLogSize(e)),
                Ok(l) => r == (if l != full {
                    Err(
                        ProvingError::InvalidLiftingLogSize(
                            InvalidLiftingLogSizeError { lifting_log_size: l, min_log_size: full },
                        ),
                    )
                } else {
                    Ok::<u32, ProvingError>(composition_log_size)
                }),
            }
        }),
{
    let log_blowup = config.fri_config.log_blowup_factor;
    let split_composition_log_size = composition_log_size - COMPOSITION_LOG_SPLIT + log_blowup;
    let lifting = match try_get_lifting_log_size(config, split_composition_log_size) {
        Ok(l) => l,
        Err(e) => return Err(ProvingError::InvalidLiftingLogSize(e)),
    };
    let max_log_degree_bound = lifting - log_blowup;
    let randomizer_lifting_log_size = composition_log_size + log_blowup;
    if lifting != randomizer_lifting_log_size {
        return Err(
            ProvingError::InvalidLiftingLogSize(
                InvalidLiftingLogSizeError { lifting_log_size: lifting, min_log_size: randomizer_lifting_log_size },
            ),
        );
    }
    Ok(max_log_degree_bound)
}

/// Draws the composition randomizer `t` and masks the composition: returns `(q + t, t)`.
pub fn mask_composition(composition: SecureCirclePoly, randomizer_dimension: usize, rng: &mut StdRng) -> (r: Result<
    (SecureCirclePoly, SecureCirclePoly),
    ProvingError,
>)
    requires
        composition.0[0].spec_log_size() < 64,
        pow2(composition.0[0].spec_log_size()) <= usize::MAX,
        randomizer_dimension <= pow2(composition.0[0].spec_log_size()) ==> COMPOSITION_LOG_SPLIT
            <= composition.0[0].spec_log_size(),
        forall|j: int| 0 <= j < 4 ==> (#[trigger] composition.0[j]).spec_log_size() == composition.0[0].spec_log_size(),
    ensures
        r is Err <==> randomizer_dimension > pow2(composition.0[0].spec_log_size()),
        r matches Err(e) ==> e == ProvingError::WitnessMask(
            WitnessMaskError::CompositionRandomizerDimensionTooLarge {
                dimension: randomizer_dimension,
                coeff_count: pow2(composition.0[0].spec_log_size()) as usize,
            },
        ),
        r is Err ==> *final(rng) == *old(rng),
        r matches Ok((masked, t)) ==> {
            let ls = composition.0[0].spec_log_size();
            &&& is_masked_sum(composition, t, masked)
            &&& exists|draws: Seq<M31>|
                draws.len() == composition_randomizer_draws(ls, COMPOSITION_LOG_SPLIT as nat, randomizer_dimension as nat)
                    && forall|j: int| 0 <= j < 4 ==> {
                    &&& (#[trigger] t.0[j]).spec_log_size() == ls
                    &&& t.0[j].spec_coeffs() == composition_randomizer_coeffs(
                        ls,
                        COMPOSITION_LOG_SPLIT as nat,
                        randomizer_per_chunk(ls, COMPOSITION_LOG_SPLIT as nat, randomizer_dimension as nat),
                        draws,
                        j,
                    )
                }
        },
{
    let composition_log_size = composition.log_size();
    let t = match sample_composition_randomizer(composition_log_size, COMPOSITION_LOG_SPLIT, randomizer_dimension, rng) {
        Ok(t) => t,
        Err(e) => return Err(ProvingError::WitnessMask(e)),
    };
    let masked = match add_composition_randomizer(composition, &t) {
        Ok(m) => m,
        Err(e) => return Err(ProvingError::WitnessMask(e)),
    };
    Ok((masked, t))
}

/// The prover's sanity check on the masked path: `q'(z) - t(z)`, read back from the proof's
/// samples, must equal `expected`; a proof without those samples fails it too.
pub fn check_composition_oods_zk<H>(
    proof: &StarkProof<H>,
    oods_point: CirclePoint<QM31>,
    max_log_degree_bound: u32,
    expected: QM31,
) -> (r: Result<(), ProvingError>)
    requires
        recombination_ok(max_log_degree_bound),
    ensures
        ({
            let trees = proof.0.sampled_values@;
            let q_mask = if trees.len() >= 2 { trees[trees.len() - 2]@ } else { Seq::empty() };
            let t_mask = trees.last()@;
            let shaped = trees.len() >= 2 && q_mask.len() >= 8 && single_samples(q_mask, 8) && t_mask.len() >= 4
                && single_samples(t_mask, 4);
            let value = q_sub(
                mask_recombined(q_mask, oods_point@, max_log_degree_bound as nat, 1),
                mask_chunk_evals(t_mask, 1)[0],
            );
            r == (if shaped && value == expected@ {
                Ok::<(), ProvingError>(())
            } else {
                Err(ProvingError::ConstraintsNotSatisfied)
            })
        }),
{
    proof { vstd::arithmetic::power2::lemma2_to64(); }
    let q_value = match proof.extract_composition_oods_eval_zk(oods_point, max_log_degree_bound, COMPOSITION_LOG_SPLIT) {
        Some(v) => v,
        None => return Err(ProvingError::ConstraintsNotSatisfied),
    };
    let t_value = match proof.extract_t_oods_eval() {
        Some(v) => v,
        None => return Err(ProvingError::ConstraintsNotSatisfied),
    };
    let difference = q_value - t_value;
    assert(difference@ == q_sub(q_value@, t_value@));
    if difference != expected {
        return Err(ProvingError::ConstraintsNotSatisfied);
    }
    Ok(())
}

} // verus!
