use rand::rngs::StdRng;
use rand::SeedableRng;
use stwo_zk::circle::CirclePoint;
use stwo_zk::m31::M31;
use stwo_zk::poly::CircleCoefficients;
use stwo_zk::qm31::QM31;
use stwo_zk::secure_poly::SecureCirclePoly;
use stwo_zk::stark_proof::{
    CommitmentSchemeProof, ExtendedStarkProof, FriConfig, FriLayerProof, FriProof, LinePoly, MerkleDecommitment,
    PcsConfig, StarkProof,
};
use stwo_zk::stark_prover::{
    check_composition_oods as prover_check, check_composition_oods_zk as prover_check_zk, check_randomizer_budget,
    mask_composition, prover_degree_bound, zk_degree_bound, ProvingError,
};
use stwo_zk::stark_verifier::{
    check_composition_oods, check_composition_oods_zk, check_randomizer_tree_size, try_get_lifting_log_size,
    verifier_degree_bounds, InvalidLiftingLogSizeError, VerificationError,
};
use stwo_zk::statistical_zk::WitnessMaskError;

fn config(lifting: Option<u32>) -> PcsConfig {
    PcsConfig {
        pow_bits: 5,
        fri_config: FriConfig { log_blowup_factor: 1, log_last_layer_degree_bound: 0, n_queries: 3 },
        lifting_log_size: lifting,
    }
}

fn proof_with_samples(sampled_values: Vec<Vec<Vec<QM31>>>) -> StarkProof<[u8; 32]> {
    StarkProof(CommitmentSchemeProof {
        commitments: vec![],
        sampled_values,
        decommitments: vec![],
        queried_values: vec![],
        proof_of_work: 0,
        fri_proof: FriProof {
            first_layer: FriLayerProof {
                fri_witness: vec![],
                decommitment: MerkleDecommitment { hash_witness: vec![] },
                commitment: [0u8; 32],
            },
            inner_layers: vec![],
            last_layer_poly: LinePoly { coeffs: vec![] },
        },
        config: config(None),
    })
}

fn poly(log_size: u32, seed: u32) -> SecureCirclePoly {
    SecureCirclePoly(std::array::from_fn(|j| {
        CircleCoefficients::new(
            (0..1u32 << log_size).map(|i| M31::from_u32_unchecked((i * 7 + seed + j as u32) % 1000)).collect(),
        )
    }))
}

/// The samples of the two split chunks of `p` at `z`, one column per coordinate.
fn split_samples(p: SecureCirclePoly, z: CirclePoint<QM31>) -> Vec<Vec<QM31>> {
    let chunks = p.split_k(1);
    let mut cols = vec![];
    for c in &chunks {
        for v in c.eval_columns_at_point(z) {
            cols.push(vec![v]);
        }
    }
    cols
}

#[test]
fn lifting_defaults_to_the_needed_size() {
    assert_eq!(try_get_lifting_log_size(&config(None), 7), Ok(7));
    assert_eq!(try_get_lifting_log_size(&config(Some(9)), 7), Ok(9));
    assert_eq!(
        try_get_lifting_log_size(&config(Some(6)), 7),
        Err(InvalidLiftingLogSizeError { lifting_log_size: 6, min_log_size: 7 })
    );
}

#[test]
fn verifier_degree_bounds_follow_the_lifting() {
    // Composition bound 6: split bound 5, lifting 5 + 1, max degree bound 5.
    assert!(matches!(verifier_degree_bounds(6, &config(None), false, 0), Ok((5, 6, 5))));
    assert!(matches!(verifier_degree_bounds(6, &config(Some(8)), false, 0), Ok((5, 8, 7))));
    assert!(matches!(
        verifier_degree_bounds(6, &config(Some(5)), false, 0),
        Err(VerificationError::InvalidLiftingLogSize(InvalidLiftingLogSizeError { lifting_log_size: 5, min_log_size: 6 }))
    ));
    assert!(matches!(
        verifier_degree_bounds(6, &config(None), true, 9),
        Err(VerificationError::InvalidLiftingLogSize(InvalidLiftingLogSizeError { lifting_log_size: 6, min_log_size: 9 }))
    ));
}

#[test]
fn deep_ali_check_accepts_honest_samples() {
    let log_size = 6;
    let z = CirclePoint::<QM31>::get_point(2024);
    let expected = poly(log_size, 1).eval_at_point(z);
    let proof = proof_with_samples(vec![vec![vec![QM31::one()]], split_samples(poly(log_size, 1), z)]);
    assert!(check_composition_oods(&proof, z, log_size - 1, expected).is_ok());
    assert!(prover_check(&proof, z, log_size - 1, expected).is_ok());
    // A different value is a DEEP-ALI failure.
    let wrong = expected + QM31::one();
    assert!(matches!(check_composition_oods(&proof, z, log_size - 1, wrong), Err(VerificationError::OodsNotMatching)));
    assert_eq!(prover_check(&proof, z, log_size - 1, wrong), Err(ProvingError::ConstraintsNotSatisfied));
}

#[test]
fn deep_ali_check_rejects_malformed_samples() {
    let z = CirclePoint::<QM31>::get_point(5);
    let no_trees = proof_with_samples(vec![]);
    assert!(matches!(check_composition_oods(&no_trees, z, 3, QM31::zero()), Err(VerificationError::InvalidStructure(_))));
    let short = proof_with_samples(vec![vec![vec![QM31::one()]; 7]]);
    assert!(matches!(check_composition_oods(&short, z, 3, QM31::zero()), Err(VerificationError::InvalidStructure(_))));
    let mut cols = vec![vec![QM31::one()]; 8];
    cols[3] = vec![QM31::one(), QM31::zero()];
    let double = proof_with_samples(vec![cols]);
    assert!(matches!(check_composition_oods(&double, z, 3, QM31::zero()), Err(VerificationError::InvalidStructure(_))));
    assert_eq!(double.extract_composition_oods_eval(z, 3, 1), None);
}

#[test]
fn extraction_recombines_and_reads_the_randomizer() {
    let log_size = 5;
    let z = CirclePoint::<QM31>::get_point(31);
    let q = poly(log_size, 3);
    let t = poly(log_size, 8);
    let mut composition_tree = split_samples(poly(log_size, 3), z);
    composition_tree.push(vec![]); // salt column, no sample
    let mut t_tree: Vec<Vec<QM31>> = t.eval_columns_at_point(z.repeated_double(1)).iter().map(|v| vec![*v]).collect();
    t_tree.push(vec![]);
    let proof = proof_with_samples(vec![vec![vec![QM31::zero()]], composition_tree, t_tree]);
    assert_eq!(proof.extract_composition_oods_eval_zk(z, log_size - 1, 1), Some(q.eval_at_point(z)));
    assert_eq!(proof.extract_t_oods_eval(), Some(t.eval_at_point(z.repeated_double(1))));
}

#[test]
fn masked_deep_ali_check_subtracts_the_randomizer() {
    let log_size = 6;
    let z = CirclePoint::<QM31>::get_point(77);
    let q = poly(log_size, 2);
    let expected = q.eval_at_point(z);
    let mut rng = StdRng::seed_from_u64(4);
    let (masked, t) = mask_composition(poly(log_size, 2), 12, &mut rng).unwrap();
    let mut composition_tree = split_samples(masked, z);
    composition_tree.push(vec![]);
    let mut t_tree: Vec<Vec<QM31>> = t.eval_columns_at_point(z).iter().map(|v| vec![*v]).collect();
    t_tree.push(vec![]);
    let proof = proof_with_samples(vec![vec![vec![QM31::zero()]], composition_tree, t_tree]);
    assert!(check_composition_oods_zk(&proof, z, log_size - 1, expected).is_ok());
    assert!(prover_check_zk(&proof, z, log_size - 1, expected).is_ok());
    assert!(matches!(
        check_composition_oods_zk(&proof, z, log_size - 1, expected + QM31::one()),
        Err(VerificationError::OodsNotMatching)
    ));
    let no_t = proof_with_samples(vec![vec![vec![QM31::zero(); 1]; 9]]);
    assert!(matches!(check_composition_oods_zk(&no_t, z, 3, expected), Err(VerificationError::InvalidStructure(_))));
    assert_eq!(prover_check_zk(&no_t, z, 3, expected), Err(ProvingError::ConstraintsNotSatisfied));
}

#[test]
fn randomizer_tree_must_resist_reconstruction() {
    // 2^(2 + 1) = 8 coefficients for 1 + 6 + 1 = 8 required: accepted; 7 queries: refused.
    assert!(check_randomizer_tree_size(2, 6).is_ok());
    assert!(matches!(check_randomizer_tree_size(2, 7), Err(VerificationError::InvalidStructure(_))));
}

#[test]
fn prover_randomizer_budget_is_fail_closed() {
    // One point and 64 queries at a split of one: ceil(5 * 65 / 4) = 82.
    assert_eq!(check_randomizer_budget(82, 64), Ok(()));
    assert_eq!(
        check_randomizer_budget(81, 64),
        Err(ProvingError::WitnessMask(WitnessMaskError::CompositionRandomizerBudgetTooSmall {
            dimension: 81,
            required: 82
        }))
    );
}

#[test]
fn prover_degree_bounds() {
    assert_eq!(prover_degree_bound(&config(None), 6, false, 0), Ok(5));
    assert_eq!(prover_degree_bound(&config(Some(8)), 6, true, 8), Ok(7));
    assert_eq!(
        prover_degree_bound(&config(None), 6, true, 7),
        Err(ProvingError::InvalidLiftingLogSize(InvalidLiftingLogSizeError { lifting_log_size: 6, min_log_size: 7 }))
    );
    // The masked path needs the lifting at the unsplit randomizer's height.
    assert_eq!(zk_degree_bound(&config(Some(7)), 6), Ok(6));
    assert_eq!(
        zk_degree_bound(&config(None), 6),
        Err(ProvingError::InvalidLiftingLogSize(InvalidLiftingLogSizeError { lifting_log_size: 6, min_log_size: 7 }))
    );
}

#[test]
fn mask_composition_rejects_oversized_dimension() {
    let mut rng = StdRng::seed_from_u64(1);
    assert!(matches!(
        mask_composition(poly(3, 0), 9, &mut rng),
        Err(ProvingError::WitnessMask(WitnessMaskError::CompositionRandomizerDimensionTooLarge { dimension: 9, coeff_count: 8 }))
    ));
}

#[test]
fn extended_proof_keeps_its_parts() {
    let proof = proof_with_samples(vec![]);
    let extended = ExtendedStarkProof { proof: proof.clone(), aux: 17u32 };
    assert_eq!(extended.aux, 17);
    assert_eq!(extended.proof.0.sampled_values.len(), 0);
}
