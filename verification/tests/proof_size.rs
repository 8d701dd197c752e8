use stwo_zk::m31::M31;
use stwo_zk::qm31::{QM31, SECURE_EXTENSION_DEGREE};
use stwo_zk::stark_proof::{
    CommitmentSchemeProof, FriConfig, FriLayerProof, FriProof, LinePoly, MerkleDecommitment, PcsConfig,
    StarkProof,
};

#[test]
fn test_base_field_size_estimate() {
    assert_eq!(M31::one().size_estimate(), 4);
}

#[test]
fn test_secure_field_size_estimate() {
    assert_eq!(QM31::one().size_estimate(), 4 * SECURE_EXTENSION_DEGREE);
}

fn layer(n_witness: usize, n_hashes: usize) -> FriLayerProof<[u8; 32]> {
    FriLayerProof {
        fri_witness: vec![QM31::one(); n_witness],
        decommitment: MerkleDecommitment { hash_witness: vec![[7u8; 32]; n_hashes] },
        commitment: [1u8; 32],
    }
}

fn sample_proof() -> StarkProof<[u8; 32]> {
    StarkProof(CommitmentSchemeProof {
        commitments: vec![[0u8; 32]; 3],
        sampled_values: vec![
            vec![vec![QM31::one()], vec![QM31::one(), QM31::zero()]],
            vec![vec![QM31::zero(); 8]],
        ],
        decommitments: vec![
            MerkleDecommitment { hash_witness: vec![[2u8; 32]; 5] },
            MerkleDecommitment { hash_witness: vec![[3u8; 32]; 2] },
        ],
        queried_values: vec![vec![M31::one(); 6], vec![M31::zero(); 4]],
        proof_of_work: 42,
        fri_proof: FriProof {
            first_layer: layer(3, 4),
            inner_layers: vec![layer(2, 3), layer(1, 2)],
            last_layer_poly: LinePoly { coeffs: vec![QM31::one(); 2] },
        },
        config: PcsConfig {
            pow_bits: 10,
            fri_config: FriConfig { log_blowup_factor: 1, log_last_layer_degree_bound: 0, n_queries: 3 },
            lifting_log_size: None,
        },
    })
}

#[test]
fn size_breakdown_counts_every_part() {
    let proof = sample_proof();
    let b = proof.size_breakdown_estimate();
    // 11 sampled secure values, 10 queried base values.
    assert_eq!(b.oods_samples, 11 * 16);
    assert_eq!(b.queries_values, 10 * 4);
    // Last layer (2) + inner witnesses (2 + 1) + first witness (3), all secure.
    assert_eq!(b.fri_samples, 8 * 16);
    // Inner hashes (3 + 1) + (2 + 1), first layer hashes 4 + 1.
    assert_eq!(b.fri_decommitments, 12 * 32);
    // Three commitments and seven decommitment hashes.
    assert_eq!(b.trace_decommitments, 10 * 32);
}

#[test]
fn size_estimate_is_breakdown_plus_pow_and_config() {
    let proof = sample_proof();
    let b = proof.size_breakdown_estimate();
    let parts = b.oods_samples + b.queries_values + b.fri_samples + b.fri_decommitments + b.trace_decommitments;
    assert_eq!(
        proof.size_estimate(),
        parts + std::mem::size_of::<u64>() + std::mem::size_of::<PcsConfig>()
    );
}
