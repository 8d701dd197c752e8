//! Circle STARK proof containers and the statistical zero-knowledge masking of witness columns
//! and of the composition polynomial, over the Mersenne field `M31` and its extension `QM31`.
use vstd::prelude::*;

pub mod m31;
pub mod qm31_algebra;
pub mod qm31;
pub mod circle;
pub mod circle_group;
pub mod domain;
pub mod poly;
pub mod secure_poly;
pub mod stark_proof;
pub mod stark_verifier;
pub mod stark_prover;
pub mod interpolation;
pub mod statistical_zk;
pub mod statistical_zk_rank_check;
