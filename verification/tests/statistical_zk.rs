use rand::rngs::StdRng;
use rand::SeedableRng;
use stwo_zk::circle::CirclePoint;
use stwo_zk::domain::CanonicCoset;
use stwo_zk::m31::M31;
use stwo_zk::poly::CircleCoefficients;
use stwo_zk::qm31::QM31;
use stwo_zk::secure_poly::SecureCirclePoly;
use stwo_zk::statistical_zk::{
    add_composition_randomizer, assert_lookup_balanced, base_field_from_bits, composition_randomizer_from_draws,
    randomizer_from_draws, salt_column_from_draws, mask_column, checked_next_power_of_two, full_trace_domain_vanishing,
    required_column_randomizer_dimension, required_composition_randomizer_dimension, sample_base_field,
    sample_composition_randomizer, sample_randomizer, sample_salt_column, WitnessMaskConfig, WitnessMaskError,
};

#[test]
fn config_rejects_bad_parameters() {
    assert_eq!(
        WitnessMaskConfig::with_randomizer_dimension(3, 5, 7, 8).unwrap_err(),
        WitnessMaskError::InsufficientRandomizerDimension { randomizer_dimension: 7, leakage_budget: 8 }
    );
    assert_eq!(WitnessMaskConfig::new(3, 5, 0).unwrap_err(), WitnessMaskError::EmptyLeakageBudget);
    assert_eq!(
        WitnessMaskConfig::new(0, 5, 8).unwrap_err(),
        WitnessMaskError::InvalidCanonicCosetLogSize { log_size: 0 }
    );
    assert_eq!(
        WitnessMaskConfig::new(3, 3, 8).unwrap_err(),
        WitnessMaskError::MaskedDomainNotLarger { trace_log_size: 3, masked_log_size: 3 }
    );
}

#[test]
fn leakage_budget_is_fail_closed() {
    let config = WitnessMaskConfig::new(3, 5, 8).unwrap();
    assert!(config.check_leakage_budget(8).is_ok());
    assert_eq!(
        config.check_leakage_budget(9).unwrap_err(),
        WitnessMaskError::PublicLeakageBudgetExceeded { randomizer_dimension: 8, leakage_budget: 8, required: 9 }
    );
}

#[test]
fn composition_randomizer_adds_at_point() {
    let log_size = 6;
    let q = SecureCirclePoly(std::array::from_fn(|j| {
        CircleCoefficients::new((0..1u32 << log_size).map(|i| M31::from_u32_unchecked(i + j as u32)).collect())
    }));
    let mut rng = StdRng::seed_from_u64(7);
    let t = sample_composition_randomizer(log_size, 1, 1 << log_size, &mut rng).unwrap();

    let zeta = CirclePoint::<QM31>::get_point(998877);
    let q_at = q.eval_at_point(zeta);
    let t_at = t.eval_at_point(zeta);
    let q_prime = add_composition_randomizer(q, &t).unwrap();
    assert_eq!(q_prime.eval_at_point(zeta), q_at + t_at);
}

#[test]
fn composition_randomizer_rejects_oversized_dimension() {
    let mut rng = StdRng::seed_from_u64(1);
    assert!(matches!(
        sample_composition_randomizer(3, 1, 9, &mut rng),
        Err(WitnessMaskError::CompositionRandomizerDimensionTooLarge { dimension: 9, coeff_count: 8 })
    ));
}

#[test]
fn composition_randomizer_rejects_log_size_mismatch() {
    let q = SecureCirclePoly(std::array::from_fn(|_| {
        CircleCoefficients::new((0..1u32 << 6).map(M31::from_u32_unchecked).collect())
    }));
    let mut rng = StdRng::seed_from_u64(2);
    let t = sample_composition_randomizer(5, 1, 1 << 5, &mut rng).unwrap();
    assert!(matches!(
        add_composition_randomizer(q, &t),
        Err(WitnessMaskError::CompositionRandomizerLogSizeMismatch { randomizer_log_size: 5, composition_log_size: 6 })
    ));
}

#[test]
fn salt_column_is_random_and_varies() {
    let mut rng_a = StdRng::seed_from_u64(1);
    let mut rng_b = StdRng::seed_from_u64(2);
    let salt_a = sample_salt_column(4, &mut rng_a);
    let salt_b = sample_salt_column(4, &mut rng_b);

    let a: Vec<_> = salt_a.coeffs().clone();
    let b: Vec<_> = salt_b.coeffs().clone();
    assert_eq!(a.len(), 1 << 4);
    assert_ne!(a, b, "independent salt draws must differ");
    assert!(a.iter().any(|v| !v.is_zero()), "salt must not be all-zero");
}

#[test]
fn split_multiplier_vanishing_scan_t3() {
    for mlb in 4..=8u32 {
        for log_blowup in 1..=2u32 {
            let l_dom = mlb + log_blowup;
            let domain = CanonicCoset::new(l_dom).circle_domain();
            for i in 0..4u32 {
                let exp = mlb - 1 + i;
                let n_vanish = domain.points().iter().filter(|p| p.repeated_double(exp).x.is_zero()).count();
                if i == log_blowup {
                    assert_eq!(
                        n_vanish,
                        1 << l_dom,
                        "level i = log_blowup must vanish on the entire query domain \
                         (mlb={mlb}, log_blowup={log_blowup})"
                    );
                } else {
                    assert_eq!(
                        n_vanish, 0,
                        "only level i = log_blowup may vanish (mlb={mlb}, log_blowup={log_blowup}, i={i})"
                    );
                }
            }
        }
    }
}

#[test]
fn balanced_lookup_check_is_fail_closed() {
    assert!(assert_lookup_balanced(QM31::zero()).is_ok());
    assert_eq!(assert_lookup_balanced(QM31::one()).unwrap_err(), WitnessMaskError::LookupNotBalanced);
}

#[test]
fn leakage_budget_formulas_match_real_opening_counts() {
    assert_eq!(required_column_randomizer_dimension(1, 64), 4 + 64);
    assert_eq!(required_column_randomizer_dimension(2, 30), 4 * 2 + 30);
    assert_eq!(required_composition_randomizer_dimension(1, 64, 1), 82);
    assert_eq!(required_composition_randomizer_dimension(1, 64, 2), 114);
    assert_eq!(required_composition_randomizer_dimension(1, 3, 1), 5);
}

// ----- Further cases. -----

#[test]
fn config_accepts_valid_parameters_and_reads_them_back() {
    let config = WitnessMaskConfig::with_randomizer_dimension(3, 5, 9, 8).unwrap();
    assert_eq!(config.trace_log_size(), 3);
    assert_eq!(config.masked_log_size(), 5);
    assert_eq!(config.randomizer_dimension(), 9);
    assert_eq!(config.leakage_budget(), 8);
    assert_eq!(config.randomizer_coeff_count(), Ok(16));
    assert_eq!(config.validate(), Ok(()));
    assert_eq!(config.trace_domain().unwrap().log_size(), 3);
    assert_eq!(config.masked_domain().unwrap().log_size(), 5);
    // `new` takes the budget as the dimension.
    assert_eq!(WitnessMaskConfig::new(3, 5, 8), WitnessMaskConfig::with_randomizer_dimension(3, 5, 8, 8));
}

#[test]
fn config_rejects_invalid_masked_log_size() {
    assert_eq!(
        WitnessMaskConfig::new(3, 31, 8).unwrap_err(),
        WitnessMaskError::InvalidCanonicCosetLogSize { log_size: 31 }
    );
}

#[test]
fn config_rejects_too_small_masked_domain() {
    // Trace size 8 plus 16 randomizer slots exceed the masked size 16.
    assert_eq!(
        WitnessMaskConfig::new(3, 4, 9).unwrap_err(),
        WitnessMaskError::MaskedDomainTooSmall { trace_size: 8, randomizer_coeff_count: 16, masked_size: 16 }
    );
    // Exactly filling the masked domain is accepted.
    assert!(WitnessMaskConfig::new(3, 4, 8).is_ok());
}

#[test]
fn config_rejects_randomizer_dimension_too_large() {
    assert_eq!(
        WitnessMaskConfig::with_randomizer_dimension(3, 5, usize::MAX, 8).unwrap_err(),
        WitnessMaskError::RandomizerDimensionTooLarge
    );
}

#[test]
fn leakage_budget_checks_the_declared_budget_too() {
    let config = WitnessMaskConfig::with_randomizer_dimension(3, 5, 12, 8).unwrap();
    assert_eq!(
        config.check_leakage_budget(10).unwrap_err(),
        WitnessMaskError::PublicLeakageBudgetExceeded { randomizer_dimension: 12, leakage_budget: 8, required: 10 }
    );
}

#[test]
fn next_power_of_two_rounds_up() {
    assert_eq!(checked_next_power_of_two(0), Some(1));
    assert_eq!(checked_next_power_of_two(1), Some(1));
    assert_eq!(checked_next_power_of_two(5), Some(8));
    assert_eq!(checked_next_power_of_two(64), Some(64));
    assert_eq!(checked_next_power_of_two(usize::MAX), None);
}

#[test]
fn composition_budget_covers_split_directions() {
    // ceil((3 + 2^k) * points / 4) with points = 0 is zero.
    assert_eq!(required_composition_randomizer_dimension(0, 0, 3), 0);
    // k = 0: the budget is the number of points.
    assert_eq!(required_composition_randomizer_dimension(2, 5, 0), 7);
    // k = 3: ceil(11 * 4 / 4) = 11.
    assert_eq!(required_composition_randomizer_dimension(1, 3, 3), 11);
}

#[test]
fn composition_randomizer_masks_every_chunk() {
    let mut rng = StdRng::seed_from_u64(11);
    // 16 coefficients in 4 chunks of 4; dimension 6 gives 2 random slots per chunk.
    let t = sample_composition_randomizer(4, 2, 6, &mut rng).unwrap();
    for coord in t.0.iter() {
        assert_eq!(coord.log_size(), 4);
        let c = coord.coeffs();
        for i in 0..16 {
            if i % 4 >= 2 {
                assert!(c[i].is_zero());
            }
        }
        // Every chunk holds a nonzero random value (with overwhelming probability).
        for chunk in 0..4 {
            assert!(!c[4 * chunk].is_zero() || !c[4 * chunk + 1].is_zero());
        }
    }
}

#[test]
fn randomizer_is_zero_past_its_dimension() {
    let mut rng = StdRng::seed_from_u64(5);
    let r = sample_randomizer(8, 3, &mut rng);
    assert_eq!(r.coeffs().len(), 8);
    assert!(r.coeffs()[3..].iter().all(|v| v.is_zero()));
}

#[test]
fn base_field_samples_are_reduced() {
    let mut rng = StdRng::seed_from_u64(9);
    for _ in 0..100 {
        assert!(sample_base_field(&mut rng).value() < stwo_zk::m31::P);
    }
}

#[test]
fn trace_domain_vanishing_is_zero_exactly_on_the_trace_domain() {
    let trace_domain = CanonicCoset::new(3).circle_domain();
    for p in trace_domain.points() {
        assert!(full_trace_domain_vanishing(trace_domain, p.into_ef()).is_zero());
    }
    let masked_domain = CanonicCoset::new(5).circle_domain();
    for p in masked_domain.points() {
        assert!(!full_trace_domain_vanishing(trace_domain, p.into_ef()).is_zero());
    }
}

#[test]
fn masked_composition_recovers_composition_value() {
    let log_size = 5;
    let q = SecureCirclePoly(std::array::from_fn(|j| {
        CircleCoefficients::new((0..1u32 << log_size).map(|i| M31::from_u32_unchecked(3 * i + j as u32)).collect())
    }));
    let mut rng = StdRng::seed_from_u64(3);
    let t = sample_composition_randomizer(log_size, 1, 20, &mut rng).unwrap();
    let z = CirclePoint::<QM31>::get_point(4242);
    let q_at = q.eval_at_point(z);
    let masked = add_composition_randomizer(q, &t).unwrap();
    assert_eq!(masked.eval_at_point(z) - t.eval_at_point(z), q_at);
}

#[test]
fn trace_domain_vanishing_needs_two_points_per_half() {
    // With a trace domain of log size one the half coset is a single point, and the product of
    // the two coset vanishings is not zero on the domain.
    let trace_domain = CanonicCoset::new(1).circle_domain();
    let p = trace_domain.at(0);
    assert!(!full_trace_domain_vanishing(trace_domain, p.into_ef()).is_zero());
    // From log size two on it vanishes on the domain.
    let trace_domain = CanonicCoset::new(2).circle_domain();
    for p in trace_domain.points() {
        assert!(full_trace_domain_vanishing(trace_domain, p.into_ef()).is_zero());
    }
}

#[test]
fn base_field_from_bits_keeps_low_bits_and_rejects_p() {
    assert_eq!(base_field_from_bits(5), Some(M31::from_u32_unchecked(5)));
    // The top bit is dropped.
    assert_eq!(base_field_from_bits(0x8000_0007), Some(M31::from_u32_unchecked(7)));
    // Low 31 bits equal to P are rejected, with or without the top bit.
    assert_eq!(base_field_from_bits(0x7fff_ffff), None);
    assert_eq!(base_field_from_bits(0xffff_ffff), None);
    assert_eq!(base_field_from_bits(0x7fff_fffe), Some(M31::from_u32_unchecked(0x7fff_fffe)));
}

#[test]
fn randomizer_from_draws_places_draws_first() {
    let draws: Vec<M31> = (1..=3).map(M31::from_u32_unchecked).collect();
    let r = randomizer_from_draws(8, 3, &draws);
    let expected: Vec<M31> = [1, 2, 3, 0, 0, 0, 0, 0].iter().map(|&v| M31::from_u32_unchecked(v)).collect();
    assert_eq!(r.coeffs().clone(), expected);
    assert_eq!(r.log_size(), 3);
    // A dimension past the coefficient count fills every slot.
    let draws: Vec<M31> = (10..14).map(M31::from_u32_unchecked).collect();
    let r = randomizer_from_draws(4, 9, &draws);
    assert_eq!(r.coeffs().clone(), draws);
}

#[test]
fn composition_randomizer_from_draws_spreads_over_chunks() {
    // log size 4, split 2^2 = 4 chunks of 4, dimension 6: 2 draws at the start of every chunk.
    let draws: Vec<M31> = (1..=32).map(M31::from_u32_unchecked).collect();
    let t = composition_randomizer_from_draws(4, 2, 6, &draws).unwrap();
    for j in 0..4u32 {
        let b = 8 * j;
        let expected: Vec<M31> = [
            b + 1, b + 2, 0, 0, b + 3, b + 4, 0, 0, b + 5, b + 6, 0, 0, b + 7, b + 8, 0, 0,
        ]
        .iter()
        .map(|&v| M31::from_u32_unchecked(v))
        .collect();
        assert_eq!(t.0[j as usize].coeffs().clone(), expected);
        assert_eq!(t.0[j as usize].log_size(), 4);
    }
    assert!(matches!(
        composition_randomizer_from_draws(2, 1, 5, &Vec::new()),
        Err(WitnessMaskError::CompositionRandomizerDimensionTooLarge { dimension: 5, coeff_count: 4 })
    ));
}

#[test]
fn salt_column_from_draws_keeps_every_draw() {
    let draws: Vec<M31> = (7..15).map(M31::from_u32_unchecked).collect();
    let s = salt_column_from_draws(3, &draws);
    assert_eq!(s.coeffs().clone(), draws);
    assert_eq!(s.log_size(), 3);
}

#[test]
fn composition_randomizer_error_draws_nothing() {
    let mut rng = StdRng::seed_from_u64(9);
    let mut fresh = StdRng::seed_from_u64(9);
    assert!(sample_composition_randomizer(2, 1, 5, &mut rng).is_err());
    assert_eq!(sample_base_field(&mut rng), sample_base_field(&mut fresh));
}

#[test]
fn mask_preserves_trace_domain_and_randomizes_off_domain() {
    let witness = CircleCoefficients::new((0..8).map(M31::from_u32_unchecked).collect());
    let config = WitnessMaskConfig::new(3, 5, 8).unwrap();

    let mut rng0 = StdRng::seed_from_u64(1);
    let mut rng1 = StdRng::seed_from_u64(2);
    let masked0 = mask_column(&witness, config, &mut rng0).unwrap();
    let masked1 = mask_column(&witness, config, &mut rng1).unwrap();
    assert_eq!(masked0.log_size(), 5);

    // On the trace domain the AIR is untouched: the masked column equals the witness.
    let trace_domain = CanonicCoset::new(config.trace_log_size()).circle_domain();
    for point in trace_domain.points() {
        let point = point.into_ef();
        assert_eq!(witness.eval_at_point(point), masked0.eval_at_point(point));
        assert_eq!(witness.eval_at_point(point), masked1.eval_at_point(point));
    }

    // Off the domain, two independent randomizers give different openings.
    let off_domain_point = CanonicCoset::new(config.masked_log_size()).circle_domain().at(0).into_ef();
    assert_ne!(masked0.eval_at_point(off_domain_point), masked1.eval_at_point(off_domain_point));
}

#[test]
fn mask_column_reports_each_error() {
    let mut rng = StdRng::seed_from_u64(3);
    let witness = CircleCoefficients::new((0..16).map(M31::from_u32_unchecked).collect());
    let config = WitnessMaskConfig::new(3, 5, 8).unwrap();
    assert!(matches!(
        mask_column(&witness, config, &mut rng),
        Err(WitnessMaskError::WitnessDegreeExceedsTraceDomain { witness_log_size: 4, trace_log_size: 3 })
    ));
    // A larger randomizer space that still fits: 8 + 16 <= 32 coefficients.
    let small = CircleCoefficients::new((0..4).map(M31::from_u32_unchecked).collect());
    let config = WitnessMaskConfig::with_randomizer_dimension(3, 5, 16, 8).unwrap();
    let masked = mask_column(&small, config, &mut rng).unwrap();
    for point in CanonicCoset::new(3).circle_domain().points() {
        let point = point.into_ef();
        assert_eq!(small.eval_at_point(point), masked.eval_at_point(point));
    }
}

#[test]
fn inverse_multiplies_to_one() {
    for v in [1u32, 2, 3, 12345, 1073741824, 2147483646] {
        let x = M31::from_u32_unchecked(v);
        assert_eq!(x * x.inverse(), M31::one());
    }
    assert_eq!(M31::zero().inverse(), M31::zero());
}

#[test]
fn interpolation_takes_the_values_on_the_domain() {
    let domain = CanonicCoset::new(4).circle_domain();
    let values: Vec<M31> = (0..16u32).map(|v| M31::from_u32_unchecked(v * v + 7)).collect();
    let poly = stwo_zk::interpolation::interpolate(&domain, &values);
    assert_eq!(poly.log_size(), 4);
    for (i, v) in values.iter().enumerate() {
        assert_eq!(poly.eval_at_point(domain.at(i).into_ef()), QM31::from_base(*v));
    }
}
