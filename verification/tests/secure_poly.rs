use stwo_zk::circle::CirclePoint;
use stwo_zk::m31::M31;
use stwo_zk::poly::CircleCoefficients;
use stwo_zk::qm31::QM31;
use stwo_zk::secure_poly::{CircleEvaluation, SecureCirclePoly, SecureColumnByCoords, SecureEvaluation};
use stwo_zk::domain::CanonicCoset;
use stwo_zk::stark_proof::recombine_split_evals;

fn make_poly(log_size: u32) -> SecureCirclePoly {
    SecureCirclePoly(std::array::from_fn(|i| {
        CircleCoefficients::new(
            (0..1 << log_size)
                .map(|x| M31::from_u32_unchecked(x) + M31::from_u32_unchecked(i as u32))
                .collect(),
        )
    }))
}

#[test]
fn test_secure_circle_poly_split_at_mid() {
    let log_size = 10;
    let poly = make_poly(log_size);

    let (left, right) = SecureCirclePoly(poly.0.clone()).split_at_mid();
    let random_point = CirclePoint::<QM31>::get_point(21903);

    assert_eq!(
        left.eval_at_point(random_point)
            + random_point.repeated_double(log_size - 2).x * right.eval_at_point(random_point),
        poly.eval_at_point(random_point)
    );

    assert_eq!(left.log_size(), log_size - 1);
    assert_eq!(right.log_size(), log_size - 1);
}

#[test]
fn test_secure_circle_poly_split_k_recombines() {
    let log_size = 10;
    let make = || make_poly(log_size);
    let z = CirclePoint::<QM31>::get_point(21903);
    let expected = make().eval_at_point(z);

    for k in 0..=3u32 {
        let chunks = make().split_k(k);
        assert_eq!(chunks.len(), 1 << k);
        for c in &chunks {
            assert_eq!(c.log_size(), log_size - k);
        }
        let evals: Vec<_> = chunks.iter().map(|c| c.eval_at_point(z)).collect();
        let chunk_log_degree_bound = log_size - k;
        assert_eq!(
            recombine_split_evals(&evals, z, chunk_log_degree_bound, k),
            expected,
            "split_k recombination must reproduce the original eval (k={k})"
        );
    }
}

#[test]
fn split_k_by_one_is_split_at_mid() {
    let log_size = 6;
    let by_k = make_poly(log_size).split_k(1);
    let (left, right) = make_poly(log_size).split_at_mid();
    let z = CirclePoint::<QM31>::get_point(777);
    assert_eq!(by_k[0].eval_at_point(z), left.eval_at_point(z));
    assert_eq!(by_k[1].eval_at_point(z), right.eval_at_point(z));
}

#[test]
fn eval_columns_combine_to_eval() {
    let poly = make_poly(4);
    let z = CirclePoint::<QM31>::get_point(31337);
    let cols = poly.eval_columns_at_point(z);
    assert_eq!(QM31::from_partial_evals(cols), poly.eval_at_point(z));
    let [c0, ..] = poly.into_coordinate_polys();
    assert_eq!(c0.log_size(), 4);
}

#[test]
fn constant_polynomial_evaluates_to_its_constant() {
    // The first basis polynomial is the constant one.
    let mut coeffs = vec![M31::zero(); 8];
    coeffs[0] = M31::from_u32_unchecked(5);
    let poly = CircleCoefficients::new(coeffs);
    let z = CirclePoint::<QM31>::get_point(12345);
    assert_eq!(poly.eval_at_point(z), QM31::from_u32_unchecked(5, 0, 0, 0));
}

#[test]
fn secure_evaluation_keeps_domain_and_columns() {
    let domain = CanonicCoset::new(2).circle_domain();
    let columns: [Vec<M31>; 4] = std::array::from_fn(|j| (0..4u32).map(|i| M31::from_u32_unchecked(i + 10 * j as u32)).collect());
    let eval = SecureEvaluation::new(domain, SecureColumnByCoords { columns });
    assert_eq!(eval.values.len(), 4);
    let copy = eval.to_cpu();
    assert_eq!(copy.values.columns, eval.values.columns);
    let coords = eval.into_coordinate_evals();
    assert_eq!(coords[2].values[3], M31::from_u32_unchecked(23));
    assert_eq!(coords[2].domain, domain);
}

#[test]
fn secure_evaluation_from_secure_values_splits_coordinates() {
    let domain = CanonicCoset::new(1).circle_domain();
    let values = vec![QM31::from_u32_unchecked(1, 2, 3, 4), QM31::from_u32_unchecked(5, 6, 7, 8)];
    let eval = SecureEvaluation::from_evaluation(CircleEvaluation { domain, values });
    assert_eq!(eval.domain, domain);
    assert_eq!(eval.values.columns[0], vec![M31::from_u32_unchecked(1), M31::from_u32_unchecked(5)]);
    assert_eq!(eval.values.columns[3], vec![M31::from_u32_unchecked(4), M31::from_u32_unchecked(8)]);
}
