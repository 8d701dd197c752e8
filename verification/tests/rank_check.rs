use stwo_zk::circle::CirclePoint;
use stwo_zk::domain::CanonicCoset;
use stwo_zk::m31::M31;
use stwo_zk::qm31::QM31;
use stwo_zk::statistical_zk_rank_check::{
    basis_value_at, build_column_eval_matrix, build_t_map, lift, m31_matrix_rank, oods_pair,
};

type BaseField = M31;
type SecureField = QM31;

#[test]
fn rank_identity_and_dependent_rows() {
    let id: Vec<Vec<BaseField>> = (0..3)
        .map(|r| (0..3).map(|c| if r == c { BaseField::one() } else { BaseField::zero() }).collect())
        .collect();
    assert_eq!(m31_matrix_rank(&id), 3);

    let dep = vec![
        vec![BaseField::from(1u32), BaseField::from(2u32), BaseField::from(3u32)],
        vec![BaseField::from(4u32), BaseField::from(5u32), BaseField::from(6u32)],
        vec![BaseField::from(5u32), BaseField::from(7u32), BaseField::from(9u32)],
    ];
    assert_eq!(m31_matrix_rank(&dep), 2);

    let zero = vec![vec![BaseField::zero(); 4]; 3];
    assert_eq!(m31_matrix_rank(&zero), 0);

    let wide = vec![
        vec![BaseField::from(1u32), BaseField::zero(), BaseField::from(7u32), BaseField::from(9u32)],
        vec![BaseField::zero(), BaseField::from(1u32), BaseField::from(2u32), BaseField::from(3u32)],
    ];
    assert_eq!(m31_matrix_rank(&wide), 2);
}

#[test]
fn lemma1_positive_full_rank_when_budget_covers() {
    let trace_log_size = 5;
    let oods = oods_pair(trace_log_size, 1234567);
    let n_f = oods.len();

    let d_domain = CanonicCoset::new(trace_log_size + 1).circle_domain();
    let query_points = vec![d_domain.at(1), d_domain.at(3), d_domain.at(5), d_domain.at(7)];
    let n_d = query_points.len();

    let rows = 4 * n_f + n_d;
    let h_col = rows;

    let e = build_column_eval_matrix(h_col, &oods, &query_points);
    assert_eq!(e.len(), rows);
    let rank = m31_matrix_rank(&e);
    println!("[Lemma1 POSITIVE] e*n_F+n_D = {rows}, h_col = {h_col}, rank(E) = {rank}");
    assert_eq!(rank, rows, "E must reach full row rank e*n_F+n_D when h_col >= e*n_F+n_D");

    let h_col_big = rows + 5;
    let e_big = build_column_eval_matrix(h_col_big, &oods, &query_points);
    let rank_big = m31_matrix_rank(&e_big);
    println!("[Lemma1 POSITIVE] over-provisioned h_col = {h_col_big}, rank(E) = {rank_big}");
    assert_eq!(rank_big, rows);
}

#[test]
fn lemma1_negative_underprovisioned_budget_cannot_cover() {
    let trace_log_size = 5;
    let oods = oods_pair(trace_log_size, 7654321);
    let n_f = oods.len();

    let d_domain = CanonicCoset::new(trace_log_size + 1).circle_domain();
    let query_points = vec![d_domain.at(1), d_domain.at(3), d_domain.at(5), d_domain.at(7)];
    let n_d = query_points.len();

    let target = 4 * n_f + n_d;
    let h_col = target - 1;

    let e = build_column_eval_matrix(h_col, &oods, &query_points);
    let rank = m31_matrix_rank(&e);
    println!("[Lemma1 NEGATIVE] target e*n_F+n_D = {target}, h_col = {h_col}, rank(E) = {rank}");
    assert!(rank < target, "under-provisioned randomizer must NOT reach full opening rank");
    assert_eq!(rank, h_col, "columns of E should be independent at these points");
}

#[test]
fn lemma1_edge_oods_conjugate_counting() {
    let zeta = CirclePoint::<SecureField>::get_point(424242);
    let zeta_circle_conj = zeta.conjugate();
    let zeta_field_conj = zeta.complex_conjugate();

    let h_col = 16;

    let only_zeta = build_column_eval_matrix(h_col, &[zeta], &[]);
    let rank_zeta = m31_matrix_rank(&only_zeta);

    let with_circle = build_column_eval_matrix(h_col, &[zeta, zeta_circle_conj], &[]);
    let rank_circle = m31_matrix_rank(&with_circle);

    let with_field = build_column_eval_matrix(h_col, &[zeta, zeta_field_conj], &[]);
    let rank_field = m31_matrix_rank(&with_field);

    println!(
        "[Lemma1 EDGE/OODS] rank({{ζ}}) = {rank_zeta} (4 rows); \
         + circle-conj (x,-y): rank = {rank_circle} (8 rows); \
         + field-conj Frob(ζ): rank = {rank_field} (8 rows)"
    );

    assert_eq!(rank_zeta, 4, "a single OODS point yields e=4 functionals");
    assert_eq!(rank_circle, 8, "circle-conjugate OODS rows are independent at generic ζ (rank rises)");
    assert_eq!(rank_field, 4, "field-conjugate (Frobenius) OODS rows collapse: rank must not increase");
}

#[test]
fn lemma1_edge_conjugate_query_rows_are_distinct_not_collapsing() {
    let trace_log_size = 5;
    let d_domain = CanonicCoset::new(trace_log_size + 1).circle_domain();
    let half = d_domain.size() / 2;
    let x = d_domain.at(1);
    let x_bar = d_domain.at(1 + half);
    assert_eq!(x_bar, x.conjugate(), "constructed a genuine conjugate pair");

    let h_col = 16;
    let single = build_column_eval_matrix(h_col, &[], &[x]);
    let pair = build_column_eval_matrix(h_col, &[], &[x, x_bar]);
    let rank_single = m31_matrix_rank(&single);
    let rank_pair = m31_matrix_rank(&pair);
    println!(
        "[Lemma1 EDGE/query-conjugate] rank({{x}}) = {rank_single}, \
         rank({{x,x̄}}) = {rank_pair} (distinct base rows -> rank grows)"
    );
    assert_eq!(rank_single, 1);
    assert_eq!(rank_pair, 2, "generic conjugate QUERY rows are independent; they do NOT collapse");

    let self_conj = CirclePoint::<BaseField> { x: -BaseField::one(), y: BaseField::zero() };
    assert_eq!(self_conj, self_conj.conjugate());
    let doubled = build_column_eval_matrix(h_col, &[], &[self_conj, self_conj]);
    let rank_doubled = m31_matrix_rank(&doubled);
    println!(
        "[Lemma1 EDGE/self-conjugate y=0] rank({{p,p}}) = {rank_doubled} \
         (identical rows -> no rank gain)"
    );
    assert_eq!(rank_doubled, 1, "identical rows add no rank");
}

#[test]
fn lemma2_t_is_underdetermined_at_budget() {
    let trace_log_size = 5;
    let oods = oods_pair(trace_log_size, 999983);
    let n_f = oods.len();

    let d_domain = CanonicCoset::new(trace_log_size + 1).circle_domain();
    let query_points = vec![d_domain.at(1), d_domain.at(3)];
    let n_d = query_points.len();

    let e_n_f = 4 * n_f;
    let budget = (2 * (e_n_f + n_d)).div_ceil(4);
    let h_t = budget;

    let mut revealed: Vec<CirclePoint<SecureField>> = oods.to_vec();
    revealed.extend(query_points.iter().map(|&x| lift(x)));

    let n_openings = 4 * revealed.len();
    let n_coeffs = 4 * h_t;

    let map = build_t_map(h_t, &revealed);
    assert_eq!(map.len(), n_openings);
    assert_eq!(map[0].len(), n_coeffs);
    let rank = m31_matrix_rank(&map);

    println!(
        "[Lemma2] n_F = {n_f}, n_D = {n_d}, h_t = {h_t}, \
         #openings = {n_openings}, 4*h_t = {n_coeffs}, rank(T) = {rank}"
    );

    assert_eq!(rank, n_openings, "the revealed openings are jointly independent (no accidental collapse)");
    assert!(n_openings < n_coeffs, "openings must be strictly fewer than coefficients for under-determination");
    let null_dim = n_coeffs - rank;
    println!("[Lemma2] coefficient nullspace dimension = {null_dim} (> 0 => not reconstructible)");
    assert!(null_dim > 0, "t must retain hidden DOFs given the revealed openings");
}

#[test]
fn lemma2_negative_overopened_t_becomes_reconstructible() {
    let h_t = 2;

    let revealed: Vec<CirclePoint<SecureField>> =
        (0..6).map(|i| CirclePoint::<SecureField>::get_point(1_000 + 7 * i as u128)).collect();

    let n_openings = 4 * revealed.len();
    let n_coeffs = 4 * h_t;

    let map = build_t_map(h_t, &revealed);
    let rank = m31_matrix_rank(&map);
    println!(
        "[Lemma2 NEGATIVE] h_t = {h_t}, #openings = {n_openings}, 4*h_t = {n_coeffs}, \
         rank(T) = {rank}"
    );
    assert_eq!(rank, n_coeffs, "with more openings than coefficients t attains full column rank");
    let null_dim = n_coeffs - rank;
    println!("[Lemma2 NEGATIVE] coefficient nullspace dimension = {null_dim} (= 0 => reconstructible)");
    assert_eq!(null_dim, 0, "no hidden DOFs remain: t is reconstructible (failure mode)");
}

#[test]
fn lemma2_split_multiplier_nonzero_on_real_query_domain() {
    for max_log_degree_bound in [4u32, 5, 6] {
        let exponent = max_log_degree_bound - 1;
        for log_blowup in [1u32, 2] {
            let query_domain = CanonicCoset::new(max_log_degree_bound + log_blowup).circle_domain();
            let any_zero = (0..query_domain.size()).any(|i| {
                let mut x = query_domain.at(i).x;
                for _ in 0..exponent {
                    x = CirclePoint::<BaseField>::double_x(x);
                }
                x.is_zero()
            });
            assert!(!any_zero, "M(p) must be nonzero on the real query domain (blow-up >= 1)");
            println!(
                "[Lemma2 M!=0] max_log_degree_bound={max_log_degree_bound}, \
                 blowup={log_blowup}: no query point has M(p)=0"
            );
        }
    }

    let mldb = 5u32;
    let exponent = mldb - 1;
    let bare = CanonicCoset::new(mldb).circle_domain();
    let all_zero = (0..bare.size()).all(|i| {
        let mut x = bare.at(i).x;
        for _ in 0..exponent {
            x = CirclePoint::<BaseField>::double_x(x);
        }
        x.is_zero()
    });
    assert!(all_zero, "blow-up 0 degenerate: every bare-coset point hits x=0 (M=0)");
    println!(
        "[Lemma2 M!=0] degenerate blow-up 0 (exponent=L-1) hits x=0 everywhere; \
         excluded because the blow-up factor is always >= 1"
    );
}

#[test]
fn deployed_scale_lemma1_full_rank_and_lemma2_underdetermined() {
    let trace_log_size = 6;
    let n_d = 64usize;

    let d_domain = CanonicCoset::new(trace_log_size + 1).circle_domain();
    let query_points: Vec<CirclePoint<BaseField>> = (0..n_d).map(|i| d_domain.at(2 * i + 1)).collect();

    let oods = oods_pair(trace_log_size, 13579);
    let n_f = oods.len();
    let h_col = 4 * n_f + n_d;
    let e = build_column_eval_matrix(h_col, &oods, &query_points);
    let rows = 4 * n_f + n_d;
    let rank_e = m31_matrix_rank(&e);
    println!("[deployed Lemma1] e·n_F+n_D = {rows}, h_col = {h_col}, rank(E) = {rank_e}");
    assert_eq!(rank_e, rows, "E full row rank at the deployed column budget");

    let comp_oods = CirclePoint::<SecureField>::get_point(24680);
    let h_t = 1 + n_d + 1;
    let mut revealed: Vec<CirclePoint<SecureField>> = vec![comp_oods];
    revealed.extend(query_points.iter().map(|&x| lift(x)));
    let map = build_t_map(h_t, &revealed);
    let n_openings = 4 * revealed.len();
    let n_coeffs = 4 * h_t;
    let rank_t = m31_matrix_rank(&map);
    println!(
        "[deployed Lemma2] h_t = {h_t}, #openings = {n_openings}, 4·h_t = {n_coeffs}, \
         rank(T) = {rank_t}, nullspace = {}",
        n_coeffs - rank_t
    );
    assert_eq!(rank_t, n_openings, "t openings jointly independent at the deployed budget");
    assert!(n_openings < n_coeffs, "t under-determined at the enforced reconstruction-resistance budget");

    let h_t_short = n_d + 1;
    let map_short = build_t_map(h_t_short, &revealed);
    let rank_short = m31_matrix_rank(&map_short);
    println!("[deployed Lemma2 NEGATIVE] h_t = {h_t_short}, 4·h_t = {}, rank = {rank_short}", 4 * h_t_short);
    assert_eq!(rank_short, 4 * h_t_short, "one below budget: t attains full column rank (reconstructible)");
}

// ----- Further cases. -----

#[test]
fn rank_of_empty_and_single_entry_matrices() {
    let empty: Vec<Vec<BaseField>> = vec![];
    assert_eq!(m31_matrix_rank(&empty), 0);
    let no_columns: Vec<Vec<BaseField>> = vec![vec![], vec![]];
    assert_eq!(m31_matrix_rank(&no_columns), 0);
    let single = vec![vec![BaseField::zero(), BaseField::from(3u32)]];
    assert_eq!(m31_matrix_rank(&single), 1);
}

#[test]
fn basis_value_of_first_slot_is_one() {
    let z = CirclePoint::<SecureField>::get_point(99);
    assert_eq!(basis_value_at(8, 0, z), SecureField::one());
    // Slot 1 of a one-variable-per-level basis is the y coordinate.
    assert_eq!(basis_value_at(2, 1, z), z.y);
}

#[test]
fn oods_pair_steps_by_the_trace_generator() {
    let pair = oods_pair(4, 5);
    let g = CanonicCoset::new(4).step();
    assert_eq!(pair[0], CirclePoint::<SecureField>::get_point(5));
    assert_eq!(pair[1], pair[0].add(&lift(g)));
}

#[test]
fn t_map_has_four_rows_per_point_and_four_columns_per_slot() {
    let pts = vec![CirclePoint::<SecureField>::get_point(3), CirclePoint::<SecureField>::get_point(8)];
    let map = build_t_map(3, &pts);
    assert_eq!(map.len(), 8);
    assert!(map.iter().all(|row| row.len() == 12));
    // Column 0 is the basis constant times the unit 1: coordinates (1, 0, 0, 0).
    assert_eq!(map[0][0], BaseField::one());
    assert_eq!(map[1][0], BaseField::zero());
}

#[test]
fn rank_of_repeated_rows_is_one() {
    let rows = vec![
        vec![BaseField::from(1u32), BaseField::from(1u32)],
        vec![BaseField::from(1u32), BaseField::from(1u32)],
    ];
    assert_eq!(m31_matrix_rank(&rows), 1);
    let scaled = vec![
        vec![BaseField::from(3u32), BaseField::from(5u32), BaseField::from(7u32)],
        vec![BaseField::from(6u32), BaseField::from(10u32), BaseField::from(14u32)],
        vec![BaseField::zero(), BaseField::zero(), BaseField::from(2u32)],
    ];
    assert_eq!(m31_matrix_rank(&scaled), 2);
}
