//! Rank computations for the masking construction: the rank of a base field matrix as Gaussian
//! elimination finds it, and the evaluation matrices of the column randomizer and of the
//! composition randomizer at concrete circle points, in base field coordinates.
use vstd::prelude::*;
use crate::m31::{M31, modp, group_m31, m31_of, inverse_spec};
use crate::qm31::{QM31, group_qm31};
use crate::qm31_algebra::{Q4, q_mul, unit};
use crate::circle::{CirclePoint, QPoint, MPoint, mp_lift, qp_add, qp_mul, secure_circle_gen, mp_mul, m31_circle_gen};
use crate::poly::{CircleCoefficients, circle_eval};
use crate::domain::{pow2, CanonicCoset, MAX_CIRCLE_DOMAIN_LOG_SIZE, index_pow2};
use crate::statistical_zk::{next_pow2, checked_next_power_of_two, lemma_next_pow2, lemma_pow2_injective};

verus! {

broadcast use {group_m31, group_qm31};

// ---------------------------------------------------------------------------
// Rank by Gaussian elimination.
// ---------------------------------------------------------------------------

/// Every row of `rows` has `n` entries.
pub open spec fn rows_have_len(rows: Seq<Vec<M31>>, n: int) -> bool {
    forall|r: int| 0 <= r < rows.len() ==> (#[trigger] rows[r])@.len() == n
}

/// The entries of the rows.
pub open spec fn row_views(rows: Seq<Vec<M31>>) -> Seq<Seq<M31>> {
    rows.map_values(|row: Vec<M31>| row@)
}

/// Every entry of `rows` is zero.
pub open spec fn all_zero(rows: Seq<Vec<M31>>) -> bool {
    forall|r: int, c: int| 0 <= r < rows.len() && 0 <= c < rows[r]@.len() ==> (#[trigger] rows[r]@[c]).val() == 0
}

/// Every entry of the columns below `col` of `rows` is zero.
pub open spec fn zero_before(rows: Seq<Vec<M31>>, col: int) -> bool {
    forall|r: int, c: int| 0 <= r < rows.len() && 0 <= c < col ==> (#[trigger] rows[r]@[c]).val() == 0
}

/// `row` with its entries from `from` on multiplied by `factor`.
pub open spec fn scaled_row(row: Seq<M31>, from: int, factor: M31) -> Seq<M31> {
    Seq::new(row.len(), |c: int| if c < from { row[c] } else { m31_of(modp(row[c].val() * factor.val())) })
}

/// `row - factor * pivot` on the entries from `from` on; the earlier entries are kept.
pub open spec fn eliminated_row(row: Seq<M31>, pivot: Seq<M31>, from: int, factor: M31) -> Seq<M31> {
    Seq::new(
        row.len(),
        |c: int|
            if c < from {
                row[c]
            } else {
                m31_of(modp(row[c].val() - m31_of(modp(factor.val() * pivot[c].val())).val()))
            },
    )
}

/// The first row at or after `from` whose entry in column `col` is nonzero, or the number of
/// rows when there is none.
pub open spec fn first_nonzero_row(m: Seq<Seq<M31>>, col: int, from: int) -> int
    decreases m.len() - from,
{
    if from >= m.len() {
        m.len() as int
    } else if m[from][col].val() != 0 {
        from
    } else {
        first_nonzero_row(m, col, from + 1)
    }
}

/// The inverse that elimination divides by.
pub open spec fn pivot_inverse(x: M31) -> M31 {
    m31_of(inverse_spec(x.val()))
}

/// One pivot step in column `col`: row `sel` is swapped into row `pr`, scaled by the inverse of
/// its entry in the column, and subtracted, times their entry in the column, from every other
/// row whose entry there is nonzero.
pub open spec fn pivot_step(m: Seq<Seq<M31>>, pr: int, col: int, sel: int) -> Seq<Seq<M31>> {
    let s = m.update(pr, m[sel]).update(sel, m[pr]);
    let n = s.update(pr, scaled_row(s[pr], col, pivot_inverse(s[pr][col])));
    Seq::new(
        n.len(),
        |r: int|
            if r == pr || n[r][col].val() == 0 {
                n[r]
            } else {
                eliminated_row(n[r], n[pr], col, n[r][col])
            },
    )
}

/// The rank that Gaussian elimination finds: column by column from `col`, with the next pivot
/// row `pr`, the number of pivots; a column without a nonzero entry at or below the pivot row
/// is skipped.
pub open spec fn elimination_rank(m: Seq<Seq<M31>>, pr: int, col: int, n_cols: int) -> int
    decreases n_cols - col,
{
    if col >= n_cols || pr >= m.len() {
        pr
    } else {
        let sel = first_nonzero_row(m, col, pr);
        if sel >= m.len() {
            elimination_rank(m, pr, col + 1, n_cols)
        } else {
            elimination_rank(pivot_step(m, pr, col, sel), pr + 1, col + 1, n_cols)
        }
    }
}

/// The rank of a matrix given by its rows, by Gaussian elimination.
pub open spec fn matrix_rank(rows: Seq<Seq<M31>>) -> int {
    if rows.len() == 0 {
        0
    } else {
        elimination_rank(rows, 0, 0, rows[0].len() as int)
    }
}

/// A copy of a row.
fn copy_row(row: &Vec<M31>) -> (r: Vec<M31>)
    ensures
        r@ == row@,
{
    let mut out: Vec<M31> = Vec::new();
    let mut i: usize = 0;
    while i < row.len()
        invariant
            i <= row@.len(),
            out@ == row@.take(i as int),
        decreases row@.len() - i,
    {
        out.push(row[i]);
        i = i + 1;
        assert(out@ =~= row@.take(i as int));
    }
    assert(row@.take(row@.len() as int) =~= row@);
    out
}

/// `row` with its entries from `from` on multiplied by `factor`.
fn scale_row(row: &Vec<M31>, from: usize, factor: M31) -> (r: Vec<M31>)
    ensures
        r@ == scaled_row(row@, from as int, factor),
{
    let mut out: Vec<M31> = Vec::new();
    let mut i: usize = 0;
    while i < row.len()
        invariant
            i <= row@.len(),
            out@ == scaled_row(row@, from as int, factor).take(i as int),
        decreases row@.len() - i,
    {
        if i < from {
            out.push(row[i]);
        } else {
            out.push(row[i] * factor);
        }
        i = i + 1;
        assert(out@ =~= scaled_row(row@, from as int, factor).take(i as int));
    }
    assert(scaled_row(row@, from as int, factor).take(row@.len() as int) =~= scaled_row(row@, from as int, factor));
    out
}

/// `row - factor * pivot` on the entries from `from` on; the earlier entries are kept.
fn eliminate_row(row: &Vec<M31>, pivot: &Vec<M31>, from: usize, factor: M31) -> (r: Vec<M31>)
    requires
        pivot@.len() == row@.len(),
    ensures
        r@ == eliminated_row(row@, pivot@, from as int, factor),
{
    let mut out: Vec<M31> = Vec::new();
    let mut i: usize = 0;
    while i < row.len()
        invariant
            i <= row@.len(),
            pivot@.len() == row@.len(),
            out@ == eliminated_row(row@, pivot@, from as int, factor).take(i as int),
        decreases row@.len() - i,
    {
        if i < from {
            out.push(row[i]);
        } else {
            let sub = factor * pivot[i];
            out.push(row[i] - sub);
        }
        i = i + 1;
        assert(out@ =~= eliminated_row(row@, pivot@, from as int, factor).take(i as int));
    }
    assert(eliminated_row(row@, pivot@, from as int, factor).take(row@.len() as int) =~= eliminated_row(
        row@,
        pivot@,
        from as int,
        factor,
    ));
    out
}

/// The rank of a base field matrix given by its rows, by Gaussian elimination: the number of
/// pivots found column by column. It is at most the number of rows and of columns, and it is
/// zero exactly when every entry is zero.
pub fn m31_matrix_rank(rows: &[Vec<M31>]) -> (r: usize)
    requires
        rows@.len() > 0 ==> rows_have_len(rows@, rows@[0]@.len() as int),
    ensures
        r <= rows@.len(),
        rows@.len() > 0 ==> r <= rows@[0]@.len(),
        r == 0 <==> all_zero(rows@),
        r == matrix_rank(row_views(rows@)),
{
    if rows.len() == 0 {
        return 0;
    }
    let n_cols = rows[0].len();
    if n_cols == 0 {
        return 0;
    }
    let mut mat: Vec<Vec<M31>> = Vec::new();
    let mut i: usize = 0;
    while i < rows.len()
        invariant
            i <= rows@.len(),
            mat@.len() == i,
            row_views(mat@) == row_views(rows@.take(i as int)),
        decreases rows@.len() - i,
    {
        let ghost old_mat = mat@;
        let row = copy_row(&rows[i]);
        mat.push(row);
        proof {
            assert forall|j: int| 0 <= j < i + 1 implies #[trigger] row_views(mat@)[j] == row_views(rows@.take(i + 1))[j] by {
                if j < i {
                    assert(mat@[j] == old_mat[j]);
                    assert(row_views(old_mat)[j] == row_views(rows@.take(i as int))[j]);
                }
            }
        }
        i = i + 1;
        assert(row_views(mat@) =~= row_views(rows@.take(i as int)));
    }
    assert(rows@.take(rows@.len() as int) =~= rows@);
    let n_rows = mat.len();
    proof {
        assert forall|r: int| 0 <= r < mat@.len() implies (#[trigger] mat@[r])@.len() == n_cols by {
            assert(row_views(mat@)[r] == row_views(rows@)[r]);
        }
    }

    let ghost goal = matrix_rank(row_views(rows@));
    proof {
        assert(row_views(rows@)[0] == rows@[0]@);
    }
    let mut rank: usize = 0;
    let mut pivot_row: usize = 0;
    let mut col: usize = 0;
    while col < n_cols
        invariant
            n_rows == rows@.len(),
            n_rows > 0,
            n_cols == rows@[0]@.len(),
            n_cols > 0,
            mat@.len() == n_rows,
            rows_have_len(rows@, n_cols as int),
            rows_have_len(mat@, n_cols as int),
            rank == pivot_row,
            col <= n_cols,
            rank <= n_rows,
            rank <= col,
            rank == 0 ==> row_views(mat@) == row_views(rows@),
            rank == 0 ==> zero_before(rows@, col as int),
            rank > 0 ==> !all_zero(rows@),
            goal == matrix_rank(row_views(rows@)),
            goal == elimination_rank(row_views(rows@), 0, 0, n_cols as int),
            elimination_rank(row_views(mat@), pivot_row as int, col as int, n_cols as int) == goal,
        ensures
            rank <= n_rows,
            rank <= n_cols,
            rank == 0 ==> zero_before(rows@, n_cols as int),
            rank > 0 ==> !all_zero(rows@),
            rank == goal,
        decreases n_cols - col,
    {
        let ghost m0 = row_views(mat@);
        if pivot_row >= n_rows {
            break;
        }
        let mut sel: usize = pivot_row;
        while sel < n_rows
            invariant
                pivot_row <= sel <= n_rows,
                mat@.len() == n_rows,
                rows_have_len(mat@, n_cols as int),
                col < n_cols,
                m0 == row_views(mat@),
                forall|r: int| pivot_row <= r < sel ==> (#[trigger] mat@[r]@[col as int]).val() == 0,
                first_nonzero_row(m0, col as int, pivot_row as int) == first_nonzero_row(m0, col as int, sel as int),
            ensures
                sel <= n_rows,
                sel < n_rows ==> mat@[sel as int]@[col as int].val() != 0,
                forall|r: int| pivot_row <= r < sel ==> (#[trigger] mat@[r]@[col as int]).val() == 0,
                first_nonzero_row(m0, col as int, pivot_row as int) == sel,
            decreases n_rows - sel,
        {
            assert(m0[sel as int] == mat@[sel as int]@);
            if !mat[sel][col].is_zero() {
                break;
            }
            sel = sel + 1;
        }
        if sel == n_rows {
            proof {
                if rank == 0 {
                    assert forall|r: int, c: int| 0 <= r < rows@.len() && 0 <= c < col + 1 implies (#[trigger] rows@[r]@[c]).val() == 0 by {
                        if c == col {
                            assert(mat@[r]@[col as int].val() == 0);
                            assert(row_views(mat@)[r] == row_views(rows@)[r]);
                        }
                    }
                }
            }
            col = col + 1;
            continue;
        }
        assert(sel < n_rows);
        assert(!(mat@[sel as int]@[col as int].val() == 0));
        proof {
            if rank == 0 {
                assert(row_views(mat@)[sel as int] == row_views(rows@)[sel as int]);
                assert(rows@[sel as int]@[col as int].val() != 0);
            }
        }
        let ghost target = pivot_step(m0, pivot_row as int, col as int, sel as int);
        // Swap the pivot row into place.
        let upper = copy_row(&mat[pivot_row]);
        let lower = copy_row(&mat[sel]);
        mat.set(pivot_row, lower);
        mat.set(sel, upper);
        let ghost swapped = m0.update(pivot_row as int, m0[sel as int]).update(sel as int, m0[pivot_row as int]);
        assert(row_views(mat@) =~= swapped);

        // Normalize the pivot row so that the pivot becomes one.
        let inv = mat[pivot_row][col].inverse();
        proof {
            let v = swapped[pivot_row as int][col as int].val();
            assert(m31_of(inverse_spec(v)).val() == inverse_spec(v));
        }
        assert(inv == pivot_inverse(swapped[pivot_row as int][col as int]));
        let normalized = scale_row(&mat[pivot_row], col, inv);
        mat.set(pivot_row, normalized);
        let ghost scaled = swapped.update(
            pivot_row as int,
            scaled_row(swapped[pivot_row as int], col as int, pivot_inverse(swapped[pivot_row as int][col as int])),
        );
        assert(row_views(mat@) =~= scaled);

        // Eliminate the column from every other row.
        let mut r: usize = 0;
        while r < n_rows
            invariant
                mat@.len() == n_rows,
                rows_have_len(mat@, n_cols as int),
                pivot_row < n_rows,
                col < n_cols,
                r <= n_rows,
                scaled.len() == n_rows,
                target.len() == n_rows,
                target == pivot_step(m0, pivot_row as int, col as int, sel as int),
                scaled == swapped.update(
                    pivot_row as int,
                    scaled_row(swapped[pivot_row as int], col as int, pivot_inverse(swapped[pivot_row as int][col as int])),
                ),
                swapped == m0.update(pivot_row as int, m0[sel as int]).update(sel as int, m0[pivot_row as int]),
                forall|rr: int| 0 <= rr < n_rows ==> #[trigger] row_views(mat@)[rr] == (if rr < r { target[rr] } else { scaled[rr] }),
                row_views(mat@)[pivot_row as int] == scaled[pivot_row as int],
            decreases n_rows - r,
        {
            let ghost before = mat@;
            if r != pivot_row {
                let factor = mat[r][col];
                if !factor.is_zero() {
                    let updated = eliminate_row(&mat[r], &mat[pivot_row], col, factor);
                    mat.set(r, updated);
                }
            }
            proof {
                assert forall|rr: int| 0 <= rr < n_rows implies #[trigger] row_views(mat@)[rr] == (if rr < r + 1 { target[rr] } else { scaled[rr] }) by {
                    assert(row_views(before)[rr] == (if rr < r { target[rr] } else { scaled[rr] }));
                    if rr != r {
                        assert(mat@[rr] == before[rr]);
                    }
                }
            }
            r = r + 1;
        }
        assert(row_views(mat@) =~= target);
        rank = rank + 1;
        pivot_row = pivot_row + 1;
        col = col + 1;
    }
    proof {
        if rank == 0 {
            assert forall|r: int, c: int| 0 <= r < rows@.len() && 0 <= c < rows@[r]@.len() implies (#[trigger] rows@[r]@[c]).val() == 0 by {
                assert(rows@[r]@.len() == n_cols);
                assert(zero_before(rows@, n_cols as int));
            }
        }
    }
    rank
}

// ---------------------------------------------------------------------------
// Evaluation matrices.
// ---------------------------------------------------------------------------

/// The exponent of a power of two.
pub open spec fn exact_log2(n: nat) -> nat {
    choose|k: nat| k < 64 && pow2(k) == n
}

/// The coefficients of the `k`-th basis polynomial among `coeff_count`: one at slot `k`,
/// zero elsewhere.
pub open spec fn basis_coeffs(coeff_count: nat, k: int) -> Seq<M31> {
    Seq::new(coeff_count, |i: int| m31_of(if i == k { 1 } else { 0 }))
}

/// The value at `z` of the `k`-th basis polynomial among `coeff_count`.
pub open spec fn basis_eval(coeff_count: nat, k: int, z: QPoint) -> Q4 {
    circle_eval(basis_coeffs(coeff_count, k), exact_log2(coeff_count), z)
}

/// The value at `point` of the basis polynomial of slot `k` among `coeff_count` slots.
pub fn basis_value_at(coeff_count: usize, k: usize, point: CirclePoint<QM31>) -> (r: QM31)
    requires
        exists|n: nat| n < 64 && pow2(n) == coeff_count,
        k < coeff_count,
    ensures
        r@ == basis_eval(coeff_count as nat, k as int, point@),
{
    let mut coeffs: Vec<M31> = Vec::new();
    let mut i: usize = 0;
    while i < coeff_count
        invariant
            i <= coeff_count,
            coeffs@ == basis_coeffs(coeff_count as nat, k as int).take(i as int),
        decreases coeff_count - i,
    {
        assert(basis_coeffs(coeff_count as nat, k as int)[i as int].val() == (if i == k { 1int } else { 0int }));
        if i == k {
            coeffs.push(M31::one());
        } else {
            coeffs.push(M31::zero());
        }
        i = i + 1;
        assert(coeffs@ =~= basis_coeffs(coeff_count as nat, k as int).take(i as int));
    }
    assert(coeffs@ =~= basis_coeffs(coeff_count as nat, k as int));
    let poly = CircleCoefficients::new(coeffs);
    proof {
        let n = exact_log2(coeff_count as nat);
        lemma_pow2_injective(poly.spec_log_size(), n);
    }
    poly.eval_at_point(point)
}

/// The base field point seen over the secure field.
pub fn lift(point: CirclePoint<M31>) -> (r: CirclePoint<QM31>)
    ensures
        r@ == mp_lift(point@),
{
    point.into_ef()
}

/// Coordinate `c` of a secure field value.
pub open spec fn q_coord(x: Q4, c: int) -> int {
    if c == 0 {
        x.0
    } else if c == 1 {
        x.1
    } else if c == 2 {
        x.2
    } else {
        x.3
    }
}

/// The column randomizer's evaluation matrix: four rows per out-of-domain point (the
/// coordinates of the basis values there), then one row per query point (the base value),
/// with one column per randomizer slot.
pub open spec fn column_eval_matrix_spec(h_col: nat, oods: Seq<QPoint>, queries: Seq<MPoint>) -> Seq<Seq<int>> {
    let cc = next_pow2(h_col);
    Seq::new(
        4 * oods.len() + queries.len(),
        |row: int|
            Seq::new(
                h_col,
                |k: int|
                    if row < 4 * oods.len() {
                        q_coord(basis_eval(cc, k, oods[row / 4]), row % 4)
                    } else {
                        basis_eval(cc, k, mp_lift(queries[row - 4 * oods.len()])).0
                    },
            ),
    )
}

/// The base field values of a matrix.
pub open spec fn matrix_values(m: Seq<Vec<M31>>) -> Seq<Seq<int>> {
    m.map_values(|row: Vec<M31>| row@.map_values(|v: M31| v.val()))
}

pub open spec fn qpoints(s: Seq<CirclePoint<QM31>>) -> Seq<QPoint> {
    s.map_values(|p: CirclePoint<QM31>| p@)
}

pub open spec fn mpoints(s: Seq<CirclePoint<M31>>) -> Seq<MPoint> {
    s.map_values(|p: CirclePoint<M31>| p@)
}

/// `2^n` for `n < 64` is a power of two below `2^64`.
proof fn lemma_power_of_two_witness(count: nat)
    requires
        exists|j: nat| j <= count && pow2(j) == count,
        count <= usize::MAX,
    ensures
        exists|n: nat| n < 64 && pow2(n) == count,
{
    let j = choose|j: nat| j <= count && pow2(j) == count;
    if j >= 64 {
        vstd::arithmetic::power2::lemma2_to64_rest();
        vstd::arithmetic::power2::lemma_pow2_adds(64, (j - 64) as nat);
        vstd::arithmetic::power2::lemma_pow2_pos((j - 64) as nat);
        assert(pow2(64) * pow2((j - 64) as nat) >= pow2(64)) by (nonlinear_arith)
            requires pow2((j - 64) as nat) >= 1, pow2(64) >= 0;
        assert(false);
    }
    assert(j < 64 && pow2(j) == count);
}

/// The base field values of a row.
pub open spec fn row_values(row: Vec<M31>) -> Seq<int> {
    row@.map_values(|v: M31| v.val())
}

/// Appending a row appends its values.
proof fn lemma_matrix_values_push(m: Seq<Vec<M31>>, row: Vec<M31>)
    ensures
        matrix_values(m.push(row)) == matrix_values(m).push(row_values(row)),
{
    assert(matrix_values(m.push(row)) =~= matrix_values(m).push(row_values(row)));
}

/// A row holding coordinate `c` of the values `vals`.
pub open spec fn coord_row(vals: Seq<Q4>, c: int) -> Seq<int> {
    vals.map_values(|v: Q4| q_coord(v, c))
}

/// Pushes coordinate `c` of `v` on `row`.
fn push_coord(row: &mut Vec<M31>, v: QM31, c: usize)
    requires
        c < 4,
    ensures
        row_values(*final(row)) == row_values(*old(row)).push(q_coord(v@, c as int)),
{
    let coords = v.to_m31_array();
    let ghost before = *row;
    row.push(coords[c]);
    proof {
        assert(row_values(*row) =~= row_values(before).push(q_coord(v@, c as int)));
    }
}

/// The row of coordinate `c` of the basis values at `z`, over `h` slots among `cc`.
fn basis_coord_row(cc: usize, h: usize, z: CirclePoint<QM31>, c: usize) -> (r: Vec<M31>)
    requires
        exists|n: nat| n < 64 && pow2(n) == cc,
        h <= cc,
        c < 4,
    ensures
        row_values(r) == Seq::new(h as nat, |k: int| q_coord(basis_eval(cc as nat, k, z@), c as int)),
{
    let mut row: Vec<M31> = Vec::new();
    let mut k: usize = 0;
    while k < h
        invariant
            k <= h,
            h <= cc,
            c < 4,
            exists|n: nat| n < 64 && pow2(n) == cc,
            row_values(row) == Seq::new(k as nat, |t: int| q_coord(basis_eval(cc as nat, t, z@), c as int)),
        decreases h - k,
    {
        let v = basis_value_at(cc, k, z);
        push_coord(&mut row, v, c);
        k = k + 1;
        assert(row_values(row) =~= Seq::new(k as nat, |t: int| q_coord(basis_eval(cc as nat, t, z@), c as int)));
    }
    row
}

/// Builds the column randomizer's evaluation matrix `E` for `h_col` randomizer slots.
pub fn build_column_eval_matrix(
    h_col: usize,
    oods_points: &[CirclePoint<QM31>],
    query_points: &[CirclePoint<M31>],
) -> (r: Vec<Vec<M31>>)
    requires
        next_pow2(h_col as nat) <= usize::MAX,
        4 * oods_points@.len() + query_points@.len() <= usize::MAX,
    ensures
        matrix_values(r@) == column_eval_matrix_spec(h_col as nat, qpoints(oods_points@), mpoints(query_points@)),
{
    let coeff_count = match checked_next_power_of_two(h_col) {
        Some(c) => c,
        None => 1,
    };
    proof {
        lemma_next_pow2(h_col as nat);
        lemma_power_of_two_witness(coeff_count as nat);
    }
    let ghost spec = column_eval_matrix_spec(h_col as nat, qpoints(oods_points@), mpoints(query_points@));
    let n_oods = oods_points.len();
    let n_queries = query_points.len();
    let mut rows: Vec<Vec<M31>> = Vec::new();
    let mut i: usize = 0;
    while i < n_oods
        invariant
            i <= n_oods,
            n_oods == oods_points@.len(),
            n_queries == query_points@.len(),
            4 * n_oods + n_queries <= usize::MAX,
            coeff_count == next_pow2(h_col as nat),
            h_col <= coeff_count,
            exists|n: nat| n < 64 && pow2(n) == coeff_count,
            spec == column_eval_matrix_spec(h_col as nat, qpoints(oods_points@), mpoints(query_points@)),
            rows@.len() == 4 * i,
            matrix_values(rows@) == spec.take(4 * i),
        decreases n_oods - i,
    {
        let zeta = oods_points[i];
        let mut c: usize = 0;
        while c < 4
            invariant
                c <= 4,
                i < n_oods,
                n_oods == oods_points@.len(),
                4 * n_oods + n_queries <= usize::MAX,
                zeta == oods_points@[i as int],
                coeff_count == next_pow2(h_col as nat),
                h_col <= coeff_count,
                exists|n: nat| n < 64 && pow2(n) == coeff_count,
                spec == column_eval_matrix_spec(h_col as nat, qpoints(oods_points@), mpoints(query_points@)),
                rows@.len() == 4 * i + c,
                matrix_values(rows@) == spec.take(4 * i + c),
            decreases 4 - c,
        {
            let row = basis_coord_row(coeff_count, h_col, zeta, c);
            proof {
                let idx = 4 * i + c;
                assert(idx / 4 == i && idx % 4 == c);
                assert(qpoints(oods_points@)[i as int] == zeta@);
                assert(row_values(row) =~= spec[idx as int]);
                lemma_matrix_values_push(rows@, row);
                assert(spec.take(idx + 1) =~= spec.take(idx as int).push(spec[idx as int]));
            }
            rows.push(row);
            c = c + 1;
        }
        i = i + 1;
    }
    let mut j: usize = 0;
    while j < n_queries
        invariant
            j <= n_queries,
            n_oods == oods_points@.len(),
            n_queries == query_points@.len(),
            4 * n_oods + n_queries <= usize::MAX,
            coeff_count == next_pow2(h_col as nat),
            h_col <= coeff_count,
            exists|n: nat| n < 64 && pow2(n) == coeff_count,
            spec == column_eval_matrix_spec(h_col as nat, qpoints(oods_points@), mpoints(query_points@)),
            rows@.len() == 4 * n_oods + j,
            matrix_values(rows@) == spec.take(4 * n_oods + j),
        decreases n_queries - j,
    {
        let p = lift(query_points[j]);
        let row = basis_coord_row(coeff_count, h_col, p, 0);
        proof {
            let idx = 4 * n_oods + j;
            assert(mpoints(query_points@)[j as int] == query_points@[j as int]@);
            assert(row_values(row) =~= spec[idx as int]);
            lemma_matrix_values_push(rows@, row);
            assert(spec.take(idx + 1) =~= spec.take(idx as int).push(spec[idx as int]));
        }
        rows.push(row);
        j = j + 1;
    }
    assert(spec.take(4 * n_oods + n_queries) =~= spec);
    rows
}

/// The contribution of coefficient `col` of `t` (coordinate polynomial `col / h_t`, slot
/// `col % h_t`) to `t(z)`: `u_j b_k(z)`, with `u_j` the `j`-th unit of `QM31`.
pub open spec fn t_entry(h_t: nat, cc: nat, z: QPoint, col: int) -> Q4 {
    q_mul(unit(col / (h_t as int)), basis_eval(cc, col % (h_t as int), z))
}

/// The composition randomizer's map: four rows per revealed point (the coordinates of
/// `t(p)`), one column per free coefficient of `t`.
pub open spec fn t_map_spec(h_t: nat, points: Seq<QPoint>) -> Seq<Seq<int>> {
    let cc = next_pow2(h_t);
    Seq::new(
        4 * points.len(),
        |row: int| Seq::new(4 * h_t, |col: int| q_coord(t_entry(h_t, cc, points[row / 4], col), row % 4)),
    )
}

/// `(j h + k) / h == j` and `(j h + k) % h == k` for `k < h`.
proof fn lemma_div_mod_pos(j: int, h: int, k: int)
    requires
        j >= 0,
        0 <= k < h,
    ensures
        (j * h + k) / h == j,
        (j * h + k) % h == k,
{
    vstd::arithmetic::div_mod::lemma_fundamental_div_mod_converse(j * h + k, h, j, k);
}

/// Builds the composition randomizer's map for `h_t` free coefficients per coordinate
/// polynomial, at the revealed points.
pub fn build_t_map(h_t: usize, revealed_points: &[CirclePoint<QM31>]) -> (r: Vec<Vec<M31>>)
    requires
        next_pow2(h_t as nat) <= usize::MAX,
        4 * h_t <= usize::MAX,
        4 * revealed_points@.len() <= usize::MAX,
    ensures
        matrix_values(r@) == t_map_spec(h_t as nat, qpoints(revealed_points@)),
{
    let coeff_count = match checked_next_power_of_two(h_t) {
        Some(c) => c,
        None => 1,
    };
    proof {
        lemma_next_pow2(h_t as nat);
        lemma_power_of_two_witness(coeff_count as nat);
    }
    let units: [QM31; 4] = [
        QM31::from_u32_unchecked(1, 0, 0, 0),
        QM31::from_u32_unchecked(0, 1, 0, 0),
        QM31::from_u32_unchecked(0, 0, 1, 0),
        QM31::from_u32_unchecked(0, 0, 0, 1),
    ];
    assert(forall|j: int| 0 <= j < 4 ==> (#[trigger] units[j])@ == unit(j));
    let ghost spec = t_map_spec(h_t as nat, qpoints(revealed_points@));
    let n_points = revealed_points.len();
    let mut rows: Vec<Vec<M31>> = Vec::new();
    let mut i: usize = 0;
    while i < n_points
        invariant
            i <= n_points,
            n_points == revealed_points@.len(),
            4 * h_t <= usize::MAX,
            4 * n_points <= usize::MAX,
            coeff_count == next_pow2(h_t as nat),
            h_t <= coeff_count,
            exists|n: nat| n < 64 && pow2(n) == coeff_count,
            forall|j: int| 0 <= j < 4 ==> (#[trigger] units[j])@ == unit(j),
            spec == t_map_spec(h_t as nat, qpoints(revealed_points@)),
            rows@.len() == 4 * i,
            matrix_values(rows@) == spec.take(4 * i),
        decreases n_points - i,
    {
        let p = revealed_points[i];
        let mut basis: Vec<QM31> = Vec::new();
        let mut k: usize = 0;
        while k < h_t
            invariant
                k <= h_t,
                h_t <= coeff_count,
                exists|n: nat| n < 64 && pow2(n) == coeff_count,
                basis@.len() == k,
                forall|t: int| 0 <= t < k ==> (#[trigger] basis@[t])@ == basis_eval(coeff_count as nat, t, p@),
            decreases h_t - k,
        {
            basis.push(basis_value_at(coeff_count, k, p));
            k = k + 1;
        }
        let mut c: usize = 0;
        while c < 4
            invariant
                c <= 4,
                i < n_points,
                n_points == revealed_points@.len(),
                4 * h_t <= usize::MAX,
                4 * n_points <= usize::MAX,
                p == revealed_points@[i as int],
                coeff_count == next_pow2(h_t as nat),
                basis@.len() == h_t,
                forall|t: int| 0 <= t < h_t ==> (#[trigger] basis@[t])@ == basis_eval(coeff_count as nat, t, p@),
                forall|j: int| 0 <= j < 4 ==> (#[trigger] units[j])@ == unit(j),
                spec == t_map_spec(h_t as nat, qpoints(revealed_points@)),
                rows@.len() == 4 * i + c,
                matrix_values(rows@) == spec.take(4 * i + c),
            decreases 4 - c,
        {
            let mut row: Vec<M31> = Vec::new();
            let mut col: usize = 0;
            let mut j: usize = 0;
            while j < 4
                invariant
                    j <= 4,
                    c < 4,
                    4 * h_t <= usize::MAX,
                    col == j * h_t,
                    basis@.len() == h_t,
                    forall|t: int| 0 <= t < h_t ==> (#[trigger] basis@[t])@ == basis_eval(coeff_count as nat, t, p@),
                    forall|u: int| 0 <= u < 4 ==> (#[trigger] units[u])@ == unit(u),
                    row_values(row) == Seq::new(col as nat, |x: int| q_coord(t_entry(h_t as nat, coeff_count as nat, p@, x), c as int)),
                decreases 4 - j,
            {
                let mut k: usize = 0;
                while k < h_t
                    invariant
                        j < 4,
                        c < 4,
                        k <= h_t,
                        4 * h_t <= usize::MAX,
                        col == j * h_t + k,
                        basis@.len() == h_t,
                        forall|t: int| 0 <= t < h_t ==> (#[trigger] basis@[t])@ == basis_eval(coeff_count as nat, t, p@),
                        forall|u: int| 0 <= u < 4 ==> (#[trigger] units[u])@ == unit(u),
                        row_values(row) == Seq::new(col as nat, |x: int| q_coord(t_entry(h_t as nat, coeff_count as nat, p@, x), c as int)),
                    decreases h_t - k,
                {
                    let term = units[j] * basis[k];
                    proof {
                        assert(term@ == q_mul(units[j as int]@, basis@[k as int]@));
                        lemma_div_mod_pos(j as int, h_t as int, k as int);
                        assert(term@ == t_entry(h_t as nat, coeff_count as nat, p@, col as int));
                    }
                    push_coord(&mut row, term, c);
                    assert(col + 1 <= 4 * h_t) by (nonlinear_arith)
                        requires
                            col == j * h_t + k,
                            k < h_t,
                            j < 4,
                    ;
                    col = col + 1;
                    k = k + 1;
                    assert(row_values(row) =~= Seq::new(col as nat, |x: int| q_coord(t_entry(h_t as nat, coeff_count as nat, p@, x), c as int)));
                }
                proof {
                    assert((j + 1) * h_t == j * h_t + h_t) by (nonlinear_arith);
                }
                j = j + 1;
            }
            proof {
                let idx = 4 * i + c;
                assert(idx / 4 == i && idx % 4 == c);
                assert(qpoints(revealed_points@)[i as int] == p@);
                assert(row_values(row) =~= spec[idx as int]);
                lemma_matrix_values_push(rows@, row);
                assert(spec.take(idx + 1) =~= spec.take(idx as int).push(spec[idx as int]));
            }
            rows.push(row);
            c = c + 1;
        }
        i = i + 1;
    }
    assert(spec.take(4 * n_points) =~= spec);
    rows
}

/// The out-of-domain pair `{z, z + g}`: `z` the secure point of index `zeta_index` and `g` the
/// step of the canonic coset of log size `trace_log_size`, lifted.
pub fn oods_pair(trace_log_size: u32, zeta_index: u128) -> (r: [CirclePoint<QM31>; 2])
    requires
        1 <= trace_log_size <= MAX_CIRCLE_DOMAIN_LOG_SIZE,
    ensures
        r[0]@ == qp_mul(secure_circle_gen(), zeta_index as nat),
        r[1]@ == qp_add(
            r[0]@,
            mp_lift(mp_mul(m31_circle_gen(), index_pow2(31 - trace_log_size) as nat)),
        ),
{
    let zeta = CirclePoint::<QM31>::get_point(zeta_index);
    let coset = CanonicCoset::new(trace_log_size);
    let g = coset.step();
    let zeta_g = zeta.add(&lift(g));
    [zeta, zeta_g]
}

} // verus!
