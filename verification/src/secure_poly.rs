//! Secure circle polynomials: four base field polynomials, one per coordinate of `QM31`.
use vstd::prelude::*;
use crate::m31::M31;
use crate::qm31::{QM31, q_from_partial, group_qm31};
use crate::qm31_algebra::{
    Q4, q_add, q_mul, q_canon, unit, lemma_q_distrib, lemma_q_add_swap, lemma_q_ops_canon,
    lemma_q_mul_comm, lemma_q_mul_assoc, lemma_q_add_assoc, lemma_q_add_comm,
};
use crate::circle::{CirclePoint, QPoint, qp_repeated_double, qp_canon, qp_on_circle};
use crate::poly::{
    CircleCoefficients, circle_eval, fold_spec, coeff_chunk, recombine_factors, chunk_evals,
    lemma_split_k_recombines, lemma_fold_add, lemma_fold_scale,
};
use crate::domain::{pow2, CircleDomain};

verus! {

broadcast use group_qm31;

/// A polynomial with values in the secure field, given by its four coordinate polynomials.
pub struct SecureCirclePoly(pub [CircleCoefficients; 4]);

/// Every coordinate polynomial has log size `n`.
pub open spec fn uniform_log_size(c: [CircleCoefficients; 4], n: nat) -> bool {
    &&& c[0].spec_log_size() == n
    &&& c[1].spec_log_size() == n
    &&& c[2].spec_log_size() == n
    &&& c[3].spec_log_size() == n
}

/// The value at `z`: the coordinate values combined as `e0 + e1 i + e2 u + e3 iu`.
pub open spec fn secure_eval(c: [CircleCoefficients; 4], z: QPoint) -> Q4 {
    q_from_partial(c[0].spec_eval(z), c[1].spec_eval(z), c[2].spec_eval(z), c[3].spec_eval(z))
}

/// A secure polynomial whose four coordinate polynomials are the constants `a0 .. a3` takes the
/// value `a0 + a1 i + a2 u + a3 iu`, whose coordinates are `(a0, a1, a2, a3)`, at every point:
/// coordinate polynomial `j` supplies coordinate `j`.
pub proof fn lemma_constant_secure_eval(c: [CircleCoefficients; 4], z: QPoint)
    requires
        uniform_log_size(c, 0),
        forall|j: int| 0 <= j < 4 ==> 0 <= (#[trigger] c[j]).spec_coeffs()[0].val() < crate::m31::P,
        forall|j: int| 0 <= j < 4 ==> (#[trigger] c[j]).spec_coeffs().len() == 1,
    ensures
        secure_eval(c, z) == (
            c[0].spec_coeffs()[0].val(),
            c[1].spec_coeffs()[0].val(),
            c[2].spec_coeffs()[0].val(),
            c[3].spec_coeffs()[0].val(),
        ),
{
    assert(c[0].spec_eval(z) == crate::qm31_algebra::q_embed(c[0].spec_coeffs()[0].val()));
    assert(c[1].spec_eval(z) == crate::qm31_algebra::q_embed(c[1].spec_coeffs()[0].val()));
    assert(c[2].spec_eval(z) == crate::qm31_algebra::q_embed(c[2].spec_coeffs()[0].val()));
    assert(c[3].spec_eval(z) == crate::qm31_algebra::q_embed(c[3].spec_coeffs()[0].val()));
    crate::qm31::lemma_from_partial_coordinates(
        c[0].spec_coeffs()[0].val(),
        c[1].spec_coeffs()[0].val(),
        c[2].spec_coeffs()[0].val(),
        c[3].spec_coeffs()[0].val(),
    );
}

/// The chunks of the two halves are the chunks of the whole.
pub proof fn lemma_coeff_chunk_halves(c: Seq<M31>, n: nat, k: nat, j: int)
    requires
        1 <= k <= n,
        c.len() == pow2(n),
        0 <= j < pow2((k - 1) as nat),
    ensures
        coeff_chunk(c.take((c.len() / 2) as int), (n - 1) as nat, (k - 1) as nat, j) == coeff_chunk(c, n, k, j),
        coeff_chunk(c.skip((c.len() / 2) as int), (n - 1) as nat, (k - 1) as nat, j) == coeff_chunk(
            c,
            n,
            k,
            j + pow2((k - 1) as nat),
        ),
{
    let s = pow2((n - k) as nat) as int;
    let hk = pow2((k - 1) as nat) as int;
    let h = (c.len() / 2) as int;
    vstd::arithmetic::power2::lemma_pow2_unfold(n);
    vstd::arithmetic::power2::lemma_pow2_adds((k - 1) as nat, (n - k) as nat);
    assert(h == hk * s);
    assert((j + 1) * s <= hk * s) by (nonlinear_arith) requires j < hk, s >= 0;
    assert(0 <= j * s) by (nonlinear_arith) requires 0 <= j, s >= 0;
    assert((j + 1) * s == j * s + s) by (nonlinear_arith);
    assert((j + hk) * s == j * s + h) by (nonlinear_arith) requires h == hk * s;
    assert((j + hk + 1) * s == j * s + s + h) by (nonlinear_arith) requires h == hk * s;
    assert(((n - 1) - (k - 1)) as nat == (n - k) as nat);
    assert(c.take(h).subrange(j * s, (j + 1) * s) =~= c.subrange(j * s, (j + 1) * s));
    assert(c.skip(h).subrange(j * s, (j + 1) * s) =~= c.subrange((j + hk) * s, (j + hk + 1) * s));
}

impl SecureCirclePoly {
    pub open spec fn spec_eval(&self, z: QPoint) -> Q4 {
        secure_eval(self.0, z)
    }

    /// The values at `point` of the four coordinate polynomials.
    pub fn eval_columns_at_point(&self, point: CirclePoint<QM31>) -> (r: [QM31; 4])
        ensures
            r[0]@ == self.0[0].spec_eval(point@),
            r[1]@ == self.0[1].spec_eval(point@),
            r[2]@ == self.0[2].spec_eval(point@),
            r[3]@ == self.0[3].spec_eval(point@),
    {
        [
            self.0[0].eval_at_point(point),
            self.0[1].eval_at_point(point),
            self.0[2].eval_at_point(point),
            self.0[3].eval_at_point(point),
        ]
    }

    /// The value at `point`.
    pub fn eval_at_point(&self, point: CirclePoint<QM31>) -> (r: QM31)
        ensures
            r@ == self.spec_eval(point@),
    {
        QM31::from_partial_evals(self.eval_columns_at_point(point))
    }

    /// The log size of the first coordinate polynomial.
    pub fn log_size(&self) -> (r: u32)
        ensures
            r == self.0[0].spec_log_size(),
    {
        self.0[0].log_size()
    }

    pub fn into_coordinate_polys(self) -> (r: [CircleCoefficients; 4])
        ensures
            r == self.0,
    {
        self.0
    }

    /// Splits every coordinate polynomial at the middle of its coefficients.
    pub fn split_at_mid(self) -> (r: (SecureCirclePoly, SecureCirclePoly))
        requires
            forall|i: int| 0 <= i < 4 ==> #[trigger] self.0[i].spec_log_size() >= 1,
        ensures
            forall|i: int|
                0 <= i < 4 ==> {
                    &&& #[trigger] r.0.0[i].spec_log_size() == self.0[i].spec_log_size() - 1
                    &&& r.1.0[i].spec_log_size() == self.0[i].spec_log_size() - 1
                    &&& r.0.0[i].spec_coeffs() == self.0[i].spec_coeffs().take(
                        (self.0[i].spec_coeffs().len() / 2) as int,
                    )
                    &&& r.1.0[i].spec_coeffs() == self.0[i].spec_coeffs().skip(
                        (self.0[i].spec_coeffs().len() / 2) as int,
                    )
                },
    {
        assert(self.0[0].spec_log_size() >= 1);
        assert(self.0[1].spec_log_size() >= 1);
        assert(self.0[2].spec_log_size() >= 1);
        assert(self.0[3].spec_log_size() >= 1);
        let (left0, right0) = self.0[0].split_at_mid();
        let (left1, right1) = self.0[1].split_at_mid();
        let (left2, right2) = self.0[2].split_at_mid();
        let (left3, right3) = self.0[3].split_at_mid();
        let left = [left0, left1, left2, left3];
        let right = [right0, right1, right2, right3];
        (SecureCirclePoly(left), SecureCirclePoly(right))
    }

    /// Splits into `2^k` chunks by applying `split_at_mid` `k` times: chunk `j` holds the
    /// `j`-th contiguous block of `2^(n - k)` coefficients of every coordinate.
    pub fn split_k(self, k: u32) -> (r: Vec<SecureCirclePoly>)
        requires
            forall|i: int| 0 <= i < 4 ==> #[trigger] self.0[i].spec_log_size() >= k,
        ensures
            r@.len() == pow2(k as nat),
            forall|j: int, i: int|
                0 <= j < pow2(k as nat) && 0 <= i < 4 ==> {
                    &&& (#[trigger] r@[j].0[i]).spec_log_size() == self.0[i].spec_log_size() - k
                    &&& r@[j].0[i].spec_coeffs() == coeff_chunk(
                        self.0[i].spec_coeffs(),
                        self.0[i].spec_log_size(),
                        k as nat,
                        j,
                    )
                },
        decreases k,
    {
        let _ = self.0[0].log_size();
        let _ = self.0[1].log_size();
        let _ = self.0[2].log_size();
        let _ = self.0[3].log_size();
        let ghost old = self.0;
        proof { vstd::arithmetic::power2::lemma2_to64(); }
        if k == 0 {
            proof {
                assert forall|i: int| 0 <= i < 4 implies #[trigger] old[i].spec_coeffs() == coeff_chunk(
                    old[i].spec_coeffs(),
                    old[i].spec_log_size(),
                    0,
                    0,
                ) by {
                    assert(old[i].spec_coeffs().subrange(0, old[i].spec_coeffs().len() as int) =~= old[i].spec_coeffs());
                }
            }
            return vec![self];
        }
        assert(self.0[0].spec_log_size() >= 1);
        assert(self.0[1].spec_log_size() >= 1);
        assert(self.0[2].spec_log_size() >= 1);
        assert(self.0[3].spec_log_size() >= 1);
        let (left, right) = self.split_at_mid();
        assert(left.0[0].spec_log_size() == old[0].spec_log_size() - 1);
        assert(left.0[1].spec_log_size() == old[1].spec_log_size() - 1);
        assert(left.0[2].spec_log_size() == old[2].spec_log_size() - 1);
        assert(left.0[3].spec_log_size() == old[3].spec_log_size() - 1);
        let ghost lp = left.0;
        let ghost rp = right.0;
        let mut chunks = left.split_k(k - 1);
        let mut right_chunks = right.split_k(k - 1);
        let ghost lc = chunks@;
        let ghost rc = right_chunks@;
        chunks.append(&mut right_chunks);
        proof {
            vstd::arithmetic::power2::lemma_pow2_unfold(k as nat);
            let hk = pow2((k - 1) as nat) as int;
            assert forall|j: int, i: int| 0 <= j < pow2(k as nat) && 0 <= i < 4 implies {
                &&& (#[trigger] chunks@[j].0[i]).spec_log_size() == old[i].spec_log_size() - k
                &&& chunks@[j].0[i].spec_coeffs() == coeff_chunk(
                    old[i].spec_coeffs(),
                    old[i].spec_log_size(),
                    k as nat,
                    j,
                )
            } by {
                let c = old[i].spec_coeffs();
                let h = (c.len() / 2) as int;
                assert(lp[i].spec_coeffs() == c.take(h));
                assert(lp[i].spec_log_size() == old[i].spec_log_size() - 1);
                assert(rp[i].spec_coeffs() == c.skip(h));
                assert(rp[i].spec_log_size() == old[i].spec_log_size() - 1);
                if j < hk {
                    assert(chunks@[j] == lc[j]);
                    assert(lc[j].0[i].spec_coeffs() == coeff_chunk(lp[i].spec_coeffs(), lp[i].spec_log_size(), (k - 1) as nat, j));
                    lemma_coeff_chunk_halves(c, old[i].spec_log_size(), k as nat, j);
                } else {
                    assert(chunks@[j] == rc[j - hk]);
                    assert(rc[j - hk].0[i].spec_coeffs() == coeff_chunk(rp[i].spec_coeffs(), rp[i].spec_log_size(), (k - 1) as nat, j - hk));
                    lemma_coeff_chunk_halves(c, old[i].spec_log_size(), k as nat, j - hk);
                }
            }
        }
        chunks
    }
}

// ---------------------------------------------------------------------------
// Laws.
// ---------------------------------------------------------------------------

/// Combining coordinate values is additive.
pub proof fn lemma_from_partial_add(a0: Q4, a1: Q4, a2: Q4, a3: Q4, b0: Q4, b1: Q4, b2: Q4, b3: Q4)
    ensures
        q_from_partial(q_add(a0, b0), q_add(a1, b1), q_add(a2, b2), q_add(a3, b3)) == q_add(
            q_from_partial(a0, a1, a2, a3),
            q_from_partial(b0, b1, b2, b3),
        ),
{
    lemma_q_distrib(unit(1), a1, b1);
    lemma_q_distrib(unit(2), a2, b2);
    lemma_q_distrib(unit(3), a3, b3);
    let x1 = q_mul(a1, unit(1));
    let y1 = q_mul(b1, unit(1));
    let x2 = q_mul(a2, unit(2));
    let y2 = q_mul(b2, unit(2));
    let x3 = q_mul(a3, unit(3));
    let y3 = q_mul(b3, unit(3));
    lemma_q_add_swap(a0, b0, x1, y1);
    lemma_q_add_swap(q_add(a0, x1), q_add(b0, y1), x2, y2);
    lemma_q_add_swap(q_add(q_add(a0, x1), x2), q_add(q_add(b0, y1), y2), x3, y3);
}

/// Folding combined values is combining the folds of the coordinate values.
pub proof fn lemma_fold_from_partial(a0: Seq<Q4>, a1: Seq<Q4>, a2: Seq<Q4>, a3: Seq<Q4>, f: Seq<Q4>)
    requires
        a0.len() == pow2(f.len()),
        a1.len() == a0.len(),
        a2.len() == a0.len(),
        a3.len() == a0.len(),
    ensures
        fold_spec(Seq::new(a0.len(), |j: int| q_from_partial(a0[j], a1[j], a2[j], a3[j])), f) == q_from_partial(
            fold_spec(a0, f),
            fold_spec(a1, f),
            fold_spec(a2, f),
            fold_spec(a3, f),
        ),
{
    let n = a0.len();
    let m1 = Seq::new(n, |j: int| q_mul(a1[j], unit(1)));
    let m2 = Seq::new(n, |j: int| q_mul(a2[j], unit(2)));
    let m3 = Seq::new(n, |j: int| q_mul(a3[j], unit(3)));
    let s1 = Seq::new(n, |j: int| q_add(a0[j], m1[j]));
    let s2 = Seq::new(n, |j: int| q_add(s1[j], m2[j]));
    let s3 = Seq::new(n, |j: int| q_add(s2[j], m3[j]));
    lemma_fold_scale(a1, unit(1), f);
    lemma_fold_scale(a2, unit(2), f);
    lemma_fold_scale(a3, unit(3), f);
    lemma_fold_add(a0, m1, f);
    lemma_fold_add(s1, m2, f);
    lemma_fold_add(s2, m3, f);
    assert(Seq::new(n, |j: int| q_from_partial(a0[j], a1[j], a2[j], a3[j])) =~= s3);
}

/// The values at `z` of the `2^k` chunks of a secure polynomial given by its coordinate coefficients.
pub open spec fn secure_chunk_evals(c: [Seq<M31>; 4], n: nat, k: nat, z: QPoint) -> Seq<Q4> {
    Seq::new(
        pow2(k),
        |j: int|
            q_from_partial(
                circle_eval(coeff_chunk(c[0], n, k, j), (n - k) as nat, z),
                circle_eval(coeff_chunk(c[1], n, k, j), (n - k) as nat, z),
                circle_eval(coeff_chunk(c[2], n, k, j), (n - k) as nat, z),
                circle_eval(coeff_chunk(c[3], n, k, j), (n - k) as nat, z),
            ),
    )
}

/// The value at `z` of the secure polynomial given by its coordinate coefficients.
pub open spec fn secure_coeffs_eval(c: [Seq<M31>; 4], n: nat, z: QPoint) -> Q4 {
    q_from_partial(circle_eval(c[0], n, z), circle_eval(c[1], n, z), circle_eval(c[2], n, z), circle_eval(c[3], n, z))
}

/// Splitting a secure polynomial into `2^k` chunks (`split_k`) and recombining the chunk values at a
/// circle point `z` (`recombine_split_evals`) reproduces the value of the polynomial at `z`.
pub proof fn lemma_secure_split_k_recombines(c: [Seq<M31>; 4], n: nat, k: nat, z: QPoint)
    requires
        k < n,
        c[0].len() == pow2(n),
        c[1].len() == pow2(n),
        c[2].len() == pow2(n),
        c[3].len() == pow2(n),
        qp_canon(z),
        qp_on_circle(z),
    ensures
        secure_coeffs_eval(c, n, z) == fold_spec(secure_chunk_evals(c, n, k, z), recombine_factors(z, (n - k) as nat, k)),
{
    let f = recombine_factors(z, (n - k) as nat, k);
    lemma_split_k_recombines(c[0], n, k, z);
    lemma_split_k_recombines(c[1], n, k, z);
    lemma_split_k_recombines(c[2], n, k, z);
    lemma_split_k_recombines(c[3], n, k, z);
    let e0 = chunk_evals(c[0], n, k, z);
    let e1 = chunk_evals(c[1], n, k, z);
    let e2 = chunk_evals(c[2], n, k, z);
    let e3 = chunk_evals(c[3], n, k, z);
    lemma_fold_from_partial(e0, e1, e2, e3, f);
    assert(Seq::new(e0.len(), |j: int| q_from_partial(e0[j], e1[j], e2[j], e3[j])) =~= secure_chunk_evals(c, n, k, z));
}

/// Splitting a secure polynomial at the middle (`split_at_mid`): at a circle point `z`,
/// `p(z) = left(z) + (2^(n-2) z).x * right(z)`.
pub proof fn lemma_secure_split_at_mid_recombines(c: [Seq<M31>; 4], n: nat, z: QPoint)
    requires
        n >= 2,
        c[0].len() == pow2(n),
        c[1].len() == pow2(n),
        c[2].len() == pow2(n),
        c[3].len() == pow2(n),
        qp_canon(z),
        qp_on_circle(z),
    ensures
        ({
            let h = pow2((n - 1) as nat) as int;
            let left = [c[0].take(h), c[1].take(h), c[2].take(h), c[3].take(h)];
            let right = [c[0].skip(h), c[1].skip(h), c[2].skip(h), c[3].skip(h)];
            secure_coeffs_eval(c, n, z) == q_add(
                secure_coeffs_eval(left, (n - 1) as nat, z),
                q_mul(qp_repeated_double(z, (n - 2) as nat).0, secure_coeffs_eval(right, (n - 1) as nat, z)),
            )
        }),
{
    let h = pow2((n - 1) as nat) as int;
    let left = [c[0].take(h), c[1].take(h), c[2].take(h), c[3].take(h)];
    let right = [c[0].skip(h), c[1].skip(h), c[2].skip(h), c[3].skip(h)];
    lemma_secure_split_k_recombines(c, n, 1, z);
    vstd::arithmetic::power2::lemma2_to64();
    vstd::arithmetic::power2::lemma_pow2_unfold(n);
    let e = secure_chunk_evals(c, n, 1, z);
    let f = recombine_factors(z, (n - 1) as nat, 1);
    assert(coeff_chunk(c[0], n, 1, 0) =~= left[0]);
    assert(coeff_chunk(c[1], n, 1, 0) =~= left[1]);
    assert(coeff_chunk(c[2], n, 1, 0) =~= left[2]);
    assert(coeff_chunk(c[3], n, 1, 0) =~= left[3]);
    assert(coeff_chunk(c[0], n, 1, 1) =~= right[0]);
    assert(coeff_chunk(c[1], n, 1, 1) =~= right[1]);
    assert(coeff_chunk(c[2], n, 1, 1) =~= right[2]);
    assert(coeff_chunk(c[3], n, 1, 1) =~= right[3]);
    assert(e[0] == secure_coeffs_eval(left, (n - 1) as nat, z));
    assert(e[1] == secure_coeffs_eval(right, (n - 1) as nat, z));
    assert(f[0] == qp_repeated_double(z, (n - 2) as nat).0);
    assert(e.take(1)[0] == e[0]);
    assert(e.skip(1)[0] == e[1]);
    assert(f.drop_first().len() == 0);
    assert(e.len() == 2);
    assert(fold_spec(e.take(1), f.drop_first()) == e[0]);
    assert(fold_spec(e.skip(1), f.drop_first()) == e[1]);
    assert(fold_spec(e, f) == q_add(e[0], q_mul(e[1], f[0])));
    lemma_q_mul_comm(qp_repeated_double(z, (n - 2) as nat).0, e[1]);
}

// ---------------------------------------------------------------------------
// Evaluations.
// ---------------------------------------------------------------------------

/// A column of secure field values, stored as its four coordinate columns.
#[derive(Clone, Debug)]
pub struct SecureColumnByCoords {
    pub columns: [Vec<M31>; 4],
}

impl SecureColumnByCoords {
    /// The number of values: the length of the first coordinate column.
    pub fn len(&self) -> (r: usize)
        ensures
            r == self.columns[0]@.len(),
    {
        self.columns[0].len()
    }
}

/// The values of a column over the field `F` on a circle domain.
#[derive(Clone, Debug)]
pub struct CircleEvaluation<F> {
    pub domain: CircleDomain,
    pub values: Vec<F>,
}

/// The values of a secure field column on a circle domain, by coordinates.
#[derive(Clone, Debug)]
pub struct SecureEvaluation {
    pub domain: CircleDomain,
    pub values: SecureColumnByCoords,
}

/// A copy of a base field column.
fn copy_column(c: &Vec<M31>) -> (r: Vec<M31>)
    ensures
        r@ == c@,
{
    let mut out: Vec<M31> = Vec::new();
    let mut i: usize = 0;
    while i < c.len()
        invariant
            i <= c@.len(),
            out@ == c@.take(i as int),
        decreases c@.len() - i,
    {
        out.push(c[i]);
        i = i + 1;
        assert(out@ =~= c@.take(i as int));
    }
    assert(c@.take(c@.len() as int) =~= c@);
    out
}

impl SecureEvaluation {
    /// An evaluation on `domain`, which must have as many points as there are values.
    pub fn new(domain: CircleDomain, values: SecureColumnByCoords) -> (r: SecureEvaluation)
        requires
            pow2(domain.spec_log_size()) == values.columns[0]@.len(),
        ensures
            r.domain == domain,
            r.values == values,
    {
        SecureEvaluation { domain, values }
    }

    /// The four coordinate evaluations, on the same domain.
    pub fn into_coordinate_evals(self) -> (r: [CircleEvaluation<M31>; 4])
        ensures
            forall|j: int| 0 <= j < 4 ==> (#[trigger] r[j]).domain == self.domain && r[j].values@ == self.values.columns[j]@,
    {
        let domain = self.domain;
        [
            CircleEvaluation { domain, values: copy_column(&self.values.columns[0]) },
            CircleEvaluation { domain, values: copy_column(&self.values.columns[1]) },
            CircleEvaluation { domain, values: copy_column(&self.values.columns[2]) },
            CircleEvaluation { domain, values: copy_column(&self.values.columns[3]) },
        ]
    }

    /// A copy of the evaluation held in ordinary vectors.
    pub fn to_cpu(&self) -> (r: SecureEvaluation)
        ensures
            r.domain == self.domain,
            forall|j: int| 0 <= j < 4 ==> (#[trigger] r.values.columns[j])@ == self.values.columns[j]@,
    {
        let columns = [
            copy_column(&self.values.columns[0]),
            copy_column(&self.values.columns[1]),
            copy_column(&self.values.columns[2]),
            copy_column(&self.values.columns[3]),
        ];
        SecureEvaluation { domain: self.domain, values: SecureColumnByCoords { columns } }
    }
}

/// The coordinate columns of a column of secure field values.
pub open spec fn coordinate_columns(values: Seq<QM31>) -> [Seq<M31>; 4] {
    [
        values.map_values(|v: QM31| v.c0),
        values.map_values(|v: QM31| v.c1),
        values.map_values(|v: QM31| v.c2),
        values.map_values(|v: QM31| v.c3),
    ]
}

/// Splits a secure field column into its coordinate columns.
fn split_coordinates(values: &Vec<QM31>) -> (r: [Vec<M31>; 4])
    ensures
        r[0]@ == coordinate_columns(values@)[0],
        r[1]@ == coordinate_columns(values@)[1],
        r[2]@ == coordinate_columns(values@)[2],
        r[3]@ == coordinate_columns(values@)[3],
{
    let mut c0: Vec<M31> = Vec::new();
    let mut c1: Vec<M31> = Vec::new();
    let mut c2: Vec<M31> = Vec::new();
    let mut c3: Vec<M31> = Vec::new();
    let mut i: usize = 0;
    while i < values.len()
        invariant
            i <= values@.len(),
            c0@ == coordinate_columns(values@.take(i as int))[0],
            c1@ == coordinate_columns(values@.take(i as int))[1],
            c2@ == coordinate_columns(values@.take(i as int))[2],
            c3@ == coordinate_columns(values@.take(i as int))[3],
        decreases values@.len() - i,
    {
        let v = values[i];
        c0.push(v.c0);
        c1.push(v.c1);
        c2.push(v.c2);
        c3.push(v.c3);
        i = i + 1;
        assert(c0@ =~= coordinate_columns(values@.take(i as int))[0]);
        assert(c1@ =~= coordinate_columns(values@.take(i as int))[1]);
        assert(c2@ =~= coordinate_columns(values@.take(i as int))[2]);
        assert(c3@ =~= coordinate_columns(values@.take(i as int))[3]);
    }
    assert(values@.take(values@.len() as int) =~= values@);
    [c0, c1, c2, c3]
}

impl SecureEvaluation {
    /// The evaluation, by coordinates, of a column of secure field values on a domain.
    pub fn from_evaluation(evaluation: CircleEvaluation<QM31>) -> (r: SecureEvaluation)
        ensures
            r.domain == evaluation.domain,
            forall|j: int| 0 <= j < 4 ==> (#[trigger] r.values.columns[j])@ == coordinate_columns(evaluation.values@)[j],
    {
        let columns = split_coordinates(&evaluation.values);
        SecureEvaluation { domain: evaluation.domain, values: SecureColumnByCoords { columns } }
    }
}

} // verus!
