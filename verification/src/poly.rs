//! Circle polynomials over `M31` in the circle-FFT coefficient basis, and their evaluation.
use vstd::prelude::*;
use crate::m31::{M31, P, modp, m31_of};
use crate::qm31::{QM31, group_qm31};
use crate::qm31_algebra::{
    Q4, q_add, q_mul, q_embed, q_canon, lemma_q_mul_comm, lemma_q_mul_assoc, lemma_q_distrib,
    lemma_q_add_swap, lemma_q_ops_canon, q_zero,
};
use crate::circle::{CirclePoint, QPoint, q_double_x_iter, qp_repeated_double, qp_canon, qp_on_circle, lemma_repeated_double_on_circle};
use crate::domain::pow2;

verus! {

broadcast use {group_qm31, crate::m31::group_m31};

/// The views of a sequence of secure field elements.
pub open spec fn views(s: Seq<QM31>) -> Seq<Q4> {
    s.map_values(|q: QM31| q@)
}

/// Base field coefficients seen in the secure field.
pub open spec fn embed_seq(s: Seq<M31>) -> Seq<Q4> {
    s.map_values(|m: M31| q_embed(m.val()))
}

/// The circle-FFT fold: the first factor combines the two halves, `lhs + rhs * factor`,
/// the remaining factors fold each half recursively.
pub open spec fn fold_spec(values: Seq<Q4>, factors: Seq<Q4>) -> Q4
    decreases factors.len(),
{
    if factors.len() == 0 {
        values[0]
    } else {
        let h = values.len() / 2;
        q_add(
            fold_spec(values.take(h as int), factors.drop_first()),
            q_mul(fold_spec(values.skip(h as int), factors.drop_first()), factors[0]),
        )
    }
}

/// The folding factors of a polynomial of log size `n` at `z = (x, y)`:
/// `[dx^(n-2)(x), ..., dx(x), x, y]` where `dx(x) = 2x^2 - 1`.
pub open spec fn eval_mappings(z: QPoint, n: nat) -> Seq<Q4> {
    Seq::new(n, |j: int| if j == n - 1 { z.1 } else { q_double_x_iter(z.0, (n - 2 - j) as nat) })
}

/// The value at `z` of the circle polynomial with the given coefficients in the circle-FFT basis.
pub open spec fn circle_eval(coeffs: Seq<M31>, log_size: nat, z: QPoint) -> Q4 {
    fold_spec(embed_seq(coeffs), eval_mappings(z, log_size))
}

/// One bottom-up folding level: adjacent pairs `(a, b)` become `a + b * m`.
pub open spec fn pairwise(v: Seq<Q4>, m: Q4) -> Seq<Q4> {
    Seq::new(v.len() / 2, |j: int| q_add(v[2 * j], q_mul(v[2 * j + 1], m)))
}

/// Folding the finest level first gives the same value as the top-down fold.
pub proof fn lemma_fold_bottom_level(v: Seq<Q4>, f: Seq<Q4>)
    requires
        f.len() >= 1,
        v.len() == pow2(f.len()),
    ensures
        fold_spec(v, f) == fold_spec(pairwise(v, f[f.len() - 1]), f.take(f.len() - 1)),
    decreases f.len(),
{
    let k = f.len();
    let m = f[k - 1];
    vstd::arithmetic::power2::lemma_pow2_unfold(k);
    vstd::arithmetic::power2::lemma2_to64();
    if k == 1 {
        assert(pairwise(v, m).len() == 1);
        assert(f.take(0).len() == 0);
        assert(v.take(1)[0] == v[0]);
        assert(v.skip(1)[0] == v[1]);
        assert(f.drop_first().len() == 0);
        assert(fold_spec(v.take(1), f.drop_first()) == v[0]);
        assert(fold_spec(v.skip(1), f.drop_first()) == v[1]);
        assert(fold_spec(pairwise(v, m), f.take(0)) == pairwise(v, m)[0]);
    } else {
        let h = (v.len() / 2) as int;
        let f1 = f.drop_first();
        let l = v.take(h);
        let r = v.skip(h);
        vstd::arithmetic::power2::lemma_pow2_unfold((k - 1) as nat);
        lemma_fold_bottom_level(l, f1);
        lemma_fold_bottom_level(r, f1);
        assert(f1[f1.len() - 1] == m);
        let pw = pairwise(v, m);
        let h2 = (pw.len() / 2) as int;
        assert(pw.take(h2) =~= pairwise(l, m));
        assert(pw.skip(h2) =~= pairwise(r, m));
        assert(f.take(k - 1).drop_first() =~= f1.take(f1.len() - 1));
        assert(f.take(k - 1)[0] == f[0]);
    }
}

/// The folds of the `2^k` contiguous chunks of `v` by the last `f.len() - k` factors.
pub open spec fn chunk_folds(v: Seq<Q4>, f: Seq<Q4>, k: nat) -> Seq<Q4> {
    let c = pow2((f.len() - k) as nat) as int;
    Seq::new(pow2(k), |j: int| fold_spec(v.subrange(j * c, (j + 1) * c), f.skip(k as int)))
}

/// Folding the chunks first and then their values by the first `k` factors gives the full fold.
pub proof fn lemma_fold_chunks(v: Seq<Q4>, f: Seq<Q4>, k: nat)
    requires
        k <= f.len(),
        v.len() == pow2(f.len()),
    ensures
        fold_spec(v, f) == fold_spec(chunk_folds(v, f, k), f.take(k as int)),
    decreases k,
{
    let n = f.len();
    vstd::arithmetic::power2::lemma2_to64();
    if k == 0 {
        let cf = chunk_folds(v, f, 0);
        assert(cf.len() == 1);
        assert(v.subrange(0, v.len() as int) =~= v);
        assert(f.skip(0) =~= f);
        assert(fold_spec(cf, f.take(0)) == cf[0]);
    } else {
        vstd::arithmetic::power2::lemma_pow2_unfold(n);
        vstd::arithmetic::power2::lemma_pow2_unfold(k);
        let h = (v.len() / 2) as int;
        let f1 = f.drop_first();
        let l = v.take(h);
        let r = v.skip(h);
        lemma_fold_chunks(l, f1, (k - 1) as nat);
        lemma_fold_chunks(r, f1, (k - 1) as nat);
        let c = pow2((n - k) as nat) as int;
        let hk = pow2((k - 1) as nat) as int;
        vstd::arithmetic::power2::lemma_pow2_adds((k - 1) as nat, (n - k) as nat);
        assert(h == hk * c);
        let cf = chunk_folds(v, f, k);
        let cl = chunk_folds(l, f1, (k - 1) as nat);
        let cr = chunk_folds(r, f1, (k - 1) as nat);
        assert(f1.skip((k - 1) as int) =~= f.skip(k as int));
        assert(cf.take(hk) =~= cl) by {
            assert forall|j: int| 0 <= j < hk implies #[trigger] cf[j] == cl[j] by {
                assert((j + 1) * c <= hk * c) by (nonlinear_arith) requires j < hk, c >= 0;
                assert(0 <= j * c) by (nonlinear_arith) requires 0 <= j, c >= 0;
                assert((j + 1) * c == j * c + c) by (nonlinear_arith);
                assert(l.subrange(j * c, (j + 1) * c) =~= v.subrange(j * c, (j + 1) * c));
            }
        }
        assert(cf.skip(hk) =~= cr) by {
            assert forall|j: int| 0 <= j < hk implies #[trigger] cf.skip(hk)[j] == cr[j] by {
                assert((j + 1) * c <= hk * c) by (nonlinear_arith) requires j < hk, c >= 0;
                assert(0 <= j * c) by (nonlinear_arith) requires 0 <= j, c >= 0;
                assert((j + 1) * c == j * c + c) by (nonlinear_arith);
                assert((hk + j) * c == h + j * c) by (nonlinear_arith) requires h == hk * c;
                assert((hk + j + 1) * c == h + j * c + c) by (nonlinear_arith) requires h == hk * c;
                assert(r.subrange(j * c, (j + 1) * c) =~= v.subrange(h + j * c, h + j * c + c));
                let jj = hk + j;
                assert(jj * c == h + j * c);
                assert((jj + 1) * c == h + j * c + c);
                assert(cf[jj] == fold_spec(v.subrange(jj * c, (jj + 1) * c), f.skip(k as int)));
                assert(cf.skip(hk)[j] == cf[jj]);
            }
        }
        assert(f.take(k as int).drop_first() =~= f1.take(k - 1));
        assert(f.take(k as int)[0] == f[0]);
        assert(cf.len() / 2 == hk);
    }
}

/// The lower factors of a polynomial are the factors of its chunks.
pub proof fn lemma_eval_mappings_skip(z: QPoint, n: nat, k: nat)
    requires
        k <= n,
    ensures
        eval_mappings(z, n).skip(k as int) =~= eval_mappings(z, (n - k) as nat),
{
}

pub open spec fn is_power_of_two(n: nat) -> bool {
    exists|k: nat| k < 64 && pow2(k) == n
}

/// A polynomial in the circle-FFT basis, given by its `2^log_size` coefficients.
#[derive(Debug)]
pub struct CircleCoefficients {
    pub(crate) coeffs: Vec<M31>,
    pub(crate) log_size: u32,
}

impl Clone for CircleCoefficients {
    fn clone(&self) -> (r: CircleCoefficients)
        ensures
            r.spec_coeffs() == self.spec_coeffs(),
            r.spec_log_size() == self.spec_log_size(),
    {
        proof { use_type_invariant(self); }
        let coeffs = self.coeffs.clone();
        assert(coeffs@ =~= self.coeffs@);
        CircleCoefficients { coeffs, log_size: self.log_size }
    }
}

impl CircleCoefficients {
    #[verifier::type_invariant]
    spec fn wf(self) -> bool {
        &&& self.log_size < 64
        &&& self.coeffs@.len() == pow2(self.log_size as nat)
    }

    pub closed spec fn spec_coeffs(self) -> Seq<M31> {
        self.coeffs@
    }

    pub closed spec fn spec_log_size(self) -> nat {
        self.log_size as nat
    }

    /// The polynomial's value at `z`.
    pub open spec fn spec_eval(self, z: QPoint) -> Q4 {
        circle_eval(self.spec_coeffs(), self.spec_log_size(), z)
    }

    /// Builds a polynomial from its coefficients; their number must be a power of two.
    pub fn new(coeffs: Vec<M31>) -> (r: CircleCoefficients)
        requires
            is_power_of_two(coeffs@.len()),
        ensures
            r.spec_coeffs() == coeffs@,
            pow2(r.spec_log_size()) == coeffs@.len(),
    {
        let n = coeffs.len();
        let ghost k = choose|k: nat| k < 64 && pow2(k) == n;
        let mut log_size: u32 = 0;
        let mut size: usize = 1;
        proof {
            vstd::arithmetic::power2::lemma2_to64();
            vstd::arithmetic::power2::lemma_pow2_pos(k);
        }
        while size < n
            invariant
                size == pow2(log_size as nat),
                log_size <= k,
                k < 64,
                pow2(k) == n,
                n <= usize::MAX,
            decreases k - log_size,
        {
            proof {
                if log_size == k {
                    assert(false);
                }
                vstd::arithmetic::power2::lemma_pow2_unfold((log_size + 1) as nat);
                if log_size + 1 < k {
                    vstd::arithmetic::power2::lemma_pow2_strictly_increases((log_size + 1) as nat, k);
                }
            }
            size = size * 2;
            log_size = log_size + 1;
        }
        proof {
            if log_size < k {
                vstd::arithmetic::power2::lemma_pow2_strictly_increases(log_size as nat, k);
            }
        }
        CircleCoefficients { coeffs, log_size }
    }

    pub fn log_size(&self) -> (r: u32)
        ensures
            r == self.spec_log_size(),
            r < 64,
            pow2(r as nat) == self.spec_coeffs().len(),
    {
        proof { use_type_invariant(self); }
        self.log_size
    }

    /// The coefficients.
    pub fn coeffs(&self) -> (r: &Vec<M31>)
        ensures
            r@ == self.spec_coeffs(),
            r@.len() == pow2(self.spec_log_size()),
    {
        proof { use_type_invariant(self); }
        &self.coeffs
    }

    /// The value at `point`: the circle-FFT fold of the coefficients by
    /// `[dx^(n-2)(x), ..., dx(x), x, y]`.
    pub fn eval_at_point(&self, point: CirclePoint<QM31>) -> (r: QM31)
        ensures
            r@ == self.spec_eval(point@),
    {
        proof { use_type_invariant(self); }
        let n = self.log_size;
        let ghost maps_spec = eval_mappings(point@, n as nat);
        // xs[k] = dx^k(x).
        let mut xs: Vec<QM31> = Vec::new();
        let mut x = point.x;
        let mut k: u32 = 0;
        while k + 1 < n
            invariant
                k < 64,
                n < 64,
                k + 1 <= n || k == 0,
                xs@.len() == k,
                x@ == q_double_x_iter(point.x@, k as nat),
                forall|i: int| 0 <= i < k ==> #[trigger] xs@[i]@ == q_double_x_iter(point.x@, i as nat),
            decreases n - k,
        {
            xs.push(x);
            x = CirclePoint::<QM31>::double_x(x);
            k = k + 1;
        }
        let mut maps: Vec<QM31> = Vec::new();
        let mut j: u32 = 0;
        while j < n
            invariant
                n < 64,
                n >= 1 ==> xs@.len() == n - 1,
                j <= n,
                maps_spec == eval_mappings(point@, n as nat),
                maps@.len() == j,
                forall|i: int| 0 <= i < xs@.len() ==> #[trigger] xs@[i]@ == q_double_x_iter(point.x@, i as nat),
                forall|i: int| 0 <= i < j ==> #[trigger] maps@[i]@ == maps_spec[i],
            decreases n - j,
        {
            if j == n - 1 {
                maps.push(point.y);
            } else {
                let e = xs[(n - 2 - j) as usize];
                assert(e@ == q_double_x_iter(point.x@, (n - 2 - j) as nat));
                maps.push(e);
            }
            j = j + 1;
        }
        assert(views(maps@) =~= maps_spec);
        // Fold bottom-up: the finest level uses the last factor.
        let mut level: Vec<QM31> = Vec::new();
        let mut i: usize = 0;
        let len = self.coeffs.len();
        while i < len
            invariant
                len == self.coeffs@.len(),
                i <= len,
                level@.len() == i,
                forall|t: int| 0 <= t < i ==> #[trigger] level@[t]@ == embed_seq(self.coeffs@)[t],
            decreases len - i,
        {
            level.push(QM31::from_base(self.coeffs[i]));
            i = i + 1;
        }
        assert(views(level@) =~= embed_seq(self.coeffs@));
        assert(maps_spec.take(n as int) =~= maps_spec);
        let mut step: u32 = 0;
        while step < n
            invariant
                n < 64,
                step <= n,
                views(maps@) == maps_spec,
                maps_spec.len() == n,
                level@.len() == pow2((n - step) as nat),
                fold_spec(embed_seq(self.coeffs@), maps_spec) == fold_spec(views(level@), maps_spec.take(n - step)),
            decreases n - step,
        {
            let m = maps[(n - 1 - step) as usize];
            let half = level.len() / 2;
            let ghost f = maps_spec.take(n - step);
            let ghost old_level = views(level@);
            proof {
                vstd::arithmetic::power2::lemma_pow2_unfold((n - step) as nat);
                lemma_fold_bottom_level(old_level, f);
                assert(f[f.len() - 1] == m@);
                assert(f.take(f.len() - 1) =~= maps_spec.take(n - step - 1));
            }
            let mut next: Vec<QM31> = Vec::new();
            let mut t: usize = 0;
            let level_len = level.len();
            while t < half
                invariant
                    level_len == level@.len(),
                    half == level@.len() / 2,
                    level@.len() == pow2((n - step) as nat),
                    n - step >= 1,
                    t <= half,
                    next@.len() == t,
                    forall|u: int| 0 <= u < t ==> #[trigger] next@[u]@ == pairwise(views(level@), m@)[u],
                decreases half - t,
            {
                proof { vstd::arithmetic::power2::lemma_pow2_unfold((n - step) as nat); }
                assert(2 * t + 1 < level@.len());
                next.push(level[2 * t] + level[2 * t + 1] * m);
                t = t + 1;
            }
            assert(views(next@) =~= pairwise(old_level, m@));
            level = next;
            step = step + 1;
        }
        proof {
            vstd::arithmetic::power2::lemma2_to64();
            assert(maps_spec.take(0).len() == 0);
        }
        level[0]
    }

    /// Splits the coefficients into their lower and upper halves: `p(z) = l(z) + dx^(n-2)(z.x) * r(z)`.
    pub fn split_at_mid(&self) -> (r: (CircleCoefficients, CircleCoefficients))
        requires
            self.spec_log_size() >= 1,
        ensures
            r.0.spec_log_size() == self.spec_log_size() - 1,
            r.1.spec_log_size() == self.spec_log_size() - 1,
            r.0.spec_coeffs() == self.spec_coeffs().take((self.spec_coeffs().len() / 2) as int),
            r.1.spec_coeffs() == self.spec_coeffs().skip((self.spec_coeffs().len() / 2) as int),
    {
        proof {
            use_type_invariant(self);
            vstd::arithmetic::power2::lemma_pow2_unfold(self.log_size as nat);
        }
        let log_size = self.log_size;
        let n = self.coeffs.len();
        let half = n / 2;
        let mut left: Vec<M31> = Vec::new();
        let mut right: Vec<M31> = Vec::new();
        let mut i: usize = 0;
        while i < half
            invariant
                n == self.coeffs@.len(),
                half == n / 2,
                i <= half,
                left@ == self.coeffs@.take(i as int),
                right@ == self.coeffs@.subrange(half as int, (half + i) as int),
            decreases half - i,
        {
            left.push(self.coeffs[i]);
            right.push(self.coeffs[half + i]);
            proof {
                assert(left@ =~= self.coeffs@.take((i + 1) as int));
                assert(right@ =~= self.coeffs@.subrange(half as int, (half + i + 1) as int));
            }
            i = i + 1;
        }
        assert(right@ =~= self.coeffs@.skip(half as int));
        (CircleCoefficients { coeffs: left, log_size: log_size - 1 }, CircleCoefficients { coeffs: right, log_size: log_size - 1 })
    }
}

// ---------------------------------------------------------------------------
// Splitting laws.
// ---------------------------------------------------------------------------

/// The first folding factor of a polynomial of log size `n`.
pub open spec fn top_factor(z: QPoint, n: nat) -> Q4 {
    eval_mappings(z, n)[0]
}

/// One level of the fold: `p(z) = l(z) + r(z) * top_factor(z, n)` for the halves `l`, `r`
/// of the coefficients.
pub proof fn lemma_eval_halves(c: Seq<M31>, n: nat, z: QPoint)
    requires
        n >= 1,
        c.len() == pow2(n),
    ensures
        circle_eval(c, n, z) == q_add(
            circle_eval(c.take((c.len() / 2) as int), (n - 1) as nat, z),
            q_mul(circle_eval(c.skip((c.len() / 2) as int), (n - 1) as nat, z), top_factor(z, n)),
        ),
{
    let h = (c.len() / 2) as int;
    assert(embed_seq(c).take(h) =~= embed_seq(c.take(h)));
    assert(embed_seq(c).skip(h) =~= embed_seq(c.skip(h)));
    assert(eval_mappings(z, n).drop_first() =~= eval_mappings(z, (n - 1) as nat));
}

/// Splitting at the middle: on the circle, `p(z) = l(z) + (2^(n-2) z).x * r(z)`,
/// where `l` and `r` hold the lower and upper halves of the coefficients of `p`.
pub proof fn lemma_split_at_mid_recombines(c: Seq<M31>, n: nat, z: QPoint)
    requires
        n >= 2,
        c.len() == pow2(n),
        qp_canon(z),
        qp_on_circle(z),
    ensures
        circle_eval(c, n, z) == q_add(
            circle_eval(c.take((c.len() / 2) as int), (n - 1) as nat, z),
            q_mul(
                qp_repeated_double(z, (n - 2) as nat).0,
                circle_eval(c.skip((c.len() / 2) as int), (n - 1) as nat, z),
            ),
        ),
{
    lemma_eval_halves(c, n, z);
    lemma_repeated_double_on_circle(z, (n - 2) as nat);
    lemma_q_mul_comm(
        qp_repeated_double(z, (n - 2) as nat).0,
        circle_eval(c.skip((c.len() / 2) as int), (n - 1) as nat, z),
    );
}

/// The `j`-th of the `2^k` contiguous chunks of the coefficients.
pub open spec fn coeff_chunk(c: Seq<M31>, n: nat, k: nat, j: int) -> Seq<M31> {
    let s = pow2((n - k) as nat) as int;
    c.subrange(j * s, (j + 1) * s)
}

/// The multipliers of the bottom-up recombination of `2^k` chunks of log size `chunk_log`,
/// listed top level first: level `i` (from the bottom) uses `(2^(chunk_log - 1 + i) z).x`.
pub open spec fn recombine_factors(z: QPoint, chunk_log: nat, k: nat) -> Seq<Q4> {
    Seq::new(k, |j: int| qp_repeated_double(z, (chunk_log - 1 + (k - 1 - j)) as nat).0)
}

/// The values at `z` of the `2^k` chunks.
pub open spec fn chunk_evals(c: Seq<M31>, n: nat, k: nat, z: QPoint) -> Seq<Q4> {
    Seq::new(pow2(k), |j: int| circle_eval(coeff_chunk(c, n, k, j), (n - k) as nat, z))
}

/// Splitting into `2^k` chunks: on the circle, folding the chunk values with the
/// recombination multipliers gives back the value of the polynomial.
pub proof fn lemma_split_k_recombines(c: Seq<M31>, n: nat, k: nat, z: QPoint)
    requires
        k < n,
        c.len() == pow2(n),
        qp_canon(z),
        qp_on_circle(z),
    ensures
        circle_eval(c, n, z) == fold_spec(chunk_evals(c, n, k, z), recombine_factors(z, (n - k) as nat, k)),
{
    let v = embed_seq(c);
    let maps = eval_mappings(z, n);
    lemma_fold_chunks(v, maps, k);
    lemma_eval_mappings_skip(z, n, k);
    let s = pow2((n - k) as nat) as int;
    assert(chunk_folds(v, maps, k) =~= chunk_evals(c, n, k, z)) by {
        assert forall|j: int| 0 <= j < pow2(k) implies #[trigger] chunk_folds(v, maps, k)[j] == chunk_evals(c, n, k, z)[j] by {
            vstd::arithmetic::power2::lemma_pow2_adds(k, (n - k) as nat);
            assert((j + 1) * s <= pow2(k) * s) by (nonlinear_arith) requires j < pow2(k), s >= 0;
            assert(0 <= j * s) by (nonlinear_arith) requires 0 <= j, s >= 0;
            assert((j + 1) * s == j * s + s) by (nonlinear_arith);
            assert(pow2(k) * s == c.len());
            assert(v.subrange(j * s, (j + 1) * s) =~= embed_seq(coeff_chunk(c, n, k, j)));
        }
    }
    assert(maps.take(k as int) =~= recombine_factors(z, (n - k) as nat, k)) by {
        assert forall|j: int| 0 <= j < k implies #[trigger] maps.take(k as int)[j] == recombine_factors(z, (n - k) as nat, k)[j] by {
            lemma_repeated_double_on_circle(z, (n - 2 - j) as nat);
        }
    }
}

// ---------------------------------------------------------------------------
// Linearity of the fold.
// ---------------------------------------------------------------------------

/// The fold of a sum is the sum of the folds.
pub proof fn lemma_fold_add(a: Seq<Q4>, b: Seq<Q4>, f: Seq<Q4>)
    requires
        a.len() == pow2(f.len()),
        b.len() == a.len(),
    ensures
        fold_spec(Seq::new(a.len(), |j: int| q_add(a[j], b[j])), f) == q_add(fold_spec(a, f), fold_spec(b, f)),
    decreases f.len(),
{
    let s = Seq::new(a.len(), |j: int| q_add(a[j], b[j]));
    vstd::arithmetic::power2::lemma2_to64();
    if f.len() > 0 {
        vstd::arithmetic::power2::lemma_pow2_unfold(f.len());
        let h = (a.len() / 2) as int;
        let g = f.drop_first();
        assert(s.take(h) =~= Seq::new(a.take(h).len(), |j: int| q_add(a.take(h)[j], b.take(h)[j])));
        assert(s.skip(h) =~= Seq::new(a.skip(h).len(), |j: int| q_add(a.skip(h)[j], b.skip(h)[j])));
        lemma_fold_add(a.take(h), b.take(h), g);
        lemma_fold_add(a.skip(h), b.skip(h), g);
        let la = fold_spec(a.take(h), g);
        let lb = fold_spec(b.take(h), g);
        let ra = fold_spec(a.skip(h), g);
        let rb = fold_spec(b.skip(h), g);
        lemma_q_distrib(f[0], ra, rb);
        lemma_q_add_swap(la, lb, q_mul(ra, f[0]), q_mul(rb, f[0]));
    } else {
        assert(s[0] == q_add(a[0], b[0]));
    }
}

/// The fold of the values scaled by `c` is the fold scaled by `c`.
pub proof fn lemma_fold_scale(a: Seq<Q4>, c: Q4, f: Seq<Q4>)
    requires
        a.len() == pow2(f.len()),
    ensures
        fold_spec(Seq::new(a.len(), |j: int| q_mul(a[j], c)), f) == q_mul(fold_spec(a, f), c),
    decreases f.len(),
{
    let s = Seq::new(a.len(), |j: int| q_mul(a[j], c));
    vstd::arithmetic::power2::lemma2_to64();
    if f.len() > 0 {
        vstd::arithmetic::power2::lemma_pow2_unfold(f.len());
        let h = (a.len() / 2) as int;
        let g = f.drop_first();
        assert(s.take(h) =~= Seq::new(a.take(h).len(), |j: int| q_mul(a.take(h)[j], c)));
        assert(s.skip(h) =~= Seq::new(a.skip(h).len(), |j: int| q_mul(a.skip(h)[j], c)));
        lemma_fold_scale(a.take(h), c, g);
        lemma_fold_scale(a.skip(h), c, g);
        let la = fold_spec(a.take(h), g);
        let ra = fold_spec(a.skip(h), g);
        // (ra c) f = (ra f) c
        lemma_q_mul_assoc(ra, c, f[0]);
        lemma_q_mul_comm(c, f[0]);
        lemma_q_mul_assoc(ra, f[0], c);
        // la c + (ra f) c = (la + ra f) c
        lemma_q_distrib(c, la, q_mul(ra, f[0]));
    } else {
        assert(s[0] == q_mul(a[0], c));
    }
}

/// `c` followed by zeros up to `n` coefficients.
pub open spec fn padded(c: Seq<M31>, n: nat) -> Seq<M31> {
    Seq::new(n, |i: int| if i < c.len() { c[i] } else { m31_of(0) })
}

/// All coefficients in `[0, P)`.
pub open spec fn coeffs_canonical(c: Seq<M31>) -> bool {
    forall|i: int| 0 <= i < c.len() ==> 0 <= (#[trigger] c[i]).val() < P
}

/// A polynomial with canonical coefficients has a canonical value.
pub proof fn lemma_eval_canonical(c: Seq<M31>, n: nat, z: QPoint)
    requires
        c.len() == pow2(n),
        coeffs_canonical(c),
    ensures
        q_canon(circle_eval(c, n, z)),
{
    vstd::arithmetic::power2::lemma2_to64();
    if n == 0 {
        assert(c[0].val() == embed_seq(c)[0].0);
    } else {
        lemma_eval_halves(c, n, z);
        lemma_q_ops_canon(
            circle_eval(c.take((c.len() / 2) as int), (n - 1) as nat, z),
            q_mul(circle_eval(c.skip((c.len() / 2) as int), (n - 1) as nat, z), top_factor(z, n)),
        );
    }
}

/// The zero polynomial is zero everywhere.
pub proof fn lemma_eval_zeros(n: nat, z: QPoint)
    ensures
        circle_eval(Seq::new(pow2(n), |i: int| m31_of(0)), n, z) == q_zero(),
    decreases n,
{
    let c = Seq::new(pow2(n), |i: int| m31_of(0));
    assert(m31_of(0).val() == 0);
    vstd::arithmetic::power2::lemma2_to64();
    if n == 0 {
        assert(embed_seq(c)[0] == q_embed(0));
    } else {
        vstd::arithmetic::power2::lemma_pow2_unfold(n);
        lemma_eval_halves(c, n, z);
        let c0 = Seq::new(pow2((n - 1) as nat), |i: int| m31_of(0));
        assert(c.take((c.len() / 2) as int) =~= c0);
        assert(c.skip((c.len() / 2) as int) =~= c0);
        lemma_eval_zeros((n - 1) as nat, z);
        crate::circle_group::lemma_q_mul_zero(top_factor(z, n));
        crate::qm31_algebra::lemma_q_add_zero(q_zero());
    }
}

/// Padding the coefficients with zeros does not change the polynomial.
pub proof fn lemma_eval_padded(c: Seq<M31>, l: nat, m: nat, z: QPoint)
    requires
        c.len() == pow2(l),
        l <= m,
        coeffs_canonical(c),
    ensures
        circle_eval(padded(c, pow2(m)), m, z) == circle_eval(c, l, z),
    decreases m,
{
    if m == l {
        assert(padded(c, pow2(m)) =~= c);
    } else {
        vstd::arithmetic::power2::lemma_pow2_unfold(m);
        vstd::arithmetic::power2::lemma_pow2_strictly_increases(l, m);
        if l < (m - 1) as nat {
            vstd::arithmetic::power2::lemma_pow2_strictly_increases(l, (m - 1) as nat);
        }
        let pc = padded(c, pow2(m));
        lemma_eval_halves(pc, m, z);
        assert(pc.take((pc.len() / 2) as int) =~= padded(c, pow2((m - 1) as nat)));
        assert(pc.skip((pc.len() / 2) as int) =~= Seq::new(pow2((m - 1) as nat), |i: int| m31_of(0)));
        lemma_eval_padded(c, l, (m - 1) as nat, z);
        lemma_eval_zeros((m - 1) as nat, z);
        crate::circle_group::lemma_q_mul_zero(top_factor(z, m));
        lemma_eval_canonical(c, l, z);
        crate::qm31_algebra::lemma_q_add_zero(circle_eval(c, l, z));
    }
}

/// The polynomial with the coefficientwise sums `a[i] + b[i]` is the sum of the polynomials.
pub proof fn lemma_eval_sum(a: Seq<M31>, b: Seq<M31>, c: Seq<M31>, n: nat, z: QPoint)
    requires
        a.len() == pow2(n),
        b.len() == a.len(),
        c.len() == a.len(),
        forall|i: int| 0 <= i < a.len() ==> (#[trigger] c[i]).val() == modp(a[i].val() + b[i].val()),
    ensures
        circle_eval(c, n, z) == q_add(circle_eval(a, n, z), circle_eval(b, n, z)),
{
    let ea = embed_seq(a);
    let eb = embed_seq(b);
    assert forall|i: int| 0 <= i < a.len() implies #[trigger] embed_seq(c)[i] == q_add(ea[i], eb[i]) by {
        crate::circle_group::lemma_embed_ops(a[i].val(), b[i].val());
    }
    assert(embed_seq(c) =~= Seq::new(ea.len(), |i: int| q_add(ea[i], eb[i])));
    lemma_fold_add(ea, eb, eval_mappings(z, n));
}

} // verus!
