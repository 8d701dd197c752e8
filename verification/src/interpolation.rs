//! Interpolation over a canonic circle domain: the coefficients, in the circle-FFT basis
//! `[1, y] x [1, x] x [1, dx(x)] x ...` with `dx(x) = 2x^2 - 1`, of a polynomial from its values
//! at the points of the domain.
//!
//! Each step halves the problem: a function of the point splits as `f0(x) + y f1(x)` from its
//! values at conjugate points `(x, y)`, `(x, -y)`, and a function of `x` as `g0(dx(x)) + x g1(dx(x))`
//! from its values at `x` and `-x`.
use vstd::prelude::*;
use crate::m31::{M31, P, modp, m31_of, inverse_spec, lemma_inverse_spec, group_m31};
use crate::qm31_algebra::{Q4, q_add, q_mul, q_embed};
use crate::circle::{q_double_x, q_double_x_iter, mp_lift, MPoint, mp_add, mp_zero, mp_repeated_double, m31_circle_gen};
use crate::circle_group::{
    lemma_embed_ops, lemma_modp_mul, lemma_modp_add_sub, mp_pow, mp_canon, mp_on_circle, gen_doubling,
    lemma_generator_facts, lemma_mp_mul_is_pow, lemma_mp_pow_canon, lemma_mp_pow_on_circle, lemma_mp_pow_add,
    lemma_mp_repeated_double_pow, lemma_gen_doubling_is_pow, lemma_canonic_domain_doubling_abscissa,
    lemma_domain_conjugate_halves, lemma_mp_add_canon,
};
use crate::poly::{CircleCoefficients, fold_spec, embed_seq, eval_mappings, circle_eval, pairwise, lemma_fold_bottom_level, lemma_fold_add, lemma_fold_scale};
use crate::domain::{CircleDomain, pow2, index_pow2, domain_index};
use crate::poly::is_power_of_two;

verus! {

broadcast use group_m31;

/// `1 / 2` in the base field.
pub const HALF: u32 = 1073741824;

/// `2 (x inv(2x)) = 1` and `2 HALF = 1`, so `x inv(2x) = HALF` modulo `P`.
proof fn lemma_half_inverse(x: int)
    requires
        0 < x < P,
    ensures
        0 <= inverse_spec(modp(x + x)) < P,
        modp(x * inverse_spec(modp(x + x))) == HALF,
{
    let i = inverse_spec(modp(x + x));
    let p = P as int;
    assert(modp(x + x) != 0) by {
        vstd::arithmetic::div_mod::lemma_fundamental_div_mod(x + x, p);
        vstd::arithmetic::div_mod::lemma_mod_bound(x + x, p);
    }
    crate::qm31_algebra::lemma_modp_range(x + x);
    lemma_inverse_spec(modp(x + x));
    lemma_modp_mul(x + x, i);
    assert((x + x) * i == 2 * (x * i)) by (nonlinear_arith);
    lemma_modp_mul(2, x * i);
    let u = modp(x * i);
    crate::qm31_algebra::lemma_modp_range(x * i);
    assert(modp(2 * u) == 1);
    vstd::arithmetic::div_mod::lemma_fundamental_div_mod(2 * u, p);
    vstd::arithmetic::div_mod::lemma_mod_bound(2 * u, p);
}

/// Dividing by `2x` and multiplying by `x` or `-x` halves: `(d / 2x) x = d / 2` and
/// `(d / 2x) (-x) = -d / 2`.
proof fn lemma_scaled_by_half(d: int, x: int)
    requires
        0 < x < P,
    ensures
        modp(modp(d * inverse_spec(modp(x + x))) * x) == modp(d * HALF),
        modp(modp(d * inverse_spec(modp(x + x))) * modp(-x)) == modp((-d) * HALF),
{
    let i = inverse_spec(modp(x + x));
    lemma_half_inverse(x);
    lemma_modp_mul(d * i, x);
    assert((d * i) * x == d * (x * i)) by (nonlinear_arith);
    lemma_modp_mul(d, x * i);
    lemma_modp_mul(d * i, modp(-x));
    lemma_modp_mul(d * i, -x);
    assert((d * i) * (-x) == (-d) * (x * i)) by (nonlinear_arith);
    lemma_modp_mul(-d, x * i);
}

/// Half of `s` plus half of `d` is half of `s + d`, which is `a` when `s + d = 2a`.
proof fn lemma_half_sum(s: int, d: int, a: int)
    requires
        0 <= a < P,
        modp(s + d) == modp(2 * a),
    ensures
        modp(modp(s * HALF) + modp(d * HALF)) == a,
{
    let h = HALF as int;
    lemma_modp_add_sub(s * h, modp(d * h));
    lemma_modp_add_sub(s * h, d * h);
    assert(s * h + d * h == (s + d) * h) by (nonlinear_arith);
    lemma_modp_mul(s + d, h);
    lemma_modp_mul(2 * a, h);
    assert((2 * a) * h == a * (2 * h)) by (nonlinear_arith);
    lemma_modp_mul(a, 2 * h);
    assert(modp(2 * h) == 1);
    crate::qm31_algebra::lemma_modp_small(a);
}

/// One interpolation step: with `g0 = (a + b) / 2` and `g1 = (a - b) / (2x)`, the function
/// `g0 + t g1` takes `a` at `t = x` and `b` at `t = -x`.
pub proof fn lemma_split_values(a: int, b: int, x: int)
    requires
        0 <= a < P,
        0 <= b < P,
        0 < x < P,
    ensures
        ({
            let g0 = modp(modp(a + b) * HALF);
            let g1 = modp(modp(a - b) * inverse_spec(modp(x + x)));
            &&& modp(g0 + modp(g1 * x)) == a
            &&& modp(g0 + modp(g1 * modp(-x))) == b
        }),
{
    let s = modp(a + b);
    let d = modp(a - b);
    lemma_scaled_by_half(d, x);
    assert(modp(s + d) == modp(2 * a)) by {
        lemma_modp_add_sub(a + b, d);
        lemma_modp_add_sub(a + b, a - b);
    }
    lemma_half_sum(s, d, a);
    assert(modp(s + (-d)) == modp(2 * b)) by {
        lemma_modp_add_sub(a + b, d);
        lemma_modp_add_sub(a + b, a - b);
    }
    lemma_half_sum(s, -d, b);
}

/// `[c0[0], c1[0], c0[1], c1[1], ...]`.
pub open spec fn interleaved(c0: Seq<M31>, c1: Seq<M31>) -> Seq<M31> {
    Seq::new(2 * c0.len(), |i: int| if i % 2 == 0 { c0[i / 2] } else { c1[i / 2] })
}

/// The folding factors of a function of `x` alone with `2^k` coefficients:
/// `[dx^(k-1)(x), ..., dx(x), x]`.
pub open spec fn line_factors(x: Q4, k: nat) -> Seq<Q4> {
    Seq::new(k, |j: int| q_double_x_iter(x, (k - 1 - j) as nat))
}

/// The abscissa of the double of a point of abscissa `x`: `2 x^2 - 1`.
pub open spec fn doubled_abscissa(x: M31) -> M31 {
    m31_of(modp(modp(modp(x.val() * x.val()) + modp(x.val() * x.val())) - 1))
}

/// Abscissas on which a function of `x` can be interpolated with `2^k` coefficients: at every
/// level the second half negates the first, whose values are nonzero, and the doubles of the
/// first half form the next level.
pub open spec fn line_domain(xs: Seq<M31>, k: nat) -> bool
    decreases k,
{
    &&& xs.len() == pow2(k)
    &&& (k > 0 ==> {
        let h = pow2((k - 1) as nat) as int;
        &&& forall|j: int|
            0 <= j < h ==> #[trigger] xs[j].val() != 0 && xs[j + h].val() == modp(-xs[j].val())
        &&& line_domain(xs.take(h).map_values(|x: M31| doubled_abscissa(x)), (k - 1) as nat)
    })
}

/// Points on which a polynomial can be interpolated: the second half are the conjugates of the
/// first, whose ordinates are nonzero and whose abscissas form a line domain.
pub open spec fn circle_interpolation_domain(points: Seq<MPoint>, k: nat) -> bool {
    let h = pow2(k) as int;
    &&& points.len() == 2 * h
    &&& forall|j: int|
        0 <= j < h ==> {
            &&& 0 <= (#[trigger] points[j]).0 < P
            &&& 0 < points[j].1 < P
            &&& points[j + h] == (points[j].0, modp(-points[j].1))
        }
    &&& line_domain(Seq::new(h as nat, |j: int| m31_of(points[j].0)), k)
}

/// Doubling the abscissa commutes with iterating it.
proof fn lemma_double_x_iter_shift(x: Q4, n: nat)
    ensures
        q_double_x_iter(x, n + 1) == q_double_x_iter(q_double_x(x), n),
    decreases n,
{
    assert(q_double_x_iter(x, n + 1) == q_double_x(q_double_x_iter(x, n)));
    if n > 0 {
        lemma_double_x_iter_shift(x, (n - 1) as nat);
        assert(q_double_x_iter(q_double_x(x), n) == q_double_x(q_double_x_iter(q_double_x(x), (n - 1) as nat)));
    }
}

/// The line factors of `x` are those of `dx(x)` followed by `x`.
proof fn lemma_line_factors_step(x: Q4, k: nat)
    ensures
        line_factors(x, k + 1) == line_factors(q_double_x(x), k).push(x),
{
    assert forall|j: int| 0 <= j < k implies #[trigger] line_factors(x, k + 1)[j] == line_factors(q_double_x(x), k)[j] by {
        lemma_double_x_iter_shift(x, (k - 1 - j) as nat);
    }
    assert(line_factors(x, k + 1) =~= line_factors(q_double_x(x), k).push(x));
}

/// Folding interleaved coefficients with a last factor `m`: the even coefficients plus `m`
/// times the odd ones.
proof fn lemma_fold_interleaved(c0: Seq<M31>, c1: Seq<M31>, f: Seq<Q4>, m: Q4)
    requires
        c0.len() == pow2(f.len()),
        c1.len() == c0.len(),
    ensures
        fold_spec(embed_seq(interleaved(c0, c1)), f.push(m)) == q_add(
            fold_spec(embed_seq(c0), f),
            q_mul(fold_spec(embed_seq(c1), f), m),
        ),
{
    let v = embed_seq(interleaved(c0, c1));
    let g = f.push(m);
    vstd::arithmetic::power2::lemma_pow2_unfold(g.len());
    assert(g.take(g.len() - 1) =~= f);
    lemma_fold_bottom_level(v, g);
    let a = embed_seq(c0);
    let b = embed_seq(c1);
    let bm = Seq::new(b.len(), |j: int| q_mul(b[j], m));
    assert(pairwise(v, m) =~= Seq::new(a.len(), |j: int| q_add(a[j], bm[j])));
    lemma_fold_add(a, bm, f);
    lemma_fold_scale(b, m, f);
}

/// The doubled abscissa, embedded, is `dx` of the embedded abscissa; negating the abscissa does
/// not change it.
proof fn lemma_embed_double(v: int)
    requires
        0 <= v < P,
    ensures
        q_double_x(q_embed(v)) == q_embed(doubled_abscissa(m31_of(v)).val()),
        doubled_abscissa(m31_of(modp(-v))) == doubled_abscissa(m31_of(v)),
{
    lemma_embed_ops(v, v);
    let m = modp(v * v);
    lemma_embed_ops(m, m);
    lemma_embed_ops(modp(m + m), 1);
    crate::qm31_algebra::lemma_modp_range(m + m);
    crate::qm31_algebra::lemma_modp_range(modp(m + m) - 1);
    crate::qm31_algebra::lemma_modp_range(-v);
    lemma_modp_mul(-v, modp(-v));
    lemma_modp_mul(-v, -v);
    assert((-v) * (-v) == v * v) by (nonlinear_arith);
}

/// `[c0[0], c1[0], c0[1], c1[1], ...]`.
fn interleave(c0: &Vec<M31>, c1: &Vec<M31>) -> (r: Vec<M31>)
    requires
        c0@.len() == c1@.len(),
        2 * c0@.len() <= usize::MAX,
    ensures
        r@ == interleaved(c0@, c1@),
{
    let mut r: Vec<M31> = Vec::new();
    let mut i: usize = 0;
    while i < c0.len()
        invariant
            i <= c0@.len(),
            c0@.len() == c1@.len(),
            r@ == interleaved(c0@, c1@).take(2 * i),
        decreases c0@.len() - i,
    {
        r.push(c0[i]);
        r.push(c1[i]);
        i = i + 1;
        assert(r@ =~= interleaved(c0@, c1@).take(2 * i));
    }
    assert(interleaved(c0@, c1@).take((2 * c0@.len()) as int) =~= interleaved(c0@, c1@));
    r
}

/// The coefficients in the basis `[1, x] x [1, dx(x)] x ...` of a function of `x` from its
/// values `values[j]` at the abscissas `xs[j]`. On a line domain the result takes those values.
fn interpolate_line(values: Vec<M31>, xs: Vec<M31>, log_n: u32) -> (r: Vec<M31>)
    requires
        log_n < 31,
        values@.len() == pow2(log_n as nat),
        xs@.len() == pow2(log_n as nat),
    ensures
        r@.len() == pow2(log_n as nat),
        line_domain(xs@, log_n as nat) ==> forall|j: int|
            0 <= j < pow2(log_n as nat) ==> #[trigger] fold_spec(
                embed_seq(r@),
                line_factors(q_embed(xs@[j].val()), log_n as nat),
            ) == q_embed(values@[j].val()),
    decreases log_n,
{
    if log_n == 0 {
        proof {
            vstd::arithmetic::power2::lemma2_to64();
            assert forall|j: int| 0 <= j < pow2(log_n as nat) implies #[trigger] fold_spec(
                embed_seq(values@),
                line_factors(q_embed(xs@[j].val()), log_n as nat),
            ) == q_embed(values@[j].val()) by {
                assert(j == 0);
            }
        }
        return values;
    }
    proof {
        vstd::arithmetic::power2::lemma_pow2_unfold(log_n as nat);
        vstd::arithmetic::power2::lemma_pow2_strictly_increases(log_n as nat, 31);
        vstd::arithmetic::power2::lemma2_to64();
    }
    let h = values.len() / 2;
    let half = M31::from_u32_unchecked(HALF);
    let mut g0: Vec<M31> = Vec::new();
    let mut g1: Vec<M31> = Vec::new();
    let mut next_xs: Vec<M31> = Vec::new();
    let mut j: usize = 0;
    while j < h
        invariant
            j <= h,
            h <= 0x4000_0000,
            values@.len() == 2 * h,
            xs@.len() == 2 * h,
            half.val() == HALF,
            g0@.len() == j,
            g1@.len() == j,
            next_xs@.len() == j,
            forall|t: int| 0 <= t < j ==> 0 <= (#[trigger] values@[t]).val() < P,
            forall|t: int| h <= t < h + j ==> 0 <= (#[trigger] values@[t]).val() < P,
            forall|t: int| 0 <= t < j ==> 0 <= (#[trigger] xs@[t]).val() < P,
            forall|t: int|
                0 <= t < j ==> #[trigger] g0@[t] == m31_of(modp(modp(values@[t].val() + values@[t + h].val()) * HALF)),
            forall|t: int|
                0 <= t < j ==> #[trigger] g1@[t] == m31_of(
                    modp(modp(values@[t].val() - values@[t + h].val()) * inverse_spec(modp(xs@[t].val() + xs@[t].val()))),
                ),
            forall|t: int| 0 <= t < j ==> #[trigger] next_xs@[t] == doubled_abscissa(xs@[t]),
        decreases h - j,
    {
        let a = values[j];
        let b = values[j + h];
        let x = xs[j];
        let av = a.value();
        let bv = b.value();
        let xv = x.value();
        assert(0 <= values@[j as int].val() < P && 0 <= values@[j + h].val() < P && 0 <= xs@[j as int].val() < P);
        let twice = x + x;
        let inv = twice.inverse();
        g0.push((a + b) * half);
        g1.push((a - b) * inv);
        next_xs.push(x * x + x * x - M31::one());
        j = j + 1;
    }
    let ghost next_spec = xs@.take(h as int).map_values(|x: M31| doubled_abscissa(x));
    assert(next_xs@ =~= next_spec);
    let c0 = interpolate_line(g0, next_xs.clone(), log_n - 1);
    let c1 = interpolate_line(g1, next_xs, log_n - 1);
    let r = interleave(&c0, &c1);
    proof {
        let k = (log_n - 1) as nat;
        if line_domain(xs@, log_n as nat) {
            assert forall|j: int| 0 <= j < pow2(log_n as nat) implies #[trigger] fold_spec(
                embed_seq(r@),
                line_factors(q_embed(xs@[j].val()), log_n as nat),
            ) == q_embed(values@[j].val()) by {
                let t = if j < h { j } else { j - h };
                let at = values@[t];
                let xt = xs@[t].val();
                let xv = xs@[j].val();
                let xq = q_embed(xv);
                lemma_line_factors_step(xq, k);
                assert(k + 1 == log_n);
                lemma_fold_interleaved(c0@, c1@, line_factors(q_double_x(xq), k), xq);
                lemma_embed_double(xt);
                assert(m31_of(xt) == xs@[t]);
                assert(xs@[t].val() != 0);
                if j >= h {
                    assert(xv == modp(-xt));
                    lemma_embed_double(xv);
                    crate::qm31_algebra::lemma_modp_range(-xt);
                    assert(m31_of(xv) == xs@[j]);
                }
                assert(q_double_x(xq) == q_embed(next_xs@[t].val()));
                let g0v = g0@[t].val();
                let g1v = g1@[t].val();
                lemma_embed_ops(g1v, xv);
                lemma_embed_ops(g0v, modp(g1v * xv));
                lemma_split_values(values@[t].val(), values@[t + h].val(), xt);
            }
        }
    }
    r
}

/// The polynomial of log size `domain.log_size()` that takes `values[i]` at the `i`-th point of
/// the circle domain `domain`, when the domain is canonic.
#[verifier::rlimit(50)]
pub fn interpolate(domain: &CircleDomain, values: &Vec<M31>) -> (r: CircleCoefficients)
    requires
        values@.len() == pow2(domain.spec_log_size()),
    ensures
        r.spec_log_size() == domain.spec_log_size(),
        canonic_domain(*domain) ==> forall|i: int|
            0 <= i < values@.len() ==> #[trigger] circle_eval(r.spec_coeffs(), domain.spec_log_size(), mp_lift(domain_points(*domain)[i]))
                == q_embed(values@[i].val()),
{
    let points = domain.points();
    let log_size = domain.log_size();
    let half_coset = domain.half_coset();
    let _ = half_coset.log_size();
    proof {
        domain.lemma_half_log_size();
        vstd::arithmetic::power2::lemma_pow2_unfold(log_size as nat);
        vstd::arithmetic::power2::lemma_pow2_strictly_increases(log_size as nat, 32);
        vstd::arithmetic::power2::lemma2_to64();
    }
    let h = points.len() / 2;
    let half = M31::from_u32_unchecked(HALF);
    let mut f0: Vec<M31> = Vec::new();
    let mut f1: Vec<M31> = Vec::new();
    let mut xs: Vec<M31> = Vec::new();
    let mut j: usize = 0;
    while j < h
        invariant
            j <= h,
            h <= 0x4000_0000,
            points@.len() == 2 * h,
            values@.len() == 2 * h,
            half.val() == HALF,
            f0@.len() == j,
            f1@.len() == j,
            xs@.len() == j,
            forall|t: int|
                0 <= t < j ==> {
                    &&& 0 <= (#[trigger] values@[t]).val() < P
                    &&& 0 <= values@[t + h].val() < P
                },
            forall|t: int|
                0 <= t < j ==> #[trigger] f0@[t] == m31_of(modp(modp(values@[t].val() + values@[t + h].val()) * HALF)),
            forall|t: int|
                0 <= t < j ==> #[trigger] f1@[t] == m31_of(
                    modp(modp(values@[t].val() - values@[t + h].val()) * inverse_spec(modp(points@[t].y.val() + points@[t].y.val()))),
                ),
            forall|t: int| 0 <= t < j ==> #[trigger] xs@[t] == points@[t].x,
        decreases h - j,
    {
        let p = points[j];
        let a = values[j];
        let b = values[j + h];
        let _ = a.value();
        let _ = b.value();
        let twice = p.y + p.y;
        let inv = twice.inverse();
        f0.push((a + b) * half);
        f1.push((a - b) * inv);
        xs.push(p.x);
        j = j + 1;
    }
    let ghost xs_spec = xs@;
    let c0 = interpolate_line(f0, xs.clone(), log_size - 1);
    let c1 = interpolate_line(f1, xs, log_size - 1);
    let coeffs = interleave(&c0, &c1);
    proof {
        assert(is_power_of_two(coeffs@.len())) by {
            assert(log_size < 64 && pow2(log_size as nat) == coeffs@.len());
        }
    }
    let r = CircleCoefficients::new(coeffs);
    proof {
        crate::statistical_zk::lemma_pow2_injective(r.spec_log_size(), log_size as nat);
        let k = (log_size - 1) as nat;
        let pts = domain_points(*domain);
        assert forall|i: int| 0 <= i < 2 * h implies #[trigger] pts[i] == points@[i]@ by {}
        if canonic_domain(*domain) {
            lemma_canonic_interpolation_domain(*domain);
            assert forall|j: int| 0 <= j < h implies #[trigger] xs_spec[j] == m31_of(pts[j].0) by {
                assert(xs_spec[j] == points@[j].x);
                assert(pts[j].0 == points@[j].x.val());
                assert(m31_of(pts[j].0).val() == pts[j].0);
            }
            assert(xs_spec =~= Seq::new(h as nat, |j: int| m31_of(pts[j].0)));
            assert forall|i: int| 0 <= i < values@.len() implies #[trigger] circle_eval(r.spec_coeffs(), domain.spec_log_size(), mp_lift(pts[i]))
                == q_embed(values@[i].val()) by {
                let t = if i < h { i } else { i - h };
                let z = mp_lift(pts[i]);
                assert(eval_mappings(z, log_size as nat) =~= line_factors(z.0, k).push(z.1));
                lemma_fold_interleaved(c0@, c1@, line_factors(z.0, k), z.1);
                assert(z.0 == q_embed(xs_spec[t].val()));
                let yt = pts[t].1;
                let yv = pts[i].1;
                assert(m31_of(pts[t].0) == xs_spec[t]);
                let f0v = f0@[t].val();
                let f1v = f1@[t].val();
                lemma_embed_ops(f1v, yv);
                lemma_embed_ops(f0v, modp(f1v * yv));
                lemma_split_values(values@[t].val(), values@[t + h].val(), yt);
            }
        }
    }
    r
}

/// A canonic circle domain of log size at most `30`: half coset `2^(30 - n) + <2^(32 - n)>`.
pub open spec fn canonic_domain(domain: CircleDomain) -> bool {
    &&& 1 <= domain.spec_log_size() <= 30
    &&& domain.spec_half().spec_initial() == index_pow2(30 - domain.spec_log_size())
    &&& domain.spec_half().spec_step() == index_pow2(32 - domain.spec_log_size())
}

/// The points of a circle domain, in domain order.
pub open spec fn domain_points(domain: CircleDomain) -> Seq<MPoint> {
    Seq::new(
        pow2(domain.spec_log_size()),
        |i: int| crate::circle::mp_mul(crate::circle::m31_circle_gen(), crate::domain::domain_index(domain.spec_half(), i) as nat),
    )
}


/// The abscissas of the first `2^(k - e)` points of `pts` doubled `e` times.
pub open spec fn abscissa_level(pts: Seq<MPoint>, k: nat, e: nat) -> Seq<M31> {
    Seq::new(pow2((k - e) as nat), |j: int| m31_of(mp_repeated_double(pts[j], e).0))
}

/// The `j`-th point of a canonic circle domain is `domain_index g`, canonical and on the circle.
proof fn lemma_canonic_point(domain: CircleDomain, j: int)
    requires
        0 <= j < pow2(domain.spec_log_size()),
    ensures
        ({
            let kj = domain_index(domain.spec_half(), j) as nat;
            let p = domain_points(domain)[j];
            &&& p == mp_pow(m31_circle_gen(), kj)
            &&& mp_canon(p)
            &&& mp_on_circle(p)
        }),
{
    let g = m31_circle_gen();
    let kj = domain_index(domain.spec_half(), j) as nat;
    lemma_generator_facts();
    lemma_mp_mul_is_pow(g, kj);
    lemma_mp_pow_canon(g, kj);
    lemma_mp_pow_on_circle(g, kj);
}

/// The facts about sizes the levels rest on: with `a = 2^(29 - k)` and `h = 2^k`, point `j` of the
/// half coset has index `a + 4 a j`, and `a h = 2^29`.
proof fn lemma_half_coset_index(domain: CircleDomain, j: int)
    requires
        1 <= domain.spec_log_size() <= 30,
        domain.spec_half().spec_initial() == index_pow2(30 - domain.spec_log_size()),
        domain.spec_half().spec_step() == index_pow2(32 - domain.spec_log_size()),
        0 <= j < pow2((domain.spec_log_size() - 1) as nat),
    ensures
        ({
            let k = (domain.spec_log_size() - 1) as nat;
            let a = pow2((29 - k) as nat) as int;
            &&& a * pow2(k) == 0x2000_0000
            &&& a >= 1
            &&& domain_index(domain.spec_half(), j) == a + 4 * a * j
        }),
{
    let half = domain.spec_half();
    domain.lemma_half_log_size();
    let k = half.spec_log_size();
    let h = pow2(k) as int;
    let a = pow2((29 - k) as nat) as int;
    vstd::arithmetic::power2::lemma2_to64();
    vstd::arithmetic::power2::lemma2_to64_rest();
    vstd::arithmetic::power2::lemma_pow2_adds((29 - k) as nat, k);
    vstd::arithmetic::power2::lemma_pow2_adds((29 - k) as nat, 2);
    vstd::arithmetic::power2::lemma_pow2_pos((29 - k) as nat);
    vstd::arithmetic::power2::lemma_pow2_strictly_increases((29 - k) as nat, 31);
    assert(((29 - k) + 2) as nat == (31 - k) as nat);
    assert(((29 - k) + k) as nat == 29);
    vstd::arithmetic::div_mod::lemma_small_mod(a as nat, 0x8000_0000);
    assert(half.spec_initial() == a);
    if k >= 1 {
        vstd::arithmetic::power2::lemma_pow2_strictly_increases((31 - k) as nat, 31);
        vstd::arithmetic::div_mod::lemma_small_mod((4 * a) as nat, 0x8000_0000);
        assert(half.spec_step() == 4 * a);
    } else {
        assert(j == 0);
    }
    assert(0 <= a + 4 * a * j < 0x8000_0000) by (nonlinear_arith)
        requires
            0 <= j < h,
            a * h == 0x2000_0000,
            a >= 1,
    ;
    vstd::arithmetic::div_mod::lemma_small_mod((a + 4 * a * j) as nat, 0x8000_0000);
}

/// Adding `2^30` to the index of a multiple of the generator, the point of order two, negates
/// its abscissa.
proof fn lemma_add_order_two(m: nat)
    ensures
        mp_pow(m31_circle_gen(), m + 0x4000_0000).0 == modp(-mp_pow(m31_circle_gen(), m).0),
{
    let g = m31_circle_gen();
    lemma_generator_facts();
    lemma_mp_pow_add(g, m, 0x4000_0000);
    let q = mp_pow(g, m);
    lemma_mp_pow_canon(g, m);
    vstd::arithmetic::power2::lemma2_to64();
    lemma_gen_doubling_is_pow(30);
    assert(mp_pow(g, 0x4000_0000) == gen_doubling(30));
    assert(q.0 * 2147483646 == P as int * q.0 + (-q.0)) by (nonlinear_arith);
    vstd::arithmetic::div_mod::lemma_mod_multiples_vanish(q.0, -q.0, P as int);
    assert(mp_add(q, gen_doubling(30)).0 == modp(q.0 * 2147483646 - q.1 * 0));
}

/// The index arithmetic of a level: `(kj + 4 a hh) t = kj t + 2^30` when `4 a hh t = 2^30`.
proof fn lemma_level_index(kj: nat, a: int, hh: int, t: nat, h: int)
    requires
        a * h == 0x2000_0000,
        hh * t * 2 == h,
    ensures
        (kj + 4 * a * hh) * t == kj * t + 0x4000_0000,
{
    assert(4 * a * hh * t == 0x4000_0000) by (nonlinear_arith)
        requires
            a * h == 0x2000_0000,
            hh * t * 2 == h,
    ;
    assert((kj + 4 * a * hh) * t == kj * t + 4 * a * hh * t) by (nonlinear_arith);
}

/// Entry `j` of level `e` is the abscissa of `(index_j 2^e) g`.
proof fn lemma_level_value(domain: CircleDomain, e: nat, j: int)
    requires
        1 <= domain.spec_log_size() <= 30,
        e < domain.spec_log_size(),
        0 <= j < pow2((domain.spec_log_size() - 1 - e) as nat),
        pow2((domain.spec_log_size() - 1 - e) as nat) <= pow2(domain.spec_log_size()),
    ensures
        abscissa_level(domain_points(domain), (domain.spec_log_size() - 1) as nat, e)[j].val() == mp_pow(
            m31_circle_gen(),
            domain_index(domain.spec_half(), j) as nat * pow2(e),
        ).0,
{
    let g = m31_circle_gen();
    let kj = domain_index(domain.spec_half(), j) as nat;
    lemma_canonic_point(domain, j);
    lemma_generator_facts();
    lemma_mp_repeated_double_pow(g, kj, e);
    lemma_mp_pow_canon(g, kj * pow2(e));
}

/// At level `e`, the abscissa of point `j + 2^(k - e - 1)` is minus that of point `j`, and both
/// are nonzero.
proof fn lemma_level_pair(domain: CircleDomain, e: nat, j: int)
    requires
        1 <= domain.spec_log_size() <= 30,
        domain.spec_half().spec_initial() == index_pow2(30 - domain.spec_log_size()),
        domain.spec_half().spec_step() == index_pow2(32 - domain.spec_log_size()),
        e < domain.spec_log_size() - 1,
        0 <= j < pow2((domain.spec_log_size() - 2 - e) as nat),
    ensures
        ({
            let k = (domain.spec_log_size() - 1) as nat;
            let hh = pow2((k - e - 1) as nat) as int;
            let lv = abscissa_level(domain_points(domain), k, e);
            &&& lv[j].val() != 0
            &&& lv[j + hh].val() == modp(-lv[j].val())
        }),
{
    let half = domain.spec_half();
    domain.lemma_half_log_size();
    let k = half.spec_log_size();
    let n = (k - e) as nat;
    let hh = pow2((n - 1) as nat) as int;
    let h = pow2(k) as int;
    let t = pow2(e);
    assert(hh * t * 2 == h && hh <= h / 2 && pow2(n) == 2 * hh) by {
        vstd::arithmetic::power2::lemma_pow2_unfold(n);
        vstd::arithmetic::power2::lemma_pow2_adds(n, e);
        vstd::arithmetic::power2::lemma_pow2_pos(e);
        vstd::arithmetic::power2::lemma_pow2_pos((n - 1) as nat);
        assert((n + e) as nat == k);
        assert(hh * t * 2 == h) by (nonlinear_arith)
            requires
                pow2(n) == 2 * hh,
                pow2(n) * t == h,
        ;
        assert(hh <= hh * t) by (nonlinear_arith)
            requires
                t >= 1,
                hh >= 0,
        ;
    }
    assert(pow2(n) <= pow2(domain.spec_log_size())) by {
        vstd::arithmetic::power2::lemma_pow2_unfold(domain.spec_log_size());
    }
    let a = pow2((29 - k) as nat) as int;
    let kj = domain_index(half, j) as nat;
    let kk = domain_index(half, j + hh) as nat;
    let lv = abscissa_level(domain_points(domain), k, e);
    let g = m31_circle_gen();
    assert(kk * t == kj * t + 0x4000_0000) by {
        lemma_half_coset_index(domain, j);
        lemma_half_coset_index(domain, j + hh);
        assert(a + 4 * a * (j + hh) == a + 4 * a * j + 4 * a * hh) by (nonlinear_arith);
        lemma_level_index(kj, a, hh, t, h);
    }
    assert(lv[j].val() == mp_pow(g, kj * t).0) by {
        lemma_level_value(domain, e, j);
    }
    assert(lv[j + hh].val() == mp_pow(g, kk * t).0) by {
        lemma_level_value(domain, e, j + hh);
    }
    assert(lv[j + hh].val() == modp(-lv[j].val())) by {
        lemma_add_order_two(kj * t);
    }
    assert(lv[j].val() != 0) by {
        lemma_canonic_domain_doubling_abscissa(half, j, e);
        lemma_generator_facts();
        lemma_mp_mul_is_pow(g, kj);
        lemma_mp_repeated_double_pow(g, kj, e);
    }
}

/// Doubling the abscissas of the first half of level `e` gives level `e + 1`.
proof fn lemma_level_double(domain: CircleDomain, e: nat, j: int)
    requires
        1 <= domain.spec_log_size() <= 30,
        domain.spec_half().spec_initial() == index_pow2(30 - domain.spec_log_size()),
        domain.spec_half().spec_step() == index_pow2(32 - domain.spec_log_size()),
        e < domain.spec_log_size() - 1,
        0 <= j < pow2((domain.spec_log_size() - 2 - e) as nat),
    ensures
        ({
            let k = (domain.spec_log_size() - 1) as nat;
            doubled_abscissa(abscissa_level(domain_points(domain), k, e)[j]) == abscissa_level(
                domain_points(domain),
                k,
                e + 1,
            )[j]
        }),
{
    let g = m31_circle_gen();
    let half = domain.spec_half();
    domain.lemma_half_log_size();
    let k = half.spec_log_size();
    let n = (k - e) as nat;
    let pts = domain_points(domain);
    vstd::arithmetic::power2::lemma_pow2_unfold(domain.spec_log_size());
    vstd::arithmetic::power2::lemma_pow2_unfold(n);
    vstd::arithmetic::power2::lemma_pow2_adds(n, e);
    vstd::arithmetic::power2::lemma_pow2_pos(e);
    let t = pow2(e);
    let hh = pow2((n - 1) as nat) as int;
    assert(j < pow2(k)) by (nonlinear_arith)
        requires
            j < hh,
            pow2(n) == 2 * hh,
            pow2(n) * t == pow2(k),
            t >= 1,
    ;
    let kj = domain_index(half, j) as nat;
    lemma_canonic_point(domain, j);
    lemma_generator_facts();
    lemma_mp_repeated_double_pow(g, kj, e);
    let q = mp_repeated_double(pts[j], e);
    lemma_mp_pow_canon(g, kj * t);
    lemma_mp_pow_on_circle(g, kj * t);
    let x = q.0;
    let y = q.1;
    assert(mp_repeated_double(pts[j], e + 1) == mp_add(q, q));
    lemma_modp_add_sub(x * x + x * x, x * x + y * y);
    assert(x * x - y * y == (x * x + x * x) - (x * x + y * y));
    lemma_modp_add_sub(x * x, modp(x * x));
    lemma_modp_add_sub(x * x, x * x);
    lemma_modp_add_sub(modp(x * x) + modp(x * x), 1);
    lemma_modp_add_sub(x * x + x * x, 1);
    assert(modp(modp(x * x) + modp(x * x)) == modp(x * x + x * x));
    lemma_mp_add_canon(q, q);
}

/// The `e`-fold doubles of the points of the first half of a canonic circle domain form a line
/// domain.
proof fn lemma_abscissa_levels(domain: CircleDomain, e: nat)
    requires
        1 <= domain.spec_log_size() <= 30,
        domain.spec_half().spec_initial() == index_pow2(30 - domain.spec_log_size()),
        domain.spec_half().spec_step() == index_pow2(32 - domain.spec_log_size()),
        e <= domain.spec_log_size() - 1,
    ensures
        line_domain(
            abscissa_level(domain_points(domain), (domain.spec_log_size() - 1) as nat, e),
            (domain.spec_log_size() - 1 - e) as nat,
        ),
    decreases domain.spec_log_size() - 1 - e,
{
    domain.lemma_half_log_size();
    let k = (domain.spec_log_size() - 1) as nat;
    let n = (k - e) as nat;
    let pts = domain_points(domain);
    let lv = abscissa_level(pts, k, e);
    if n > 0 {
        let hh = pow2((n - 1) as nat) as int;
        assert((domain.spec_log_size() - 2 - e) as nat == (n - 1) as nat);
        assert forall|j: int|
            0 <= j < hh implies #[trigger] lv[j].val() != 0 && lv[j + hh].val() == modp(-lv[j].val()) by {
            lemma_level_pair(domain, e, j);
        }
        vstd::arithmetic::power2::lemma_pow2_unfold(n);
        let next = lv.take(hh).map_values(|x: M31| doubled_abscissa(x));
        let lv1 = abscissa_level(pts, k, e + 1);
        assert forall|j: int| 0 <= j < hh implies #[trigger] next[j] == lv1[j] by {
            lemma_level_double(domain, e, j);
        }
        assert(next =~= lv1);
        lemma_abscissa_levels(domain, e + 1);
    }
}

/// A canonic circle domain of log size at most `30` allows interpolation.
pub proof fn lemma_canonic_interpolation_domain(domain: CircleDomain)
    requires
        1 <= domain.spec_log_size() <= 30,
        domain.spec_half().spec_initial() == index_pow2(30 - domain.spec_log_size()),
        domain.spec_half().spec_step() == index_pow2(32 - domain.spec_log_size()),
    ensures
        circle_interpolation_domain(domain_points(domain), (domain.spec_log_size() - 1) as nat),
{
    let g = m31_circle_gen();
    let half = domain.spec_half();
    domain.lemma_half_log_size();
    let k = half.spec_log_size();
    let h = pow2(k) as int;
    let pts = domain_points(domain);
    vstd::arithmetic::power2::lemma_pow2_unfold(domain.spec_log_size());
    lemma_generator_facts();
    assert forall|j: int| 0 <= j < h implies {
        &&& 0 <= (#[trigger] pts[j]).0 < P
        &&& 0 < pts[j].1 < P
        &&& pts[j + h] == (pts[j].0, modp(-pts[j].1))
    } by {
        lemma_canonic_point(domain, j);
        lemma_domain_conjugate_halves(half, j);
        let kj = domain_index(half, j) as nat;
        let p = pts[j];
        lemma_canonic_domain_doubling_abscissa(half, j, k);
        if p.1 == 0 {
            lemma_mp_repeated_double_pow(g, kj, k);
            if k == 0 {
                assert(mp_repeated_double(p, 0) == p);
                assert(modp(p.0 * p.0 + p.1 * p.1) == 1);
                assert(p.0 * p.0 + p.1 * p.1 == 0);
            } else {
                vstd::arithmetic::power2::lemma_pow2_unfold(k);
                lemma_mp_pow_add(g, kj, kj);
                assert(modp(p.0 * p.0 + 0 * 0) == 1);
                assert(mp_add(p, p) == mp_zero());
                assert(kj * pow2(k) == (kj + kj) * pow2((k - 1) as nat)) by (nonlinear_arith)
                    requires
                        pow2(k) == 2 * pow2((k - 1) as nat),
                ;
                lemma_mp_repeated_double_pow(g, kj + kj, (k - 1) as nat);
                crate::circle_group::lemma_mp_pow_zero(pow2((k - 1) as nat));
                assert(mp_pow(g, kj + kj) == mp_zero());
                assert(mp_pow(mp_zero(), 1 * pow2((k - 1) as nat)) == mp_zero());
                lemma_mp_repeated_double_pow(mp_zero(), 1, (k - 1) as nat);
                assert(mp_pow(mp_zero(), 1) == mp_zero()) by {
                    crate::circle_group::lemma_mp_pow_zero(1);
                }
            }
        }
    }
    lemma_abscissa_levels(domain, 0);
    let lv0 = abscissa_level(pts, k, 0);
    assert forall|j: int| 0 <= j < h implies #[trigger] lv0[j] == m31_of(pts[j].0) by {
        assert(mp_repeated_double(pts[j], 0) == pts[j]);
    }
    assert(lv0 =~= Seq::new(h as nat, |j: int| m31_of(pts[j].0)));
}

} // verus!
