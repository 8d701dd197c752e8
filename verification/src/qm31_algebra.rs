//! Ring laws of the degree-4 extension `QM31 = CM31[u] / (u^2 - 2 - i)`, `CM31 = M31[i] / (i^2 + 1)`.
//!
//! An element is modelled by its four integer coordinates `(a, b, c, d)`, standing for
//! `(a + b i) + (c + d i) u`. The product is first defined over the integers (`q_mul_raw`),
//! where the ring laws are polynomial identities, and then reduced coordinatewise modulo `P`.
use vstd::prelude::*;
use crate::m31::{modp, P};

verus! {

/// Coordinates `(a, b, c, d)` of `(a + b i) + (c + d i) u`.
pub type Q4 = (int, int, int, int);

/// The product over the integers, before reduction.
#[verifier::opaque]
pub open spec fn q_mul_raw(x: Q4, y: Q4) -> Q4 {
    (
        x.0 * y.0 - x.1 * y.1 + 2 * (x.2 * y.2 - x.3 * y.3) - (x.2 * y.3 + x.3 * y.2),
        x.0 * y.1 + x.1 * y.0 + 2 * (x.2 * y.3 + x.3 * y.2) + (x.2 * y.2 - x.3 * y.3),
        x.0 * y.2 - x.1 * y.3 + x.2 * y.0 - x.3 * y.1,
        x.0 * y.3 + x.1 * y.2 + x.2 * y.1 + x.3 * y.0,
    )
}
pub open spec fn q_add_raw(x: Q4, y: Q4) -> Q4 {
    (x.0 + y.0, x.1 + y.1, x.2 + y.2, x.3 + y.3)
}
pub open spec fn q_scale_raw(c: int, x: Q4) -> Q4 {
    (c * x.0, c * x.1, c * x.2, c * x.3)
}
/// The body of `q_mul_raw`, for the proofs that must see it.
pub open spec fn q_mul_formula(x: Q4, y: Q4) -> Q4 {
    (
        x.0 * y.0 - x.1 * y.1 + 2 * (x.2 * y.2 - x.3 * y.3) - (x.2 * y.3 + x.3 * y.2),
        x.0 * y.1 + x.1 * y.0 + 2 * (x.2 * y.3 + x.3 * y.2) + (x.2 * y.2 - x.3 * y.3),
        x.0 * y.2 - x.1 * y.3 + x.2 * y.0 - x.3 * y.1,
        x.0 * y.3 + x.1 * y.2 + x.2 * y.1 + x.3 * y.0,
    )
}

pub open spec fn unit(i: int) -> Q4 {
    if i == 0 { (1, 0, 0, 0) } else if i == 1 { (0, 1, 0, 0) } else if i == 2 { (0, 0, 1, 0) } else { (0, 0, 0, 1) }
}
pub proof fn lemma_add_left(x: Q4, w: Q4, y: Q4)
    ensures q_mul_raw(q_add_raw(x, w), y) == q_add_raw(q_mul_raw(x, y), q_mul_raw(w, y)),
{
    reveal(q_mul_raw);
    let (x0, x1, x2, x3) = x;
    let (w0, w1, w2, w3) = w;
    let (y0, y1, y2, y3) = y;
    assert((x0 + w0) * y0 == x0 * y0 + w0 * y0) by (nonlinear_arith);
    assert((x0 + w0) * y1 == x0 * y1 + w0 * y1) by (nonlinear_arith);
    assert((x0 + w0) * y2 == x0 * y2 + w0 * y2) by (nonlinear_arith);
    assert((x0 + w0) * y3 == x0 * y3 + w0 * y3) by (nonlinear_arith);
    assert((x1 + w1) * y0 == x1 * y0 + w1 * y0) by (nonlinear_arith);
    assert((x1 + w1) * y1 == x1 * y1 + w1 * y1) by (nonlinear_arith);
    assert((x1 + w1) * y2 == x1 * y2 + w1 * y2) by (nonlinear_arith);
    assert((x1 + w1) * y3 == x1 * y3 + w1 * y3) by (nonlinear_arith);
    assert((x2 + w2) * y0 == x2 * y0 + w2 * y0) by (nonlinear_arith);
    assert((x2 + w2) * y1 == x2 * y1 + w2 * y1) by (nonlinear_arith);
    assert((x2 + w2) * y2 == x2 * y2 + w2 * y2) by (nonlinear_arith);
    assert((x2 + w2) * y3 == x2 * y3 + w2 * y3) by (nonlinear_arith);
    assert((x3 + w3) * y0 == x3 * y0 + w3 * y0) by (nonlinear_arith);
    assert((x3 + w3) * y1 == x3 * y1 + w3 * y1) by (nonlinear_arith);
    assert((x3 + w3) * y2 == x3 * y2 + w3 * y2) by (nonlinear_arith);
    assert((x3 + w3) * y3 == x3 * y3 + w3 * y3) by (nonlinear_arith);
}
pub proof fn lemma_dist6(c: int, a: int, b: int, d: int, e: int, f: int, g: int)
    ensures c * (a - b + 2 * (d - e) - (f + g)) == c * a - c * b + 2 * (c * d) - 2 * (c * e) - c * f - c * g,
{
    assert(c * (a - b + 2 * (d - e) - (f + g)) == c * a - c * b + 2 * (c * d) - 2 * (c * e) - c * f - c * g) by (nonlinear_arith);
}
pub proof fn lemma_dist6b(c: int, a: int, b: int, d: int, e: int, f: int, g: int)
    ensures c * (a + b + 2 * (d + e) + (f - g)) == c * a + c * b + 2 * (c * d) + 2 * (c * e) + c * f - c * g,
{
    assert(c * (a + b + 2 * (d + e) + (f - g)) == c * a + c * b + 2 * (c * d) + 2 * (c * e) + c * f - c * g) by (nonlinear_arith);
}
pub proof fn lemma_dist4(c: int, a: int, b: int, d: int, e: int)
    ensures c * (a - b + d - e) == c * a - c * b + c * d - c * e,
        c * (a + b + d + e) == c * a + c * b + c * d + c * e,
{
    assert(c * (a - b + d - e) == c * a - c * b + c * d - c * e) by (nonlinear_arith);
    assert(c * (a + b + d + e) == c * a + c * b + c * d + c * e) by (nonlinear_arith);
}
pub proof fn lemma_scale_left(c: int, x: Q4, y: Q4)
    ensures q_mul_raw(q_scale_raw(c, x), y) == q_scale_raw(c, q_mul_raw(x, y)),
{
    reveal(q_mul_raw);
    broadcast use vstd::arithmetic::mul::lemma_mul_is_associative;
    let (x0, x1, x2, x3) = x;
    let (y0, y1, y2, y3) = y;
    lemma_dist6(c, x0 * y0, x1 * y1, x2 * y2, x3 * y3, x2 * y3, x3 * y2);
    lemma_dist6b(c, x0 * y1, x1 * y0, x2 * y3, x3 * y2, x2 * y2, x3 * y3);
    lemma_dist4(c, x0 * y2, x1 * y3, x2 * y0, x3 * y1);
    lemma_dist4(c, x0 * y3, x1 * y2, x2 * y1, x3 * y0);
}
pub proof fn lemma_lf(a: int, b: int, c: int)
    ensures
        (2 * a - b) * c == 2 * (a * c) - b * c,
        (2 * a + b) * c == 2 * (a * c) + b * c,
        (-2 * a - b) * c == -2 * (a * c) - b * c,
        (-a) * c == -(a * c),
{
    assert((2 * a - b) * c == 2 * (a * c) - b * c) by (nonlinear_arith);
    assert((2 * a + b) * c == 2 * (a * c) + b * c) by (nonlinear_arith);
    assert((-2 * a - b) * c == -2 * (a * c) - b * c) by (nonlinear_arith);
    assert((-a) * c == -(a * c)) by (nonlinear_arith);
}
pub open spec fn unit_form(i: int, y: Q4) -> Q4 {
    if i == 0 {
        y
    } else if i == 1 {
        (-y.1, y.0, -y.3, y.2)
    } else if i == 2 {
        (2 * y.2 - y.3, 2 * y.3 + y.2, y.0, y.1)
    } else {
        (-2 * y.3 - y.2, 2 * y.2 - y.3, -y.1, y.0)
    }
}
pub proof fn lemma_unit_mul(i: int, y: Q4)
    requires 0 <= i < 4,
    ensures q_mul_raw(unit(i), y) == unit_form(i, y),
{
    reveal(q_mul_raw);
    let e = unit(i);
    let u = q_mul_raw(e, y);
    let f = unit_form(i, y);
    if i == 0 {
        assert(u == f) by (nonlinear_arith) requires e == (1int, 0int, 0int, 0int), u == q_mul_formula(e, y), f == y;
    } else if i == 1 {
        assert(u == f) by (nonlinear_arith) requires e == (0int, 1int, 0int, 0int), u == q_mul_formula(e, y), f == (-y.1, y.0, -y.3, y.2);
    } else if i == 2 {
        assert(u == f) by (nonlinear_arith) requires e == (0int, 0int, 1int, 0int), u == q_mul_formula(e, y), f == (2 * y.2 - y.3, 2 * y.3 + y.2, y.0, y.1);
    } else {
        assert(u == f) by (nonlinear_arith) requires e == (0int, 0int, 0int, 1int), u == q_mul_formula(e, y), f == (-2 * y.3 - y.2, 2 * y.2 - y.3, -y.1, y.0);
    }
}
pub proof fn lemma_unit_assoc(i: int, y: Q4, z: Q4)
    requires 0 <= i < 4,
    ensures q_mul_raw(q_mul_raw(unit(i), y), z) == q_mul_raw(unit(i), q_mul_raw(y, z)),
{
    reveal(q_mul_raw);
    let (y0, y1, y2, y3) = y;
    let (z0, z1, z2, z3) = z;
    lemma_unit_mul(i, y);
    lemma_unit_mul(i, q_mul_raw(y, z));
    if i == 1 {
        lemma_lf(y1, y1, z0); lemma_lf(y1, y1, z1); lemma_lf(y1, y1, z2); lemma_lf(y1, y1, z3);
        lemma_lf(y3, y3, z0); lemma_lf(y3, y3, z1); lemma_lf(y3, y3, z2); lemma_lf(y3, y3, z3);
    } else if i == 2 {
        lemma_lf(y2, y3, z0); lemma_lf(y2, y3, z1); lemma_lf(y2, y3, z2); lemma_lf(y2, y3, z3);
        lemma_lf(y3, y2, z0); lemma_lf(y3, y2, z1); lemma_lf(y3, y2, z2); lemma_lf(y3, y2, z3);
    } else if i == 3 {
        lemma_lf(y3, y2, z0); lemma_lf(y3, y2, z1); lemma_lf(y3, y2, z2); lemma_lf(y3, y2, z3);
        lemma_lf(y2, y3, z0); lemma_lf(y2, y3, z1); lemma_lf(y2, y3, z2); lemma_lf(y2, y3, z3);
        lemma_lf(y1, y1, z0); lemma_lf(y1, y1, z1); lemma_lf(y1, y1, z2); lemma_lf(y1, y1, z3);
    }
}
pub proof fn lemma_expand(x: Q4, y: Q4)
    ensures q_mul_raw(x, y) == q_add_raw(q_add_raw(q_scale_raw(x.0, q_mul_raw(unit(0), y)), q_scale_raw(x.1, q_mul_raw(unit(1), y))),
        q_add_raw(q_scale_raw(x.2, q_mul_raw(unit(2), y)), q_scale_raw(x.3, q_mul_raw(unit(3), y)))),
{
    reveal(q_mul_raw);
    let (x0, x1, x2, x3) = x;
    let (y0, y1, y2, y3) = y;
    assert(x0 * (2 * y2 - y3) == 2 * (x0 * y2) - x0 * y3) by (nonlinear_arith);
    assert(x0 * (2 * y3 + y2) == 2 * (x0 * y3) + x0 * y2) by (nonlinear_arith);
    assert(x1 * (-1 * y1) == -(x1 * y1)) by (nonlinear_arith);
    assert(x1 * (- y1) == -(x1 * y1)) by (nonlinear_arith);
    assert(x1 * (- y3) == -(x1 * y3)) by (nonlinear_arith);
    assert(x1 * (- y0) == -(x1 * y0)) by (nonlinear_arith);
    assert(x2 * (2 * y2 - y3) == 2 * (x2 * y2) - x2 * y3) by (nonlinear_arith);
    assert(x2 * (2 * y3 + y2) == 2 * (x2 * y3) + x2 * y2) by (nonlinear_arith);
    assert(x3 * (-2 * y3 - y2) == -2 * (x3 * y3) - x3 * y2) by (nonlinear_arith);
    assert(x3 * (2 * y2 - y3) == 2 * (x3 * y2) - x3 * y3) by (nonlinear_arith);
    assert(x3 * (- y1) == -(x3 * y1)) by (nonlinear_arith);
    assert(x3 * (- y0) == -(x3 * y0)) by (nonlinear_arith);
    assert(x2 * (- y1) == -(x2 * y1)) by (nonlinear_arith);
    assert(x2 * (- y3) == -(x2 * y3)) by (nonlinear_arith);
    assert(x0 * (- y1) == -(x0 * y1)) by (nonlinear_arith);
    assert(x2 * (-2 * y3 - y2) == -2 * (x2 * y3) - x2 * y2) by (nonlinear_arith);
    assert(x2 * (2 * y2 - y3) == 2 * (x2 * y2) - x2 * y3) by (nonlinear_arith);
    assert(x1 * (-2 * y3 - y2) == -2 * (x1 * y3) - x1 * y2) by (nonlinear_arith);
    assert(x1 * (2 * y2 - y3) == 2 * (x1 * y2) - x1 * y3) by (nonlinear_arith);
}
pub proof fn lemma_assoc_raw(x: Q4, y: Q4, z: Q4)
    ensures q_mul_raw(q_mul_raw(x, y), z) == q_mul_raw(x, q_mul_raw(y, z)),
{
    let w = q_mul_raw(y, z);
    lemma_expand(x, y);
    lemma_expand(x, w);
    let u0 = q_mul_raw(unit(0), y);
    let u1 = q_mul_raw(unit(1), y);
    let u2 = q_mul_raw(unit(2), y);
    let u3 = q_mul_raw(unit(3), y);
    let a = q_add_raw(q_scale_raw(x.0, u0), q_scale_raw(x.1, u1));
    let b = q_add_raw(q_scale_raw(x.2, u2), q_scale_raw(x.3, u3));
    lemma_add_left(a, b, z);
    lemma_add_left(q_scale_raw(x.0, u0), q_scale_raw(x.1, u1), z);
    lemma_add_left(q_scale_raw(x.2, u2), q_scale_raw(x.3, u3), z);
    lemma_scale_left(x.0, u0, z);
    lemma_scale_left(x.1, u1, z);
    lemma_scale_left(x.2, u2, z);
    lemma_scale_left(x.3, u3, z);
    lemma_unit_assoc(0, y, z);
    lemma_unit_assoc(1, y, z);
    lemma_unit_assoc(2, y, z);
    lemma_unit_assoc(3, y, z);
}
pub proof fn lemma_comm_raw(x: Q4, y: Q4)
    ensures q_mul_raw(x, y) == q_mul_raw(y, x),
{
    reveal(q_mul_raw);
    broadcast use vstd::arithmetic::mul::lemma_mul_is_commutative;
}


// ---------------------------------------------------------------------------
// Reduced arithmetic.
// ---------------------------------------------------------------------------

/// Coordinatewise reduction modulo `P`.
#[verifier::opaque]
pub open spec fn q_red(x: Q4) -> Q4 {
    (modp(x.0), modp(x.1), modp(x.2), modp(x.3))
}

/// All four coordinates lie in `[0, P)`.
pub open spec fn q_canon(x: Q4) -> bool {
    &&& 0 <= x.0 < P
    &&& 0 <= x.1 < P
    &&& 0 <= x.2 < P
    &&& 0 <= x.3 < P
}

pub open spec fn q_neg_raw(x: Q4) -> Q4 {
    (-x.0, -x.1, -x.2, -x.3)
}

pub open spec fn q_add(x: Q4, y: Q4) -> Q4 {
    q_red(q_add_raw(x, y))
}

pub open spec fn q_neg(x: Q4) -> Q4 {
    q_red(q_neg_raw(x))
}

pub open spec fn q_sub(x: Q4, y: Q4) -> Q4 {
    q_red(q_add_raw(x, q_neg_raw(y)))
}

pub open spec fn q_mul(x: Q4, y: Q4) -> Q4 {
    q_red(q_mul_raw(x, y))
}

pub open spec fn q_zero() -> Q4 {
    (0, 0, 0, 0)
}

pub open spec fn q_one() -> Q4 {
    (1, 0, 0, 0)
}

/// The base field element `a` seen in the extension.
pub open spec fn q_embed(a: int) -> Q4 {
    (a, 0, 0, 0)
}

pub proof fn lemma_modp_range(a: int)
    ensures
        0 <= modp(a) < P,
{
    vstd::arithmetic::div_mod::lemma_mod_bound(a, P as int);
}

pub proof fn lemma_modp_small(a: int)
    requires
        0 <= a < P,
    ensures
        modp(a) == a,
{
    vstd::arithmetic::div_mod::lemma_small_mod(a as nat, P as nat);
}

pub proof fn lemma_modp_add_left(a: int, b: int)
    ensures
        modp(modp(a) + b) == modp(a + b),
{
    let p = P as int;
    vstd::arithmetic::div_mod::lemma_add_mod_noop(a, b, p);
    vstd::arithmetic::div_mod::lemma_add_mod_noop(modp(a), b, p);
    vstd::arithmetic::div_mod::lemma_mod_twice(a, p);
}

pub proof fn lemma_modp_neg(a: int)
    ensures
        modp(-modp(a)) == modp(-a),
{
    let p = P as int;
    vstd::arithmetic::div_mod::lemma_sub_mod_noop(0, a, p);
    vstd::arithmetic::div_mod::lemma_sub_mod_noop(0, modp(a), p);
    vstd::arithmetic::div_mod::lemma_mod_twice(a, p);
}

/// Every reduced value is canonical, and reduction fixes canonical values.
pub proof fn lemma_red_canon(x: Q4)
    ensures
        q_canon(q_red(x)),
        q_canon(x) ==> q_red(x) == x,
        q_red(q_red(x)) == q_red(x),
{
    reveal(q_red);
    lemma_modp_range(x.0);
    lemma_modp_range(x.1);
    lemma_modp_range(x.2);
    lemma_modp_range(x.3);
    lemma_modp_small(modp(x.0));
    lemma_modp_small(modp(x.1));
    lemma_modp_small(modp(x.2));
    lemma_modp_small(modp(x.3));
    lemma_modp_range(x.0);
    lemma_modp_range(x.1);
    lemma_modp_range(x.2);
    lemma_modp_range(x.3);
    if q_canon(x) {
        lemma_modp_small(x.0);
        lemma_modp_small(x.1);
        lemma_modp_small(x.2);
        lemma_modp_small(x.3);
    }
}

pub proof fn lemma_red_add_left(x: Q4, y: Q4)
    ensures
        q_red(q_add_raw(q_red(x), y)) == q_red(q_add_raw(x, y)),
{
    reveal(q_red);
    lemma_modp_add_left(x.0, y.0);
    lemma_modp_add_left(x.1, y.1);
    lemma_modp_add_left(x.2, y.2);
    lemma_modp_add_left(x.3, y.3);
}

pub proof fn lemma_red_neg(x: Q4)
    ensures
        q_red(q_neg_raw(q_red(x))) == q_red(q_neg_raw(x)),
{
    reveal(q_red);
    lemma_modp_neg(x.0);
    lemma_modp_neg(x.1);
    lemma_modp_neg(x.2);
    lemma_modp_neg(x.3);
}

/// `(P * b + a) mod P == a mod P`, coordinatewise.
proof fn lemma_red_multiple(a: Q4, b: Q4)
    ensures
        q_red(q_add_raw(a, q_scale_raw(P as int, b))) == q_red(a),
{
    reveal(q_red);
    let p = P as int;
    vstd::arithmetic::div_mod::lemma_mod_multiples_vanish(b.0, a.0, p);
    vstd::arithmetic::div_mod::lemma_mod_multiples_vanish(b.1, a.1, p);
    vstd::arithmetic::div_mod::lemma_mod_multiples_vanish(b.2, a.2, p);
    vstd::arithmetic::div_mod::lemma_mod_multiples_vanish(b.3, a.3, p);
}

/// Reducing the left factor before multiplying does not change the reduced product.
pub proof fn lemma_red_mul_left(x: Q4, y: Q4)
    ensures
        q_red(q_mul_raw(q_red(x), y)) == q_red(q_mul_raw(x, y)),
{
    reveal(q_red);
    let p = P as int;
    let k = (x.0 / p, x.1 / p, x.2 / p, x.3 / p);
    vstd::arithmetic::div_mod::lemma_fundamental_div_mod(x.0, p);
    vstd::arithmetic::div_mod::lemma_fundamental_div_mod(x.1, p);
    vstd::arithmetic::div_mod::lemma_fundamental_div_mod(x.2, p);
    vstd::arithmetic::div_mod::lemma_fundamental_div_mod(x.3, p);
    assert(x == q_add_raw(q_red(x), q_scale_raw(p, k)));
    lemma_add_left(q_red(x), q_scale_raw(p, k), y);
    lemma_scale_left(p, k, y);
    lemma_red_multiple(q_mul_raw(q_red(x), y), q_mul_raw(k, y));
}

pub proof fn lemma_red_mul_right(x: Q4, y: Q4)
    ensures
        q_red(q_mul_raw(x, q_red(y))) == q_red(q_mul_raw(x, y)),
{
    lemma_comm_raw(x, q_red(y));
    lemma_comm_raw(x, y);
    lemma_red_mul_left(y, x);
}

// ---------------------------------------------------------------------------
// The ring laws, for the reduced operations.
// ---------------------------------------------------------------------------

pub proof fn lemma_q_add_comm(x: Q4, y: Q4)
    ensures
        q_add(x, y) == q_add(y, x),
{
}

pub proof fn lemma_q_add_assoc(x: Q4, y: Q4, z: Q4)
    ensures
        q_add(q_add(x, y), z) == q_add(x, q_add(y, z)),
{
    lemma_red_add_left(q_add_raw(x, y), z);
    lemma_red_add_left(q_add_raw(y, z), x);
    assert(q_add_raw(q_add_raw(x, y), z) == q_add_raw(q_add_raw(y, z), x));
}

pub proof fn lemma_q_add_zero(x: Q4)
    requires
        q_canon(x),
    ensures
        q_add(x, q_zero()) == x,
        q_add(q_zero(), x) == x,
{
    lemma_red_canon(x);
    assert(q_add_raw(x, q_zero()) == x);
    assert(q_add_raw(q_zero(), x) == x);
}

pub proof fn lemma_q_mul_comm(x: Q4, y: Q4)
    ensures
        q_mul(x, y) == q_mul(y, x),
{
    lemma_comm_raw(x, y);
}

pub proof fn lemma_q_mul_assoc(x: Q4, y: Q4, z: Q4)
    ensures
        q_mul(q_mul(x, y), z) == q_mul(x, q_mul(y, z)),
{
    lemma_red_mul_left(q_mul_raw(x, y), z);
    lemma_red_mul_right(x, q_mul_raw(y, z));
    lemma_assoc_raw(x, y, z);
}

pub proof fn lemma_q_mul_one(x: Q4)
    requires
        q_canon(x),
    ensures
        q_mul(x, q_one()) == x,
        q_mul(q_one(), x) == x,
{
    lemma_unit_mul(0, x);
    lemma_comm_raw(x, q_one());
    lemma_red_canon(x);
}

pub proof fn lemma_q_distrib(x: Q4, y: Q4, z: Q4)
    ensures
        q_mul(x, q_add(y, z)) == q_add(q_mul(x, y), q_mul(x, z)),
        q_mul(q_add(y, z), x) == q_add(q_mul(y, x), q_mul(z, x)),
{
    lemma_red_mul_right(x, q_add_raw(y, z));
    lemma_add_left(y, z, x);
    lemma_comm_raw(q_add_raw(y, z), x);
    lemma_comm_raw(y, x);
    lemma_comm_raw(z, x);
    let a = q_mul_raw(x, y);
    let b = q_mul_raw(x, z);
    lemma_red_add_left(a, q_red(b));
    lemma_red_add_left(b, a);
    assert(q_add_raw(a, q_red(b)) == q_add_raw(q_red(b), a));
    assert(q_add_raw(b, a) == q_add_raw(a, b));
    lemma_q_mul_comm(q_add(y, z), x);
    lemma_q_mul_comm(y, x);
    lemma_q_mul_comm(z, x);
}

pub proof fn lemma_q_sub_add_neg(x: Q4, y: Q4)
    ensures
        q_sub(x, y) == q_add(x, q_neg(y)),
{
    lemma_red_neg(y);
    lemma_red_add_left(q_neg_raw(y), x);
    assert(q_add_raw(x, q_neg(y)) == q_add_raw(q_neg(y), x));
    assert(q_add_raw(q_neg_raw(y), x) == q_add_raw(x, q_neg_raw(y)));
    lemma_red_add_left(q_neg_raw(y), x);
}

/// Subtracting what was added gives back a canonical value: `(a + b) - b == a`.
pub proof fn lemma_q_add_sub_cancel(a: Q4, b: Q4)
    requires
        q_canon(a),
    ensures
        q_sub(q_add(a, b), b) == a,
{
    lemma_red_add_left(q_add_raw(a, b), q_neg_raw(b));
    assert(q_add_raw(q_add_raw(a, b), q_neg_raw(b)) == a);
    lemma_red_canon(a);
}

// ---------------------------------------------------------------------------
// Congruence modulo `P`: equal reductions are preserved by the ring operations.
// ---------------------------------------------------------------------------

pub proof fn lemma_cong_add(u: Q4, u2: Q4, v: Q4, v2: Q4)
    requires
        q_red(u) == q_red(u2),
        q_red(v) == q_red(v2),
    ensures
        q_red(q_add_raw(u, v)) == q_red(q_add_raw(u2, v2)),
{
    lemma_red_add_left(u, v);
    lemma_red_add_left(u2, v);
    lemma_red_add_left(v, u2);
    lemma_red_add_left(v2, u2);
    assert(q_add_raw(u2, v) == q_add_raw(v, u2));
    assert(q_add_raw(u2, v2) == q_add_raw(v2, u2));
}

pub proof fn lemma_cong_neg(u: Q4, u2: Q4)
    requires
        q_red(u) == q_red(u2),
    ensures
        q_red(q_neg_raw(u)) == q_red(q_neg_raw(u2)),
{
    lemma_red_neg(u);
    lemma_red_neg(u2);
}

pub proof fn lemma_cong_mul(u: Q4, u2: Q4, v: Q4, v2: Q4)
    requires
        q_red(u) == q_red(u2),
        q_red(v) == q_red(v2),
    ensures
        q_red(q_mul_raw(u, v)) == q_red(q_mul_raw(u2, v2)),
{
    lemma_red_mul_left(u, v);
    lemma_red_mul_left(u2, v);
    lemma_red_mul_right(u2, v);
    lemma_red_mul_right(u2, v2);
}

pub proof fn lemma_raw_mul_neg_left(u: Q4, v: Q4)
    ensures
        q_mul_raw(q_neg_raw(u), v) == q_neg_raw(q_mul_raw(u, v)),
{
    assert(q_neg_raw(u) == q_scale_raw(-1, u));
    lemma_scale_left(-1, u, v);
}

pub proof fn lemma_raw_mul_add_right(w: Q4, u: Q4, v: Q4)
    ensures
        q_mul_raw(w, q_add_raw(u, v)) == q_add_raw(q_mul_raw(w, u), q_mul_raw(w, v)),
{
    lemma_add_left(u, v, w);
    lemma_comm_raw(w, q_add_raw(u, v));
    lemma_comm_raw(w, u);
    lemma_comm_raw(w, v);
}

/// `(u + v)^2 = u^2 + 2uv + v^2` over the integers.
pub proof fn lemma_raw_square_sum(u: Q4, v: Q4)
    ensures
        q_mul_raw(q_add_raw(u, v), q_add_raw(u, v)) == q_add_raw(
            q_add_raw(q_mul_raw(u, u), q_scale_raw(2, q_mul_raw(u, v))),
            q_mul_raw(v, v),
        ),
{
    let s = q_add_raw(u, v);
    lemma_add_left(u, v, s);
    lemma_raw_mul_add_right(u, u, v);
    lemma_raw_mul_add_right(v, u, v);
    lemma_comm_raw(v, u);
}

/// `(uv)(uv) = (uu)(vv)` over the integers.
pub proof fn lemma_raw_square_product(u: Q4, v: Q4)
    ensures
        q_mul_raw(q_mul_raw(u, v), q_mul_raw(u, v)) == q_mul_raw(q_mul_raw(u, u), q_mul_raw(v, v)),
{
    let uv = q_mul_raw(u, v);
    lemma_assoc_raw(u, v, uv);
    lemma_assoc_raw(v, u, v);
    lemma_comm_raw(v, u);
    lemma_assoc_raw(u, v, v);
    lemma_assoc_raw(u, u, q_mul_raw(v, v));
    lemma_assoc_raw(u, q_mul_raw(u, v), v);
    // (uv)(uv) = u(v(uv)) = u((vu)v) = u((uv)v) = u(u(vv)) = (uu)(vv)
    assert(q_mul_raw(v, uv) == q_mul_raw(q_mul_raw(v, u), v));
    assert(q_mul_raw(q_mul_raw(v, u), v) == q_mul_raw(uv, v));
    assert(q_mul_raw(uv, v) == q_mul_raw(u, q_mul_raw(v, v)));
}

/// The reduced operations always give canonical values.
pub proof fn lemma_q_ops_canon(x: Q4, y: Q4)
    ensures
        q_canon(q_add(x, y)),
        q_canon(q_mul(x, y)),
        q_canon(q_sub(x, y)),
        q_canon(q_neg(x)),
{
    lemma_red_canon(q_add_raw(x, y));
    lemma_red_canon(q_mul_raw(x, y));
    lemma_red_canon(q_add_raw(x, q_neg_raw(y)));
    lemma_red_canon(q_neg_raw(x));
}

/// `(x + y) + (u + v) = (x + u) + (y + v)`.
pub proof fn lemma_q_add_swap(x: Q4, y: Q4, u: Q4, v: Q4)
    ensures
        q_add(q_add(x, y), q_add(u, v)) == q_add(q_add(x, u), q_add(y, v)),
{
    lemma_q_add_assoc(x, y, q_add(u, v));
    lemma_q_add_assoc(y, u, v);
    lemma_q_add_comm(y, u);
    lemma_q_add_assoc(u, y, v);
    lemma_q_add_assoc(x, u, q_add(y, v));
}

} // verus!
