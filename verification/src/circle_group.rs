//! The circle group over `M31`: the group law is associative and commutative, the generator
//! has order `2^31`, the scalar multiple by double-and-add is the repeated sum, and lifting
//! points to the secure field respects the group law. From these, the vanishing polynomial of a
//! canonic trace domain vanishes on the domain.
use vstd::prelude::*;
use crate::m31::{P, modp};
use crate::qm31_algebra::{Q4, q_add, q_sub, q_mul, q_neg, q_embed, q_one, q_zero, q_red, q_mul_raw};
use crate::circle::{
    MPoint, QPoint, mp_add, mp_double, mp_zero, mp_conjugate, mp_mul, mp_mul_acc, mp_lift, mp_repeated_double,
    qp_add, qp_conjugate, qp_repeated_double, qp_on_circle, qp_canon, q_double_x_iter, m31_circle_gen,
    lemma_repeated_double_on_circle,
};
use crate::domain::{pow2, index_pow2, circle_order, Coset, domain_index, coset_index, coset_vanishing_spec, full_vanishing_spec};

verus! {

// ---------------------------------------------------------------------------
// Arithmetic modulo `P`.
// ---------------------------------------------------------------------------

pub proof fn lemma_modp_mul(a: int, b: int)
    ensures
        modp(modp(a) * b) == modp(a * b),
        modp(a * modp(b)) == modp(a * b),
{
    vstd::arithmetic::div_mod::lemma_mul_mod_noop_left(a, b, P as int);
    vstd::arithmetic::div_mod::lemma_mul_mod_noop_right(a, b, P as int);
}

pub proof fn lemma_modp_add_sub(a: int, b: int)
    ensures
        modp(modp(a) + b) == modp(a + b),
        modp(a + modp(b)) == modp(a + b),
        modp(modp(a) - b) == modp(a - b),
        modp(a - modp(b)) == modp(a - b),
{
    vstd::arithmetic::div_mod::lemma_add_mod_noop(a, b, P as int);
    vstd::arithmetic::div_mod::lemma_add_mod_noop(modp(a), b, P as int);
    vstd::arithmetic::div_mod::lemma_add_mod_noop(a, modp(b), P as int);
    vstd::arithmetic::div_mod::lemma_mod_twice(a, P as int);
    vstd::arithmetic::div_mod::lemma_mod_twice(b, P as int);
    vstd::arithmetic::div_mod::lemma_sub_mod_noop(a, b, P as int);
    vstd::arithmetic::div_mod::lemma_sub_mod_noop(modp(a), b, P as int);
    vstd::arithmetic::div_mod::lemma_sub_mod_noop(a, modp(b), P as int);
}

proof fn lemma_modp_small(a: int)
    requires
        0 <= a < P,
    ensures
        modp(a) == a,
{
    vstd::arithmetic::div_mod::lemma_small_mod(a as nat, P as nat);
}

proof fn lemma_modp_range(a: int)
    ensures
        0 <= modp(a) < P,
{
    vstd::arithmetic::div_mod::lemma_mod_bound(a, P as int);
}

/// Both coordinates lie in `[0, P)`.
pub open spec fn mp_canon(p: MPoint) -> bool {
    0 <= p.0 < P && 0 <= p.1 < P
}

/// `x^2 + y^2 = 1` modulo `P`.
pub open spec fn mp_on_circle(p: MPoint) -> bool {
    modp(p.0 * p.0 + p.1 * p.1) == 1
}

// ---------------------------------------------------------------------------
// The group law.
// ---------------------------------------------------------------------------

pub proof fn lemma_mp_add_canon(p: MPoint, q: MPoint)
    ensures
        mp_canon(mp_add(p, q)),
{
    lemma_modp_range(p.0 * q.0 - p.1 * q.1);
    lemma_modp_range(p.0 * q.1 + p.1 * q.0);
}

/// The group law is commutative.
pub proof fn lemma_mp_add_comm(p: MPoint, q: MPoint)
    ensures
        mp_add(p, q) == mp_add(q, p),
{
    assert(p.0 * q.0 - p.1 * q.1 == q.0 * p.0 - q.1 * p.1) by (nonlinear_arith);
    assert(p.0 * q.1 + p.1 * q.0 == q.0 * p.1 + q.1 * p.0) by (nonlinear_arith);
}

/// Reducing the factors of a sum or difference of products does not change its reduction.
proof fn lemma_modp_combo(a: int, b: int, x: int, y: int)
    ensures
        modp(modp(a) * x - modp(b) * y) == modp(a * x - b * y),
        modp(modp(a) * x + modp(b) * y) == modp(a * x + b * y),
        modp(x * modp(a) - y * modp(b)) == modp(x * a - y * b),
        modp(x * modp(a) + y * modp(b)) == modp(x * a + y * b),
{
    lemma_modp_mul(a, x);
    lemma_modp_mul(b, y);
    lemma_modp_mul(x, a);
    lemma_modp_mul(y, b);
    lemma_modp_add_sub(modp(a) * x, modp(b) * y);
    lemma_modp_add_sub(a * x, modp(b) * y);
    lemma_modp_add_sub(a * x, b * y);
    lemma_modp_add_sub(x * modp(a), y * modp(b));
    lemma_modp_add_sub(x * a, y * modp(b));
    lemma_modp_add_sub(x * a, y * b);
}

/// The group law is associative.
pub proof fn lemma_mp_add_assoc(p: MPoint, q: MPoint, r: MPoint)
    ensures
        mp_add(mp_add(p, q), r) == mp_add(p, mp_add(q, r)),
{
    let a = p.0 * q.0 - p.1 * q.1;
    let b = p.0 * q.1 + p.1 * q.0;
    let c = q.0 * r.0 - q.1 * r.1;
    let d = q.0 * r.1 + q.1 * r.0;
    lemma_modp_combo(a, b, r.0, r.1);
    lemma_modp_combo(a, b, r.1, r.0);
    lemma_modp_combo(c, d, p.0, p.1);
    lemma_modp_combo(d, c, p.0, p.1);
    lemma_assoc_identity(p.0, p.1, q.0, q.1, r.0, r.1);
    assert(mp_add(mp_add(p, q), r).0 == modp(a * r.0 - b * r.1));
    assert(mp_add(p, mp_add(q, r)).0 == modp(p.0 * c - p.1 * d));
    assert(mp_add(mp_add(p, q), r).1 == modp(a * r.1 + b * r.0));
    assert(mp_add(p, mp_add(q, r)).1 == modp(p.0 * d + p.1 * c));
}

/// The polynomial identities behind associativity: complex multiplication is associative.
proof fn lemma_assoc_identity(p0: int, p1: int, q0: int, q1: int, r0: int, r1: int)
    ensures
        (p0 * q0 - p1 * q1) * r0 - (p0 * q1 + p1 * q0) * r1 == p0 * (q0 * r0 - q1 * r1) - p1 * (q0 * r1 + q1 * r0),
        (p0 * q0 - p1 * q1) * r1 + (p0 * q1 + p1 * q0) * r0 == p0 * (q0 * r1 + q1 * r0) + p1 * (q0 * r0 - q1 * r1),
{
    lemma_cube(p0, q0, r0);
    lemma_cube(p0, q0, r1);
    lemma_cube(p0, q1, r0);
    lemma_cube(p0, q1, r1);
    lemma_cube(p1, q0, r0);
    lemma_cube(p1, q0, r1);
    lemma_cube(p1, q1, r0);
    lemma_cube(p1, q1, r1);
    assert((p0 * q0 - p1 * q1) * r0 == (p0 * q0) * r0 - (p1 * q1) * r0) by (nonlinear_arith);
    assert((p0 * q1 + p1 * q0) * r1 == (p0 * q1) * r1 + (p1 * q0) * r1) by (nonlinear_arith);
    assert((p0 * q0 - p1 * q1) * r1 == (p0 * q0) * r1 - (p1 * q1) * r1) by (nonlinear_arith);
    assert((p0 * q1 + p1 * q0) * r0 == (p0 * q1) * r0 + (p1 * q0) * r0) by (nonlinear_arith);
    assert(p0 * (q0 * r0 - q1 * r1) == p0 * (q0 * r0) - p0 * (q1 * r1)) by (nonlinear_arith);
    assert(p1 * (q0 * r1 + q1 * r0) == p1 * (q0 * r1) + p1 * (q1 * r0)) by (nonlinear_arith);
    assert(p0 * (q0 * r1 + q1 * r0) == p0 * (q0 * r1) + p0 * (q1 * r0)) by (nonlinear_arith);
    assert(p1 * (q0 * r0 - q1 * r1) == p1 * (q0 * r0) - p1 * (q1 * r1)) by (nonlinear_arith);
}

/// `(a b) c == a (b c)`.
proof fn lemma_cube(a: int, b: int, c: int)
    ensures
        (a * b) * c == a * (b * c),
{
    vstd::arithmetic::mul::lemma_mul_is_associative(a, b, c);
}

/// `(1, 0)` is the identity for canonical points.
pub proof fn lemma_mp_add_zero(p: MPoint)
    requires
        mp_canon(p),
    ensures
        mp_add(p, mp_zero()) == p,
        mp_add(mp_zero(), p) == p,
{
    lemma_modp_small(p.0);
    lemma_modp_small(p.1);
}

/// Adding keeps points on the circle: `(ac - bd)^2 + (ad + bc)^2 = (a^2 + b^2)(c^2 + d^2)`.
pub proof fn lemma_mp_add_on_circle(p: MPoint, q: MPoint)
    requires
        mp_on_circle(p),
        mp_on_circle(q),
    ensures
        mp_on_circle(mp_add(p, q)),
{
    let x = p.0 * q.0 - p.1 * q.1;
    let y = p.0 * q.1 + p.1 * q.0;
    let s = p.0 * p.0 + p.1 * p.1;
    let t = q.0 * q.0 + q.1 * q.1;
    lemma_two_squares(p.0, p.1, q.0, q.1);
    lemma_modp_mul(x, x);
    lemma_modp_mul(modp(x), x);
    lemma_modp_mul(y, y);
    lemma_modp_mul(modp(y), y);
    lemma_modp_add_sub(modp(x) * modp(x), modp(y) * modp(y));
    lemma_modp_add_sub(x * x, modp(y) * modp(y));
    lemma_modp_add_sub(x * x, y * y);
    lemma_modp_mul(s, t);
    lemma_modp_mul(modp(s), t);
}

/// `(ac - bd)^2 + (ad + bc)^2 == (a^2 + b^2)(c^2 + d^2)`.
proof fn lemma_two_squares(a: int, b: int, c: int, d: int)
    ensures
        (a * c - b * d) * (a * c - b * d) + (a * d + b * c) * (a * d + b * c) == (a * a + b * b) * (c * c + d * d),
{
    let ac = a * c;
    let bd = b * d;
    let ad = a * d;
    let bc = b * c;
    assert((ac - bd) * (ac - bd) == ac * ac - 2 * (ac * bd) + bd * bd) by (nonlinear_arith);
    assert((ad + bc) * (ad + bc) == ad * ad + 2 * (ad * bc) + bc * bc) by (nonlinear_arith);
    assert(ac * bd == ad * bc) by (nonlinear_arith) requires ac == a * c, bd == b * d, ad == a * d, bc == b * c;
    assert(ac * ac == (a * a) * (c * c)) by (nonlinear_arith) requires ac == a * c;
    assert(bd * bd == (b * b) * (d * d)) by (nonlinear_arith) requires bd == b * d;
    assert(ad * ad == (a * a) * (d * d)) by (nonlinear_arith) requires ad == a * d;
    assert(bc * bc == (b * b) * (c * c)) by (nonlinear_arith) requires bc == b * c;
    assert((a * a + b * b) * (c * c + d * d) == (a * a) * (c * c) + (a * a) * (d * d) + (b * b) * (c * c) + (b * b) * (d * d)) by (nonlinear_arith);
}

/// A point plus its conjugate is the identity, on the circle.
pub proof fn lemma_mp_add_conjugate(p: MPoint)
    requires
        mp_canon(p),
        mp_on_circle(p),
    ensures
        mp_add(p, mp_conjugate(p)) == mp_zero(),
{
    let x = p.0;
    let y = p.1;
    lemma_modp_small(x);
    lemma_modp_combo(x, -y, x, y);
    lemma_modp_combo(-y, x, x, y);
    assert(x * x - y * (-y) == x * x + y * y) by (nonlinear_arith);
    assert(x * (-y) + y * x == 0) by (nonlinear_arith);
    assert(modp(0) == 0);
    assert(mp_add(p, mp_conjugate(p)).0 == modp(x * modp(x) - y * modp(-y)));
    assert(mp_add(p, mp_conjugate(p)).1 == modp(x * modp(-y) + y * modp(x)));
}

// ---------------------------------------------------------------------------
// Multiples.
// ---------------------------------------------------------------------------

/// `n p`, as the repeated sum `(((0 + p) + p) + ...)`.
pub open spec fn mp_pow(p: MPoint, n: nat) -> MPoint
    decreases n,
{
    if n == 0 {
        mp_zero()
    } else {
        mp_add(mp_pow(p, (n - 1) as nat), p)
    }
}

pub proof fn lemma_mp_pow_canon(p: MPoint, n: nat)
    ensures
        mp_canon(mp_pow(p, n)),
{
    if n > 0 {
        lemma_mp_add_canon(mp_pow(p, (n - 1) as nat), p);
    }
}

/// `(a + b) p = a p + b p`.
pub proof fn lemma_mp_pow_add(p: MPoint, a: nat, b: nat)
    ensures
        mp_pow(p, a + b) == mp_add(mp_pow(p, a), mp_pow(p, b)),
    decreases b,
{
    lemma_mp_pow_canon(p, a);
    if b == 0 {
        lemma_mp_add_zero(mp_pow(p, a));
    } else {
        lemma_mp_pow_add(p, a, (b - 1) as nat);
        lemma_mp_add_assoc(mp_pow(p, a), mp_pow(p, (b - 1) as nat), p);
        assert((a + b - 1) as nat == a + (b - 1) as nat);
    }
}

/// `(a b) p = b (a p)`.
pub proof fn lemma_mp_pow_mul(p: MPoint, a: nat, b: nat)
    ensures
        mp_pow(p, a * b) == mp_pow(mp_pow(p, a), b),
    decreases b,
{
    if b == 0 {
        assert(a * 0 == 0) by (nonlinear_arith);
    } else {
        lemma_mp_pow_mul(p, a, (b - 1) as nat);
        assert(a * b == a * (b - 1) as nat + a) by (nonlinear_arith) requires b >= 1;
        lemma_mp_pow_add(p, a * (b - 1) as nat, a);
    }
}

/// Double-and-add computes `acc + s cur`.
pub proof fn lemma_mp_mul_acc(acc: MPoint, cur: MPoint, s: nat)
    requires
        mp_canon(acc),
        mp_canon(cur),
    ensures
        mp_mul_acc(acc, cur, s) == mp_add(acc, mp_pow(cur, s)),
    decreases s,
{
    if s == 0 {
        lemma_mp_add_zero(acc);
    } else {
        let next_acc = if s % 2 == 1 { mp_add(acc, cur) } else { acc };
        lemma_mp_add_canon(acc, cur);
        lemma_mp_add_canon(cur, cur);
        lemma_mp_mul_acc(next_acc, mp_double(cur), s / 2);
        // pow(2 cur, s / 2) = pow(cur, 2 (s / 2))
        lemma_mp_add_zero(cur);
        assert(mp_pow(cur, 1) == cur) by {
            assert(mp_pow(cur, 0) == mp_zero());
            lemma_mp_add_zero(cur);
        }
        assert(mp_pow(cur, 2) == mp_double(cur)) by {
            assert(mp_pow(cur, 2) == mp_add(mp_pow(cur, 1), cur));
        }
        lemma_mp_pow_mul(cur, 2, s / 2);
        let h = mp_pow(cur, 2 * (s / 2));
        if s % 2 == 1 {
            lemma_mp_pow_add(cur, 1, 2 * (s / 2));
            assert(1 + 2 * (s / 2) == s);
            lemma_mp_add_assoc(acc, cur, h);
        } else {
            assert(2 * (s / 2) == s);
        }
    }
}

/// The double-and-add multiple is the repeated sum.
pub proof fn lemma_mp_mul_is_pow(p: MPoint, s: nat)
    requires
        mp_canon(p),
    ensures
        mp_mul(p, s) == mp_pow(p, s),
{
    lemma_mp_mul_acc(mp_zero(), p, s);
    lemma_mp_pow_canon(p, s);
    lemma_mp_add_zero(mp_pow(p, s));
}

/// Multiples of a point on the circle are on the circle.
pub proof fn lemma_mp_pow_on_circle(p: MPoint, n: nat)
    requires
        mp_on_circle(p),
    ensures
        mp_on_circle(mp_pow(p, n)),
    decreases n,
{
    if n == 0 {
        lemma_modp_small(1);
    } else {
        lemma_mp_pow_on_circle(p, (n - 1) as nat);
        lemma_mp_add_on_circle(mp_pow(p, (n - 1) as nat), p);
    }
}

/// Doubling `k` times multiplies by `2^k`.
pub proof fn lemma_mp_repeated_double_pow(p: MPoint, a: nat, k: nat)
    ensures
        mp_repeated_double(mp_pow(p, a), k) == mp_pow(p, a * crate::domain::pow2(k)),
    decreases k,
{
    vstd::arithmetic::power2::lemma2_to64();
    if k == 0 {
        lemma_mp_pow_canon(p, a);
        assert(a * 1 == a);
    } else {
        lemma_mp_repeated_double_pow(p, a, (k - 1) as nat);
        let m = a * crate::domain::pow2((k - 1) as nat);
        lemma_mp_pow_add(p, m, m);
        vstd::arithmetic::power2::lemma_pow2_unfold(k);
        assert(m + m == a * crate::domain::pow2(k)) by (nonlinear_arith)
            requires m == a * crate::domain::pow2((k - 1) as nat), crate::domain::pow2(k) == 2 * crate::domain::pow2((k - 1) as nat);
    }
}

// ---------------------------------------------------------------------------
// The generator.
// ---------------------------------------------------------------------------

/// The point `2^k g`, for `k <= 31`.
pub open spec fn gen_doubling(k: nat) -> MPoint {
    if k == 0 { (2, 1268011823) }
    else if k == 1 { (7, 777079998) }
    else if k == 2 { (97, 141701737) }
    else if k == 3 { (18817, 1720333214) }
    else if k == 4 { (708158977, 683185920) }
    else if k == 5 { (334835419, 1444967316) }
    else if k == 6 { (2042371533, 1362265296) }
    else if k == 7 { (212706801, 1223819887) }
    else if k == 8 { (421007138, 256177860) }
    else if k == 9 { (6346213, 905523693) }
    else if k == 10 { (1022251061, 788094511) }
    else if k == 11 { (1633461177, 574296567) }
    else if k == 12 { (595037635, 2111542451) }
    else if k == 13 { (1799120754, 343598868) }
    else if k == 14 { (438833264, 1327019128) }
    else if k == 15 { (1389168750, 838891026) }
    else if k == 16 { (1543902459, 1632329423) }
    else if k == 17 { (1330239767, 1446369578) }
    else if k == 18 { (1420207432, 2023238517) }
    else if k == 19 { (2015554631, 1088093947) }
    else if k == 20 { (996212859, 1140996376) }
    else if k == 21 { (1434706457, 1835793811) }
    else if k == 22 { (13610297, 1064696601) }
    else if k == 23 { (785043271, 1260750973) }
    else if k == 24 { (838195206, 1774253895) }
    else if k == 25 { (579625837, 1690787918) }
    else if k == 26 { (1179735656, 1241207368) }
    else if k == 27 { (590768354, 978592373) }
    else if k == 28 { (32768, 2147450879) }
    else if k == 29 { (0, 2147483646) }
    else if k == 30 { (2147483646, 0) }
    else { (1, 0) }
}

/// Each entry of `gen_doubling` is the double of the previous one.
proof fn lemma_gen_doubling_step(k: nat)
    requires
        k < 31,
    ensures
        mp_double(gen_doubling(k)) == gen_doubling(k + 1),
{
    if k == 0 {
        assert(mp_double((2int, 1268011823int)) == (7int, 777079998int)) by {
            assert(2int * 2int - 1268011823int * 1268011823int == -1607853983267783325int);
            assert(2int * 1268011823int + 1268011823int * 2int == 5072047292int);
        }
    }
    if k == 1 {
        assert(mp_double((7int, 777079998int)) == (97int, 141701737int)) by {
            assert(7int * 7int - 777079998int * 777079998int == -603853323291679955int);
            assert(7int * 777079998int + 777079998int * 7int == 10879119972int);
        }
    }
    if k == 2 {
        assert(mp_double((97int, 141701737int)) == (18817int, 1720333214int)) by {
            assert(97int * 97int - 141701737int * 141701737int == -20079382268807760int);
            assert(97int * 141701737int + 141701737int * 97int == 27490136978int);
        }
    }
    if k == 3 {
        assert(mp_double((18817int, 1720333214int)) == (708158977int, 683185920int)) by {
            assert(18817int * 18817int - 1720333214int * 1720333214int == -2959546366837490307int);
            assert(18817int * 1720333214int + 1720333214int * 18817int == 64743020175676int);
        }
    }
    if k == 4 {
        assert(mp_double((708158977int, 683185920int)) == (334835419int, 1444967316int)) by {
            assert(708158977int * 708158977int - 683185920int * 683185920int == 34746135419440129int);
            assert(708158977int * 683185920int + 683185920int * 708158977int == 967608484416007680int);
        }
    }
    if k == 5 {
        assert(mp_double((334835419int, 1444967316int)) == (2042371533int, 1362265296int)) by {
            assert(334835419int * 334835419int - 1444967316int * 1444967316int == -1975815786491338295int);
            assert(334835419int * 1444967316int + 1444967316int * 334835419int == 967652473388330808int);
        }
    }
    if k == 6 {
        assert(mp_double((2042371533int, 1362265296int)) == (212706801int, 1223819887int)) by {
            assert(2042371533int * 2042371533int - 1362265296int * 1362265296int == 2315514742122802473int);
            assert(2042371533int * 1362265296int + 1362265296int * 2042371533int == 5564503721888437536int);
        }
    }
    if k == 7 {
        assert(mp_double((212706801int, 1223819887int)) == (421007138int, 256177860int)) by {
            assert(212706801int * 212706801int - 1223819887int * 1223819887int == -1452490932625039168int);
            assert(212706801int * 1223819887int + 1223819887int * 212706801int == 520629626327902974int);
        }
    }
    if k == 8 {
        assert(mp_double((421007138int, 256177860int)) == (6346213int, 905523693int)) by {
            assert(421007138int * 421007138int - 256177860int * 256177860int == 111619914292771444int);
            assert(421007138int * 256177860int + 256177860int * 421007138int == 215705415315129360int);
        }
    }
    if k == 9 {
        assert(mp_double((6346213int, 905523693int)) == (1022251061int, 788094511int)) by {
            assert(6346213int * 6346213int - 905523693int * 905523693int == -819932884164916880int);
            assert(6346213int * 905523693int + 905523693int * 6346213int == 11493292464649218int);
        }
    }
    if k == 10 {
        assert(mp_double((1022251061int, 788094511int)) == (1633461177int, 574296567int)) by {
            assert(1022251061int * 1022251061int - 788094511int * 788094511int == 423904273447296600int);
            assert(1022251061int * 788094511int + 788094511int * 1022251061int == 1611260900076052342int);
        }
    }
    if k == 11 {
        assert(mp_double((1633461177int, 574296567int)) == (595037635int, 2111542451int)) by {
            assert(1633461177int * 1633461177int - 574296567int * 574296567int == 2338378869898239840int);
            assert(1633461177int * 574296567int + 574296567int * 1633461177int == 1876182292557758718int);
        }
    }
    if k == 12 {
        assert(mp_double((595037635int, 2111542451int)) == (1799120754int, 343598868int)) by {
            assert(595037635int * 595037635int - 2111542451int * 2111542451int == -4104541735308694176int);
            assert(595037635int * 2111542451int + 2111542451int * 595037635int == 2512894452490286770int);
        }
    }
    if k == 13 {
        assert(mp_double((1799120754int, 343598868int)) == (438833264int, 1327019128int)) by {
            assert(1799120754int * 1799120754int - 343598868int * 343598868int == 3118775305382647092int);
            assert(1799120754int * 343598868int + 343598868int * 1799120754int == 1236351708939412944int);
        }
    }
    if k == 14 {
        assert(mp_double((438833264int, 1327019128int)) == (1389168750int, 838891026int)) by {
            assert(438833264int * 438833264int - 1327019128int * 1327019128int == -1568405132484986688int);
            assert(438833264int * 1327019128int + 1327019128int * 438833264int == 1164680270661347584int);
        }
    }
    if k == 15 {
        assert(mp_double((1389168750int, 838891026int)) == (1543902459int, 1632329423int)) by {
            assert(1389168750int * 1389168750int - 838891026int * 838891026int == 1226051662473229824int);
            assert(1389168750int * 838891026int + 838891026int * 1389168750int == 2330722395949275000int);
        }
    }
    if k == 16 {
        assert(mp_double((1543902459int, 1632329423int)) == (1330239767int, 1446369578int)) by {
            assert(1543902459int * 1543902459int - 1632329423int * 1632329423int == -280864542285266248int);
            assert(1543902459int * 1632329423int + 1632329423int * 1543902459int == 5040314820135502314int);
        }
    }
    if k == 17 {
        assert(mp_double((1330239767int, 1446369578int)) == (1420207432int, 2023238517int)) by {
            assert(1330239767int * 1330239767int - 1446369578int * 1446369578int == -322447118455683795int);
            assert(1330239767int * 1446369578int + 1446369578int * 1330239767int == 3848036660869216652int);
        }
    }
    if k == 18 {
        assert(mp_double((1420207432int, 2023238517int)) == (2015554631int, 1088093947int)) by {
            assert(1420207432int * 1420207432int - 2023238517int * 2023238517int == -2076504946764324665int);
            assert(1420207432int * 2023238517int + 2023238517int * 1420207432int == 5746836757104116688int);
        }
    }
    if k == 19 {
        assert(mp_double((2015554631int, 1088093947int)) == (996212859int, 1140996376int)) by {
            assert(2015554631int * 2015554631int - 1088093947int * 1088093947int == 2878512033047507352int);
            assert(2015554631int * 1088093947int + 1088093947int * 2015554631int == 4386225587677837114int);
        }
    }
    if k == 20 {
        assert(mp_double((996212859int, 1140996376int)) == (1434706457int, 1835793811int)) by {
            assert(996212859int * 996212859int - 1140996376int * 1140996376int == -309432669608179495int);
            assert(996212859int * 1140996376int + 1140996376int * 996212859int == 2273350523687197968int);
        }
    }
    if k == 21 {
        assert(mp_double((1434706457int, 1835793811int)) == (13610297int, 1064696601int)) by {
            assert(1434706457int * 1434706457int - 1835793811int * 1835793811int == -1311756298748410872int);
            assert(1434706457int * 1835793811int + 1835793811int * 1434706457int == 5267650468724675254int);
        }
    }
    if k == 22 {
        assert(mp_double((13610297int, 1064696601int)) == (785043271int, 1260750973int)) by {
            assert(13610297int * 13610297int - 1064696601int * 1064696601int == -1133393611996524992int);
            assert(13610297int * 1064696601int + 1064696601int * 13610297int == 28981673909000994int);
        }
    }
    if k == 23 {
        assert(mp_double((785043271int, 1260750973int)) == (838195206int, 1774253895int)) by {
            assert(785043271int * 785043271int - 1260750973int * 1260750973int == -973200078578067288int);
            assert(785043271int * 1260750973int + 1260750973int * 785043271int == 1979488135520705366int);
        }
    }
    if k == 24 {
        assert(mp_double((838195206int, 1774253895int)) == (579625837int, 1690787918int)) by {
            assert(838195206int * 838195206int - 1774253895int * 1774253895int == -2445405680561288589int);
            assert(838195206int * 1774253895int + 1774253895int * 838195206int == 2974342218031654740int);
        }
    }
    if k == 25 {
        assert(mp_double((579625837int, 1690787918int)) == (1179735656int, 1241207368int)) by {
            assert(579625837int * 579625837int - 1690787918int * 1690787918int == -2522797672736824155int);
            assert(579625837int * 1690787918int + 1690787918int * 579625837int == 1960048724320474732int);
        }
    }
    if k == 26 {
        assert(mp_double((1179735656int, 1241207368int)) == (590768354int, 978592373int)) by {
            assert(1179735656int * 1179735656int - 1241207368int * 1241207368int == -148819512339737088int);
            assert(1179735656int * 1241207368int + 1241207368int * 1179735656int == 2928593177039026816int);
        }
    }
    if k == 27 {
        assert(mp_double((590768354int, 978592373int)) == (32768int, 2147450879int)) by {
            assert(590768354int * 590768354int - 978592373int * 978592373int == -608635784405901813int);
            assert(590768354int * 978592373int + 978592373int * 590768354int == 1156242810868328084int);
        }
    }
    if k == 28 {
        assert(mp_double((32768int, 2147450879int)) == (0int, 2147483646int)) by {
            assert(32768int * 32768int - 2147450879int * 2147450879int == -4611545276644130817int);
            assert(32768int * 2147450879int + 2147450879int * 32768int == 140735340806144int);
        }
    }
    if k == 29 {
        assert(mp_double((0int, 2147483646int)) == (2147483646int, 0int)) by {
            assert(0int * 0int - 2147483646int * 2147483646int == -4611686009837453316int);
            assert(0int * 2147483646int + 2147483646int * 0int == 0int);
        }
    }
    if k == 30 {
        assert(mp_double((2147483646int, 0int)) == (1int, 0int)) by {
            assert(2147483646int * 2147483646int - 0int * 0int == 4611686009837453316int);
            assert(2147483646int * 0int + 0int * 2147483646int == 0int);
        }
    }
}

/// `2^k g` is the `2^k`-th multiple of `g`.
pub proof fn lemma_gen_doubling_is_pow(k: nat)
    requires
        k <= 31,
    ensures
        mp_pow(m31_circle_gen(), crate::domain::pow2(k)) == gen_doubling(k),
    decreases k,
{
    let g = m31_circle_gen();
    vstd::arithmetic::power2::lemma2_to64();
    if k == 0 {
        assert(mp_pow(g, 0) == mp_zero());
        lemma_mp_add_zero(g);
    } else {
        lemma_gen_doubling_is_pow((k - 1) as nat);
        lemma_gen_doubling_step((k - 1) as nat);
        vstd::arithmetic::power2::lemma_pow2_unfold(k);
        let h = crate::domain::pow2((k - 1) as nat);
        lemma_mp_pow_add(g, h, h);
    }
}

/// The generator is a canonical point of the circle, of order `2^31`; its multiples by `2^29`
/// and `3 * 2^29` are the points `(0, +-1)` of order four.
pub proof fn lemma_generator_facts()
    ensures
        mp_canon(m31_circle_gen()),
        mp_on_circle(m31_circle_gen()),
        mp_pow(m31_circle_gen(), 0x8000_0000) == mp_zero(),
        mp_pow(m31_circle_gen(), 0x2000_0000).0 == 0,
        mp_pow(m31_circle_gen(), 0x6000_0000).0 == 0,
{
    let g = m31_circle_gen();
    vstd::arithmetic::power2::lemma2_to64();
    vstd::arithmetic::power2::lemma2_to64_rest();
    lemma_gen_doubling_is_pow(31);
    lemma_gen_doubling_is_pow(30);
    lemma_gen_doubling_is_pow(29);
    lemma_mp_pow_add(g, 0x2000_0000, 0x4000_0000);
}

/// Multiples of the identity are the identity.
pub proof fn lemma_mp_pow_zero(n: nat)
    ensures
        mp_pow(mp_zero(), n) == mp_zero(),
    decreases n,
{
    if n > 0 {
        lemma_mp_pow_zero((n - 1) as nat);
        lemma_mp_add_zero(mp_zero());
    }
}

/// Multiples of the generator depend on the multiplier modulo `2^31`.
pub proof fn lemma_gen_pow_mod(a: nat)
    ensures
        mp_pow(m31_circle_gen(), a) == mp_pow(m31_circle_gen(), a % 0x8000_0000),
{
    let g = m31_circle_gen();
    let n: nat = 0x8000_0000;
    let q = a / n;
    let r = a % n;
    vstd::arithmetic::div_mod::lemma_fundamental_div_mod(a as int, n as int);
    assert(a == n * q + r);
    lemma_generator_facts();
    lemma_mp_pow_mul(g, n, q);
    lemma_mp_pow_zero(q);
    lemma_mp_pow_add(g, n * q, r);
    lemma_mp_pow_canon(g, r);
    lemma_mp_add_zero(mp_pow(g, r));
}

/// The conjugate of `a g` is `(2^31 - a) g`.
pub proof fn lemma_gen_pow_conjugate(a: nat)
    requires
        a < 0x8000_0000,
    ensures
        mp_conjugate(mp_pow(m31_circle_gen(), a)) == mp_pow(m31_circle_gen(), ((0x8000_0000 - a) % 0x8000_0000) as nat),
{
    let g = m31_circle_gen();
    let b = ((0x8000_0000 - a) % 0x8000_0000) as nat;
    let pa = mp_pow(g, a);
    let pb = mp_pow(g, b);
    let c = mp_conjugate(pa);
    lemma_generator_facts();
    lemma_mp_pow_canon(g, a);
    lemma_mp_pow_canon(g, b);
    lemma_mp_pow_on_circle(g, a);
    lemma_modp_range(-pa.1);
    lemma_mp_pow_add(g, a, b);
    lemma_gen_pow_mod(a + b);
    assert((a + b) % 0x8000_0000 == 0);
    assert(mp_pow(g, 0) == mp_zero());
    // c = c + (pa + pb) = (c + pa) + pb = 0 + pb.
    lemma_mp_add_zero(c);
    lemma_mp_add_assoc(c, pa, pb);
    lemma_mp_add_comm(c, pa);
    lemma_mp_add_conjugate(pa);
    lemma_mp_add_zero(pb);
}

/// At an odd multiple of `2^29` the generator's multiple has abscissa zero.
pub proof fn lemma_gen_pow_odd_quarter(x: nat)
    requires
        x % 2 == 1,
    ensures
        mp_pow(m31_circle_gen(), 0x2000_0000 * x).0 == 0,
{
    let q = x / 4;
    let r = x % 4;
    vstd::arithmetic::div_mod::lemma_fundamental_div_mod(x as int, 4);
    assert(r == 1 || r == 3);
    let m = 0x2000_0000 * x;
    assert(m == 0x8000_0000 * q + 0x2000_0000 * r) by (nonlinear_arith)
        requires m == 0x2000_0000 * x, x == 4 * q + r;
    vstd::arithmetic::div_mod::lemma_fundamental_div_mod_converse(m as int, 0x8000_0000, q as int, (0x2000_0000 * r) as int);
    lemma_gen_pow_mod(m);
    lemma_generator_facts();
}

// ---------------------------------------------------------------------------
// Lifting to the secure field.
// ---------------------------------------------------------------------------

/// Embedded base field values multiply, add, subtract and negate as in the base field.
pub proof fn lemma_embed_ops(a: int, b: int)
    ensures
        q_mul(q_embed(a), q_embed(b)) == q_embed(modp(a * b)),
        q_add(q_embed(a), q_embed(b)) == q_embed(modp(a + b)),
        q_sub(q_embed(a), q_embed(b)) == q_embed(modp(a - b)),
        q_neg(q_embed(a)) == q_embed(modp(-a)),
{
    reveal(q_red);
    reveal(q_mul_raw);
    assert(modp(0) == 0);
}

/// Lifting respects the group law.
pub proof fn lemma_lift_add(p: MPoint, q: MPoint)
    ensures
        qp_add(mp_lift(p), mp_lift(q)) == mp_lift(mp_add(p, q)),
{
    lemma_embed_ops(p.0, q.0);
    lemma_embed_ops(p.1, q.1);
    lemma_embed_ops(p.0, q.1);
    lemma_embed_ops(p.1, q.0);
    lemma_embed_ops(modp(p.0 * q.0), modp(p.1 * q.1));
    lemma_embed_ops(modp(p.0 * q.1), modp(p.1 * q.0));
    lemma_modp_combo2(p.0 * q.0, p.1 * q.1);
    lemma_modp_combo2(p.0 * q.1, p.1 * q.0);
}

proof fn lemma_modp_combo2(a: int, b: int)
    ensures
        modp(modp(a) - modp(b)) == modp(a - b),
        modp(modp(a) + modp(b)) == modp(a + b),
{
    lemma_modp_add_sub(a, modp(b));
    lemma_modp_add_sub(a, b);
}

/// Lifting respects conjugation.
pub proof fn lemma_lift_conjugate(p: MPoint)
    ensures
        qp_conjugate(mp_lift(p)) == mp_lift(mp_conjugate(p)),
{
    lemma_embed_ops(p.1, 0);
}

/// Lifting respects repeated doubling.
pub proof fn lemma_lift_repeated_double(p: MPoint, k: nat)
    ensures
        qp_repeated_double(mp_lift(p), k) == mp_lift(mp_repeated_double(p, k)),
    decreases k,
{
    if k > 0 {
        lemma_lift_repeated_double(p, (k - 1) as nat);
        let q = mp_repeated_double(p, (k - 1) as nat);
        lemma_lift_add(q, q);
    }
}

/// A canonical base field point of the circle lifts to a canonical point of the circle.
pub proof fn lemma_lift_on_circle(p: MPoint)
    requires
        mp_canon(p),
        mp_on_circle(p),
    ensures
        qp_canon(mp_lift(p)),
        qp_on_circle(mp_lift(p)),
{
    lemma_embed_ops(p.0, p.0);
    lemma_embed_ops(p.1, p.1);
    lemma_embed_ops(modp(p.0 * p.0), modp(p.1 * p.1));
    lemma_modp_combo2(p.0 * p.0, p.1 * p.1);
}

// ---------------------------------------------------------------------------
// Vanishing on a canonic domain.
// ---------------------------------------------------------------------------

/// `0 * y == 0` and `y * 0 == 0` in the secure field.
pub proof fn lemma_q_mul_zero(y: Q4)
    ensures
        q_mul(q_zero(), y) == q_zero(),
        q_mul(y, q_zero()) == q_zero(),
{
    reveal(q_red);
    reveal(q_mul_raw);
    assert(modp(0) == 0);
}

/// The abscissa of the lift of `e g` doubled `k` times is that of `(e 2^k) g`.
pub proof fn lemma_lifted_doubled_abscissa(e: nat, k: nat)
    ensures
        q_double_x_iter(mp_lift(mp_pow(m31_circle_gen(), e)).0, k) == q_embed(
            mp_pow(m31_circle_gen(), e * pow2(k)).0,
        ),
{
    let g = m31_circle_gen();
    let pt = mp_pow(g, e);
    lemma_generator_facts();
    lemma_mp_pow_canon(g, e);
    lemma_mp_pow_on_circle(g, e);
    lemma_lift_on_circle(pt);
    lemma_repeated_double_on_circle(mp_lift(pt), k);
    lemma_lift_repeated_double(pt, k);
    lemma_mp_repeated_double_pow(g, e, k);
}

/// The point of the coset vanishing polynomial before doubling: `p - initial + step / 2`,
/// for `p = e g`, is `(e + (2^31 - initial) + step / 2) g`, lifted.
pub proof fn lemma_shifted_point(e: nat, initial: nat, step: nat)
    requires
        0 < initial < 0x8000_0000,
    ensures
        qp_add(
            qp_add(mp_lift(mp_mul(m31_circle_gen(), e)), qp_conjugate(mp_lift(mp_mul(m31_circle_gen(), initial)))),
            mp_lift(mp_mul(m31_circle_gen(), step / 2)),
        ) == mp_lift(mp_pow(m31_circle_gen(), e + (0x8000_0000 - initial) as nat + step / 2)),
{
    let g = m31_circle_gen();
    let c = (0x8000_0000 - initial) as nat;
    lemma_generator_facts();
    lemma_mp_mul_is_pow(g, e);
    lemma_mp_mul_is_pow(g, initial);
    lemma_mp_mul_is_pow(g, step / 2);
    lemma_lift_conjugate(mp_pow(g, initial));
    lemma_gen_pow_conjugate(initial);
    assert((0x8000_0000 - initial) % 0x8000_0000 == c);
    lemma_lift_add(mp_pow(g, e), mp_pow(g, c));
    lemma_mp_pow_add(g, e, c);
    lemma_lift_add(mp_pow(g, e + c), mp_pow(g, step / 2));
    lemma_mp_pow_add(g, e + c, step / 2);
}

/// The vanishing polynomial of a canonic circle domain of log size `log + 1 >= 2` (half coset
/// `2^(29 - log) + <2^(31 - log)>` of log size `log`) is zero at every point of the domain.
pub proof fn lemma_canonic_domain_vanishing(half: Coset, i: int)
    requires
        1 <= half.spec_log_size() <= 29,
        half.spec_initial() == index_pow2(29 - half.spec_log_size()),
        half.spec_step() == index_pow2(31 - half.spec_log_size()),
        0 <= i < 2 * pow2(half.spec_log_size()),
    ensures
        full_vanishing_spec(
            half.spec_initial(),
            half.spec_step(),
            half.spec_log_size(),
            mp_lift(mp_mul(m31_circle_gen(), domain_index(half, i) as nat)),
        ) == q_zero(),
{
    let g = m31_circle_gen();
    let log = half.spec_log_size();
    let a = pow2((29 - log) as nat);
    let b = pow2((log - 1) as nat);
    let h = pow2(log);
    vstd::arithmetic::power2::lemma2_to64();
    vstd::arithmetic::power2::lemma2_to64_rest();
    vstd::arithmetic::power2::lemma_pow2_pos((29 - log) as nat);
    vstd::arithmetic::power2::lemma_pow2_pos((log - 1) as nat);
    vstd::arithmetic::power2::lemma_pow2_adds((29 - log) as nat, (log - 1) as nat);
    vstd::arithmetic::power2::lemma_pow2_adds((29 - log) as nat, 2);
    vstd::arithmetic::power2::lemma_pow2_adds((29 - log) as nat, 1);
    vstd::arithmetic::power2::lemma_pow2_adds((log - 1) as nat, 1);
    assert(((29 - log) + (log - 1)) as nat == 28);
    assert(pow2(((29 - log) + 2) as nat) == pow2((31 - log) as nat));
    assert(pow2(((log - 1) + 1) as nat) == h);
    assert(a * b == 0x1000_0000);
    assert(a * 4 == pow2((31 - log) as nat));
    assert(2 * b == h);
    vstd::arithmetic::power2::lemma_pow2_strictly_increases((29 - log) as nat, 31);
    vstd::arithmetic::power2::lemma_pow2_strictly_increases((31 - log) as nat, 31);
    vstd::arithmetic::div_mod::lemma_small_mod(a, 0x8000_0000);
    vstd::arithmetic::div_mod::lemma_small_mod(4 * a, 0x8000_0000);
    let init = a as int;
    let step = 4 * a as int;
    assert(half.spec_initial() == init && half.spec_step() == step);
    lemma_generator_facts();
    if i < h {
        // The point `(a + 4 a i) g` of the half coset.
        let idx = init + step * i;
        assert(idx < 0x8000_0000) by (nonlinear_arith)
            requires idx == a + 4 * a * i, i < 2 * b, a * b == 0x1000_0000, a >= 1, i >= 0;
        assert(idx >= 1) by (nonlinear_arith) requires idx == a + 4 * a * i, a >= 1, i >= 0;
        vstd::arithmetic::div_mod::lemma_small_mod(idx as nat, 0x8000_0000);
        assert(domain_index(half, i) == idx);
        let e = (idx + (0x8000_0000 - init) + step / 2) as nat;
        lemma_shifted_point(idx as nat, init as nat, step as nat);
        lemma_lifted_doubled_abscissa(e, (log - 1) as nat);
        let x = 4 * b + 2 * i + 1;
        assert(e * b == 0x2000_0000 * x) by (nonlinear_arith)
            requires
                e == a + 4 * a * i + 0x8000_0000 - a + 2 * a,
                x == 4 * b + 2 * i + 1,
                a * b == 0x1000_0000,
        ;
        assert(x % 2 == 1);
        lemma_gen_pow_odd_quarter(x as nat);
        lemma_q_mul_zero(coset_vanishing_spec(
            (circle_order() - init) % circle_order(),
            (circle_order() - step) % circle_order(),
            log,
            mp_lift(mp_mul(g, idx as nat)),
        ));
        assert(coset_vanishing_spec(init, step, log, mp_lift(mp_mul(g, idx as nat))) == q_zero());
    } else {
        // The conjugate `-(a + 4 a j) g` of a point of the half coset.
        let j = i - h;
        let base = init + step * j;
        assert(base < 0x8000_0000) by (nonlinear_arith)
            requires base == a + 4 * a * j, j < 2 * b, a * b == 0x1000_0000, a >= 1, j >= 0;
        assert(base >= 1) by (nonlinear_arith) requires base == a + 4 * a * j, a >= 1, j >= 0;
        vstd::arithmetic::div_mod::lemma_small_mod(base as nat, 0x8000_0000);
        let idx = 0x8000_0000 - base;
        vstd::arithmetic::div_mod::lemma_small_mod(idx as nat, 0x8000_0000);
        assert(coset_index(init, step, j) == base);
        assert(domain_index(half, i) == idx);
        let init2 = 0x8000_0000 - init;
        let step2 = 0x8000_0000 - step;
        vstd::arithmetic::div_mod::lemma_small_mod(init2 as nat, 0x8000_0000);
        vstd::arithmetic::div_mod::lemma_small_mod(step2 as nat, 0x8000_0000);
        assert((circle_order() - init) % circle_order() == init2);
        assert((circle_order() - step) % circle_order() == step2);
        let e = (idx + (0x8000_0000 - init2) + step2 / 2) as nat;
        lemma_shifted_point(idx as nat, init2 as nat, step2 as nat);
        lemma_lifted_doubled_abscissa(e, (log - 1) as nat);
        let x = 6 * b - 2 * j - 1;
        assert(step2 / 2 == 0x4000_0000 - 2 * a);
        assert(e * b == 0x2000_0000 * x) by (nonlinear_arith)
            requires
                e == 0x8000_0000 - (a + 4 * a * j) + a + 0x4000_0000 - 2 * a,
                x == 6 * b - 2 * j - 1,
                a * b == 0x1000_0000,
        ;
        assert(x > 0);
        assert(x % 2 == 1);
        lemma_gen_pow_odd_quarter(x as nat);
        lemma_q_mul_zero(coset_vanishing_spec(init, step, log, mp_lift(mp_mul(g, idx as nat))));
        assert(coset_vanishing_spec(init2, step2, log, mp_lift(mp_mul(g, idx as nat))) == q_zero());
    }
}

// ---------------------------------------------------------------------------
// The generator has order exactly `2^31`.
// ---------------------------------------------------------------------------

/// The multiples of the point `(-1, 0)` of order two alternate between it and the identity.
proof fn lemma_order_two_pow(n: nat)
    ensures
        mp_pow(gen_doubling(30), n) == (if n % 2 == 0 { mp_zero() } else { gen_doubling(30) }),
    decreases n,
{
    let w = gen_doubling(30);
    if n > 0 {
        lemma_order_two_pow((n - 1) as nat);
        if (n - 1) % 2 == 0 {
            lemma_mp_add_zero(w);
        } else {
            assert(mp_add(w, w) == mp_zero()) by {
                assert(2147483646int * 2147483646int - 0int * 0int == 4611686009837453316int);
            }
        }
    }
}

/// A positive number is a power of two times an odd number.
proof fn lemma_two_adic(m: nat) -> (r: (nat, nat))
    requires
        m > 0,
    ensures
        m == pow2(r.0) * r.1,
        r.1 % 2 == 1,
    decreases m,
{
    vstd::arithmetic::power2::lemma2_to64();
    if m % 2 == 1 {
        assert(pow2(0) == 1);
        assert(m == pow2(0) * m);
        (0, m)
    } else {
        let (v, u) = lemma_two_adic(m / 2);
        vstd::arithmetic::power2::lemma_pow2_unfold(v + 1);
        assert(m == pow2(v + 1) * u) by (nonlinear_arith)
            requires m == 2 * (m / 2), m / 2 == pow2(v) * u, pow2(v + 1) == 2 * pow2(v);
        (v + 1, u)
    }
}

/// No multiple `m g` with `0 < m < 2^31` is the identity.
pub proof fn lemma_gen_pow_nonzero(m: nat)
    requires
        0 < m < 0x8000_0000,
    ensures
        mp_pow(m31_circle_gen(), m) != mp_zero(),
{
    let g = m31_circle_gen();
    let (v, u) = lemma_two_adic(m);
    vstd::arithmetic::power2::lemma2_to64();
    vstd::arithmetic::power2::lemma2_to64_rest();
    vstd::arithmetic::power2::lemma_pow2_pos(v);
    if v > 30 {
        if v > 31 {
            vstd::arithmetic::power2::lemma_pow2_strictly_increases(31, v);
        }
        assert(pow2(v) >= 0x8000_0000);
        assert(pow2(v) * u >= pow2(v)) by (nonlinear_arith) requires u >= 1, pow2(v) >= 0;
        assert(false);
    }
    if mp_pow(g, m) == mp_zero() {
        let t = pow2((30 - v) as nat);
        vstd::arithmetic::power2::lemma_pow2_adds(v, (30 - v) as nat);
        assert(m * t == 0x4000_0000 * u) by (nonlinear_arith)
            requires m == pow2(v) * u, pow2(v) * t == 0x4000_0000;
        lemma_mp_pow_mul(g, m, t);
        lemma_mp_pow_zero(t);
        lemma_gen_doubling_is_pow(30);
        lemma_mp_pow_mul(g, 0x4000_0000, u);
        lemma_order_two_pow(u);
        assert(false);
    }
}

/// Distinct multipliers modulo `2^31` give distinct multiples of the generator.
pub proof fn lemma_gen_pow_injective(a: nat, b: nat)
    requires
        mp_pow(m31_circle_gen(), a) == mp_pow(m31_circle_gen(), b),
    ensures
        a % 0x8000_0000 == b % 0x8000_0000,
{
    let g = m31_circle_gen();
    let a2 = a % 0x8000_0000;
    let b2 = b % 0x8000_0000;
    lemma_gen_pow_mod(a);
    lemma_gen_pow_mod(b);
    lemma_generator_facts();
    if a2 != b2 {
        let (hi, lo) = if a2 > b2 { (a2, b2) } else { (b2, a2) };
        let m = (hi - lo) as nat;
        let plo = mp_pow(g, lo);
        lemma_mp_pow_add(g, lo, m);
        assert(lo + m == hi);
        // conj(lo g) + hi g = conj(lo g) + (lo g + m g) = (conj(lo g) + lo g) + m g = m g
        lemma_mp_pow_canon(g, lo);
        lemma_mp_pow_canon(g, m);
        lemma_mp_pow_on_circle(g, lo);
        lemma_mp_add_conjugate(plo);
        lemma_mp_add_comm(mp_conjugate(plo), plo);
        lemma_mp_add_assoc(mp_conjugate(plo), plo, mp_pow(g, m));
        lemma_mp_add_zero(mp_pow(g, m));
        lemma_gen_pow_nonzero(m);
        assert(false);
    }
}

/// A multiple of the generator with abscissa zero is an odd multiple of `2^29`.
pub proof fn lemma_gen_pow_abscissa_zero(k: nat)
    requires
        mp_pow(m31_circle_gen(), k).0 == 0,
    ensures
        k % 0x4000_0000 == 0x2000_0000,
{
    let g = m31_circle_gen();
    let q = mp_pow(g, k);
    let y = q.1;
    lemma_generator_facts();
    lemma_mp_pow_canon(g, k);
    lemma_mp_pow_on_circle(g, k);
    assert(modp(y * y) == 1);
    lemma_modp_add_sub(0, y * y);
    assert(modp(-(y * y)) == modp(0 - modp(y * y)));
    assert(mp_double(q) == gen_doubling(30));
    lemma_mp_pow_add(g, k, k);
    vstd::arithmetic::power2::lemma2_to64();
    vstd::arithmetic::power2::lemma2_to64_rest();
    lemma_gen_doubling_is_pow(30);
    lemma_gen_pow_injective(k + k, 0x4000_0000);
    vstd::arithmetic::div_mod::lemma_fundamental_div_mod((k + k) as int, 0x8000_0000);
    vstd::arithmetic::div_mod::lemma_small_mod(0x4000_0000, 0x8000_0000);
    let t = (k + k) / 0x8000_0000;
    assert(k == 0x4000_0000 * t + 0x2000_0000);
    vstd::arithmetic::div_mod::lemma_fundamental_div_mod_converse(k as int, 0x4000_0000, t as int, 0x2000_0000);
}

/// The index of a point of the canonic circle domain of log size `log + 1` is an odd multiple
/// of `2^(29 - log)`.
pub proof fn lemma_canonic_domain_index(half: Coset, i: int) -> (x: nat)
    requires
        half.spec_log_size() <= 29,
        half.spec_initial() == index_pow2(29 - half.spec_log_size()),
        half.spec_step() == index_pow2(31 - half.spec_log_size()),
        0 <= i < 2 * pow2(half.spec_log_size()),
    ensures
        domain_index(half, i) == pow2((29 - half.spec_log_size()) as nat) * x,
        x % 2 == 1,
{
    let log = half.spec_log_size();
    let a = pow2((29 - log) as nat);
    let b = pow2(log);
    vstd::arithmetic::power2::lemma2_to64();
    vstd::arithmetic::power2::lemma2_to64_rest();
    vstd::arithmetic::power2::lemma_pow2_pos((29 - log) as nat);
    vstd::arithmetic::power2::lemma_pow2_pos(log);
    vstd::arithmetic::power2::lemma_pow2_adds((29 - log) as nat, log);
    assert(((29 - log) + log) as nat == 29);
    assert(a * b == 0x2000_0000);
    vstd::arithmetic::power2::lemma_pow2_strictly_increases((29 - log) as nat, 31);
    vstd::arithmetic::div_mod::lemma_small_mod(a, 0x8000_0000);
    let init = a as int;
    assert(half.spec_initial() == init);
    if log == 0 {
        vstd::arithmetic::div_mod::lemma_small_mod(0x2000_0000, 0x8000_0000);
        if i == 0 {
            assert(domain_index(half, i) == 0x2000_0000);
            1
        } else {
            assert(coset_index(half.spec_initial(), half.spec_step(), 0) == 0x2000_0000);
            assert(domain_index(half, i) == 0x6000_0000);
            3
        }
    } else {
        vstd::arithmetic::power2::lemma_pow2_adds((29 - log) as nat, 2);
        assert(pow2(((29 - log) + 2) as nat) == pow2((31 - log) as nat));
        vstd::arithmetic::power2::lemma_pow2_strictly_increases((31 - log) as nat, 31);
        vstd::arithmetic::div_mod::lemma_small_mod(4 * a, 0x8000_0000);
        let step = 4 * a as int;
        assert(half.spec_step() == step);
        if i < b {
            let idx = init + step * i;
            assert(0 <= idx < 0x8000_0000) by (nonlinear_arith)
                requires idx == a + 4 * a * i, i < b, a * b == 0x2000_0000, a >= 1, i >= 0;
            vstd::arithmetic::div_mod::lemma_small_mod(idx as nat, 0x8000_0000);
            assert(domain_index(half, i) == idx);
            let x = (1 + 4 * i) as nat;
            assert(idx == a * x) by (nonlinear_arith) requires idx == a + 4 * a * i, x == 1 + 4 * i;
            x
        } else {
            let j = i - b;
            let base = init + step * j;
            assert(1 <= base < 0x8000_0000) by (nonlinear_arith)
                requires base == a + 4 * a * j, j < b, a * b == 0x2000_0000, a >= 1, j >= 0;
            vstd::arithmetic::div_mod::lemma_small_mod(base as nat, 0x8000_0000);
            let idx = 0x8000_0000 - base;
            vstd::arithmetic::div_mod::lemma_small_mod(idx as nat, 0x8000_0000);
            assert(coset_index(init, step, j) == base);
            assert(domain_index(half, i) == idx);
            let x = (4 * b - 1 - 4 * j) as nat;
            assert(idx == a * x) by (nonlinear_arith)
                requires idx == 0x8000_0000 - (a + 4 * a * j), x == 4 * b - 1 - 4 * j, a * b == 0x2000_0000;
            x
        }
    }
}

/// `2^s x` with `x` odd is `2^29` modulo `2^30` only for `s = 29`.
pub proof fn lemma_odd_multiple_residue(s: nat, x: nat)
    requires
        x % 2 == 1,
        (pow2(s) * x) % 0x4000_0000 == 0x2000_0000,
    ensures
        s == 29,
{
    vstd::arithmetic::power2::lemma2_to64();
    vstd::arithmetic::power2::lemma_pow2_pos(s);
    let m = pow2(s) * x;
    if s >= 30 {
        vstd::arithmetic::power2::lemma_pow2_adds(30, (s - 30) as nat);
        let t = pow2((s - 30) as nat) * x;
        assert(m == 0x4000_0000 * t) by (nonlinear_arith)
            requires m == pow2(s) * x, pow2(s) == 0x4000_0000 * pow2((s - 30) as nat), t == pow2((s - 30) as nat) * x;
        vstd::arithmetic::div_mod::lemma_mod_multiples_basic(t as int, 0x4000_0000);
        assert(false);
    } else if s < 29 {
        vstd::arithmetic::div_mod::lemma_fundamental_div_mod(m as int, 0x4000_0000);
        let q = m / 0x4000_0000;
        vstd::arithmetic::power2::lemma_pow2_adds(s, (29 - s) as nat);
        vstd::arithmetic::power2::lemma_pow2_unfold((29 - s) as nat);
        let c = pow2(((29 - s) - 1) as nat);
        // m = 2^30 q + 2^29 = 2^s (2^(30 - s) q + 2^(29 - s)) = 2^s * 2 (2^(29 - s) q + c).
        assert(pow2(s) * pow2((29 - s) as nat) == 0x2000_0000);
        let y = 2 * (pow2((29 - s) as nat) * q + c);
        assert(m == pow2(s) * y) by (nonlinear_arith)
            requires
                m == 0x4000_0000 * q + 0x2000_0000,
                pow2(s) * pow2((29 - s) as nat) == 0x2000_0000,
                pow2((29 - s) as nat) == 2 * c,
                y == 2 * (pow2((29 - s) as nat) * q + c),
        ;
        vstd::arithmetic::mul::lemma_mul_equality_converse(pow2(s) as int, x as int, y as int);
        assert(false);
    }
}

/// On the canonic circle domain of log size `log + 1`, the abscissa of a point doubled `e`
/// times is zero exactly when `e = log`.
pub proof fn lemma_canonic_domain_doubling_abscissa(half: Coset, i: int, e: nat)
    requires
        half.spec_log_size() <= 29,
        half.spec_initial() == index_pow2(29 - half.spec_log_size()),
        half.spec_step() == index_pow2(31 - half.spec_log_size()),
        0 <= i < 2 * pow2(half.spec_log_size()),
    ensures
        (mp_repeated_double(mp_mul(m31_circle_gen(), domain_index(half, i) as nat), e).0 == 0) <==> (e
            == half.spec_log_size()),
{
    let g = m31_circle_gen();
    let log = half.spec_log_size();
    let x = lemma_canonic_domain_index(half, i);
    let k = domain_index(half, i) as nat;
    let a = pow2((29 - log) as nat);
    lemma_generator_facts();
    lemma_mp_mul_is_pow(g, k);
    lemma_mp_repeated_double_pow(g, k, e);
    vstd::arithmetic::power2::lemma_pow2_adds((29 - log) as nat, e);
    let s = ((29 - log) + e) as nat;
    assert(k * pow2(e) == pow2(s) * x) by (nonlinear_arith)
        requires k == a * x, a * pow2(e) == pow2(s);
    if e == log {
        assert(s == 29);
        vstd::arithmetic::power2::lemma2_to64();
        assert(pow2(s) * x == 0x2000_0000 * x);
        lemma_gen_pow_odd_quarter(x);
    }
    if mp_repeated_double(mp_pow(g, k), e).0 == 0 {
        lemma_gen_pow_abscissa_zero(k * pow2(e));
        lemma_odd_multiple_residue(s, x);
    }
}

/// The second half of a circle domain is the conjugate of the first: point `i + |half|` is the
/// conjugate of point `i`.
pub proof fn lemma_domain_conjugate_halves(half: Coset, i: int)
    requires
        0 <= i < pow2(half.spec_log_size()),
    ensures
        mp_conjugate(mp_mul(m31_circle_gen(), domain_index(half, i) as nat)) == mp_mul(
            m31_circle_gen(),
            domain_index(half, i + pow2(half.spec_log_size())) as nat,
        ),
{
    let g = m31_circle_gen();
    let k = coset_index(half.spec_initial(), half.spec_step(), i);
    vstd::arithmetic::div_mod::lemma_mod_bound(half.spec_initial() + half.spec_step() * i, 0x8000_0000);
    assert(0 <= k < 0x8000_0000);
    assert(domain_index(half, i) == k);
    assert(domain_index(half, i + pow2(half.spec_log_size())) == (0x8000_0000 - k) % 0x8000_0000);
    lemma_generator_facts();
    lemma_mp_mul_is_pow(g, k as nat);
    lemma_mp_mul_is_pow(g, ((0x8000_0000 - k) % 0x8000_0000) as nat);
    lemma_gen_pow_conjugate(k as nat);
}

} // verus!
