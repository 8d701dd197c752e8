//! Points of the circle curve `x^2 + y^2 = 1` over `M31` and over `QM31`.
use vstd::prelude::*;
use crate::m31::{M31, P, modp, group_m31};
use crate::qm31::{QM31, qm31_of, group_qm31};
use crate::qm31_algebra::{
    Q4, q_add, q_sub, q_neg, q_mul, q_zero, q_one, q_embed, q_canon, q_red, q_add_raw, q_mul_raw,
    q_neg_raw, q_scale_raw, lemma_red_canon, lemma_red_neg, lemma_cong_add, lemma_cong_neg,
    lemma_cong_mul, lemma_raw_mul_neg_left, lemma_raw_square_sum, lemma_raw_square_product,
    lemma_comm_raw, lemma_unit_mul, unit, lemma_assoc_raw, lemma_add_left, lemma_raw_mul_add_right,
};

verus! {

broadcast use {group_m31, group_qm31};

/// A point of the circle over the field `F`.
#[derive(Clone, Copy, Debug, PartialEq, Eq)]
pub struct CirclePoint<F> {
    pub x: F,
    pub y: F,
}

// ---------------------------------------------------------------------------
// Specification over the secure field.
// ---------------------------------------------------------------------------

/// A secure circle point as a pair of coordinates.
pub type QPoint = (Q4, Q4);

/// The group law of the circle: `(x1 x2 - y1 y2, x1 y2 + y1 x2)`.
pub open spec fn qp_add(p: QPoint, q: QPoint) -> QPoint {
    (q_sub(q_mul(p.0, q.0), q_mul(p.1, q.1)), q_add(q_mul(p.0, q.1), q_mul(p.1, q.0)))
}

pub open spec fn qp_double(p: QPoint) -> QPoint {
    qp_add(p, p)
}

/// The point doubled `n` times.
pub open spec fn qp_repeated_double(p: QPoint, n: nat) -> QPoint
    decreases n,
{
    if n == 0 {
        p
    } else {
        qp_double(qp_repeated_double(p, (n - 1) as nat))
    }
}

/// The identity `(1, 0)`.
pub open spec fn qp_zero() -> QPoint {
    (q_one(), q_zero())
}

/// The circle conjugate `(x, -y)`.
pub open spec fn qp_conjugate(p: QPoint) -> QPoint {
    (p.0, q_neg(p.1))
}

/// The `x` coordinate of a doubled point, as a function of `x` alone: `2 x^2 - 1`.
pub open spec fn q_double_x(x: Q4) -> Q4 {
    q_sub(q_add(q_mul(x, x), q_mul(x, x)), q_one())
}

/// `x` doubled `n` times by `q_double_x`.
pub open spec fn q_double_x_iter(x: Q4, n: nat) -> Q4
    decreases n,
{
    if n == 0 {
        x
    } else {
        q_double_x(q_double_x_iter(x, (n - 1) as nat))
    }
}

pub open spec fn qp_on_circle(p: QPoint) -> bool {
    q_add(q_mul(p.0, p.0), q_mul(p.1, p.1)) == q_one()
}

/// Double-and-add: `acc + s * cur`, reading the bits of `s` from the lowest.
pub open spec fn qp_mul_acc(acc: QPoint, cur: QPoint, s: nat) -> QPoint
    decreases s,
{
    if s == 0 {
        acc
    } else {
        qp_mul_acc(if s % 2 == 1 { qp_add(acc, cur) } else { acc }, qp_double(cur), s / 2)
    }
}

/// The scalar multiple `s * p` computed by double-and-add from the identity.
pub open spec fn qp_mul(p: QPoint, s: nat) -> QPoint {
    qp_mul_acc(qp_zero(), p, s)
}

// ---------------------------------------------------------------------------
// Specification over the base field.
// ---------------------------------------------------------------------------

/// A base field circle point as a pair of integers.
pub type MPoint = (int, int);

pub open spec fn mp_add(p: MPoint, q: MPoint) -> MPoint {
    (modp(p.0 * q.0 - p.1 * q.1), modp(p.0 * q.1 + p.1 * q.0))
}

pub open spec fn mp_double(p: MPoint) -> MPoint {
    mp_add(p, p)
}

pub open spec fn mp_repeated_double(p: MPoint, n: nat) -> MPoint
    decreases n,
{
    if n == 0 {
        p
    } else {
        mp_double(mp_repeated_double(p, (n - 1) as nat))
    }
}

pub open spec fn mp_zero() -> MPoint {
    (1, 0)
}

pub open spec fn mp_conjugate(p: MPoint) -> MPoint {
    (p.0, modp(-p.1))
}

pub open spec fn m_double_x(x: int) -> int {
    modp(2 * (x * x) - 1)
}

pub open spec fn mp_mul_acc(acc: MPoint, cur: MPoint, s: nat) -> MPoint
    decreases s,
{
    if s == 0 {
        acc
    } else {
        mp_mul_acc(if s % 2 == 1 { mp_add(acc, cur) } else { acc }, mp_double(cur), s / 2)
    }
}

pub open spec fn mp_mul(p: MPoint, s: nat) -> MPoint {
    mp_mul_acc(mp_zero(), p, s)
}

/// The base field point seen over the secure field.
pub open spec fn mp_lift(p: MPoint) -> QPoint {
    (q_embed(p.0), q_embed(p.1))
}

/// The generator `(2, 1268011823)` of the circle group over `M31`, of order `2^31`.
pub open spec fn m31_circle_gen() -> MPoint {
    (2, 1268011823)
}

/// A generator of the circle group over `QM31`.
pub open spec fn secure_circle_gen() -> QPoint {
    ((1, 0, 478637715, 513582971), (992285211, 649143431, 740191619, 1186584352))
}

/// `log2` of the order of the circle group over `M31`.
pub const M31_CIRCLE_LOG_ORDER: u32 = 31;

proof fn lemma_sub_mod(a: int, b: int)
    ensures
        modp(modp(a) - modp(b)) == modp(a - b),
        modp(modp(a) + modp(b)) == modp(a + b),
{
    vstd::arithmetic::div_mod::lemma_sub_mod_noop(a, b, P as int);
    vstd::arithmetic::div_mod::lemma_add_mod_noop(a, b, P as int);
}

// ---------------------------------------------------------------------------
// Doubling on the circle.
// ---------------------------------------------------------------------------

pub open spec fn qp_canon(p: QPoint) -> bool {
    q_canon(p.0) && q_canon(p.1)
}

/// On the circle, the abscissa of the double is `2 x^2 - 1`, a function of `x` alone.
#[verifier::rlimit(60)]
pub proof fn lemma_double_x_on_circle(p: QPoint)
    requires
        qp_canon(p),
        qp_on_circle(p),
    ensures
        qp_double(p).0 == q_double_x(p.0),
{
    let (x, y) = p;
    let big_a = q_mul(x, x);
    let big_b = q_mul(y, y);
    let s = q_add_raw(big_a, big_b);
    lemma_red_canon(q_mul_raw(x, x));
    lemma_red_canon(q_mul_raw(y, y));
    lemma_red_canon(q_add_raw(big_a, big_a));
    // 2A - 1 = 2A - (A + B) = A - B.
    lemma_red_neg(s);
    lemma_cong_add(q_add(big_a, big_a), q_add_raw(big_a, big_a), q_neg_raw(q_red(s)), q_neg_raw(s));
    assert(q_add_raw(q_add_raw(big_a, big_a), q_neg_raw(s)) == q_add_raw(big_a, q_neg_raw(big_b)));
}

/// `(a - b)^2 + (c + c)^2 = (a + b)^2` over the integers when `c^2 = ab`.
proof fn lemma_double_identity(x: Q4, y: Q4)
    ensures
        ({
            let a = q_mul_raw(x, x);
            let b = q_mul_raw(y, y);
            let c = q_mul_raw(x, y);
            let amb = q_add_raw(a, q_neg_raw(b));
            let cpc = q_add_raw(c, c);
            q_add_raw(q_mul_raw(amb, amb), q_mul_raw(cpc, cpc)) == q_mul_raw(q_add_raw(a, b), q_add_raw(a, b))
        }),
{
    let a = q_mul_raw(x, x);
    let b = q_mul_raw(y, y);
    let c = q_mul_raw(x, y);
    let amb = q_add_raw(a, q_neg_raw(b));
    let cpc = q_add_raw(c, c);
    lemma_raw_square_sum(a, q_neg_raw(b));
    lemma_comm_raw(a, q_neg_raw(b));
    lemma_raw_mul_neg_left(b, a);
    lemma_comm_raw(b, a);
    lemma_raw_mul_neg_left(b, q_neg_raw(b));
    lemma_comm_raw(b, q_neg_raw(b));
    lemma_raw_mul_neg_left(b, b);
    let aa = q_mul_raw(a, a);
    let ab = q_mul_raw(a, b);
    let bb = q_mul_raw(b, b);
    assert(q_mul_raw(amb, amb) == q_add_raw(q_add_raw(aa, q_scale_raw(-2, ab)), bb));
    lemma_raw_square_sum(c, c);
    lemma_raw_square_product(x, y);
    assert(q_mul_raw(cpc, cpc) == q_scale_raw(4, ab));
    lemma_raw_square_sum(a, b);
}

/// The coordinates of the double are congruent to `x^2 - y^2` and `xy + xy`.
#[verifier::rlimit(60)]
proof fn lemma_double_congruent(p: QPoint)
    requires
        qp_canon(p),
    ensures
        ({
            let (x, y) = p;
            let a = q_mul_raw(x, x);
            let b = q_mul_raw(y, y);
            let c = q_mul_raw(x, y);
            let d = qp_double(p);
            &&& qp_canon(d)
            &&& q_red(d.0) == q_red(q_add_raw(a, q_neg_raw(b)))
            &&& q_red(d.1) == q_red(q_add_raw(c, c))
        }),
{
    let (x, y) = p;
    let a = q_mul_raw(x, x);
    let b = q_mul_raw(y, y);
    let c = q_mul_raw(x, y);
    lemma_red_canon(a);
    lemma_red_canon(b);
    lemma_red_canon(c);
    lemma_comm_raw(y, x);
    lemma_red_canon(q_add_raw(q_red(a), q_neg_raw(q_red(b))));
    lemma_red_canon(q_add_raw(q_red(c), q_red(c)));
    lemma_cong_neg(q_red(b), b);
    lemma_cong_add(q_red(a), a, q_neg_raw(q_red(b)), q_neg_raw(b));
    lemma_cong_add(q_red(c), c, q_red(c), c);
}

/// Doubling keeps a point on the circle: `(x^2 - y^2)^2 + (2xy)^2 = (x^2 + y^2)^2 = 1`.
#[verifier::rlimit(60)]
pub proof fn lemma_double_on_circle(p: QPoint)
    requires
        qp_canon(p),
        qp_on_circle(p),
    ensures
        qp_canon(qp_double(p)),
        qp_on_circle(qp_double(p)),
{
    let (x, y) = p;
    let a = q_mul_raw(x, x);
    let b = q_mul_raw(y, y);
    let c = q_mul_raw(x, y);
    let amb = q_add_raw(a, q_neg_raw(b));
    let cpc = q_add_raw(c, c);
    let apb = q_add_raw(a, b);
    let d = qp_double(p);
    lemma_double_congruent(p);
    lemma_double_identity(x, y);
    lemma_red_canon(d.0);
    lemma_red_canon(d.1);
    lemma_cong_mul(d.0, amb, d.0, amb);
    lemma_cong_mul(d.1, cpc, d.1, cpc);
    lemma_red_canon(q_mul_raw(d.0, d.0));
    lemma_red_canon(q_mul_raw(d.1, d.1));
    lemma_cong_add(q_mul(d.0, d.0), q_mul_raw(amb, amb), q_mul(d.1, d.1), q_mul_raw(cpc, cpc));
    // a + b is congruent to A + B = 1.
    lemma_red_canon(a);
    lemma_red_canon(b);
    lemma_cong_add(q_red(a), a, q_red(b), b);
    lemma_red_canon(q_one());
    lemma_cong_mul(apb, q_one(), apb, q_one());
    lemma_unit_mul(0, q_one());
}

/// On the circle, the abscissa of the `n`-fold double is `dx^n(x)`, and the point stays on the circle.
pub proof fn lemma_repeated_double_on_circle(p: QPoint, n: nat)
    requires
        qp_canon(p),
        qp_on_circle(p),
    ensures
        qp_canon(qp_repeated_double(p, n)),
        qp_on_circle(qp_repeated_double(p, n)),
        qp_repeated_double(p, n).0 == q_double_x_iter(p.0, n),
    decreases n,
{
    if n > 0 {
        let q = qp_repeated_double(p, (n - 1) as nat);
        lemma_repeated_double_on_circle(p, (n - 1) as nat);
        lemma_double_x_on_circle(q);
        lemma_double_on_circle(q);
    }
}

/// `(ac - bd)^2 + (ad + bc)^2 = (a^2 + b^2)(c^2 + d^2)` over the integers.
proof fn lemma_add_identity(a: Q4, b: Q4, c: Q4, d: Q4)
    ensures
        ({
            let u = q_add_raw(q_mul_raw(a, c), q_neg_raw(q_mul_raw(b, d)));
            let v = q_add_raw(q_mul_raw(a, d), q_mul_raw(b, c));
            q_add_raw(q_mul_raw(u, u), q_mul_raw(v, v)) == q_mul_raw(
                q_add_raw(q_mul_raw(a, a), q_mul_raw(b, b)),
                q_add_raw(q_mul_raw(c, c), q_mul_raw(d, d)),
            )
        }),
{
    let ac = q_mul_raw(a, c);
    let bd = q_mul_raw(b, d);
    let ad = q_mul_raw(a, d);
    let bc = q_mul_raw(b, c);
    let nbd = q_neg_raw(bd);
    lemma_raw_square_sum(ac, nbd);
    lemma_raw_square_sum(ad, bc);
    // ac (-bd) = -(ac bd) and (-bd)^2 = bd^2.
    lemma_comm_raw(ac, nbd);
    lemma_raw_mul_neg_left(bd, ac);
    lemma_comm_raw(bd, ac);
    lemma_raw_mul_neg_left(bd, nbd);
    lemma_comm_raw(bd, nbd);
    lemma_raw_mul_neg_left(bd, bd);
    // (ac)(bd) = a((bc)d) = (ad)(bc).
    lemma_assoc_raw(a, c, bd);
    lemma_assoc_raw(c, b, d);
    lemma_comm_raw(c, b);
    lemma_assoc_raw(a, d, bc);
    lemma_comm_raw(d, bc);
    assert(q_mul_raw(ac, bd) == q_mul_raw(ad, bc));
    // The squares of the products are the products of the squares.
    lemma_raw_square_product(a, c);
    lemma_raw_square_product(b, d);
    lemma_raw_square_product(a, d);
    lemma_raw_square_product(b, c);
    let aa = q_mul_raw(a, a);
    let bb = q_mul_raw(b, b);
    let cc = q_mul_raw(c, c);
    let dd = q_mul_raw(d, d);
    lemma_add_left(aa, bb, q_add_raw(cc, dd));
    lemma_raw_mul_add_right(aa, cc, dd);
    lemma_raw_mul_add_right(bb, cc, dd);
}

/// The sum of two points of the circle is a point of the circle, with canonical coordinates.
pub proof fn lemma_add_on_circle(p: QPoint, q: QPoint)
    requires
        qp_on_circle(p),
        qp_on_circle(q),
    ensures
        qp_canon(qp_add(p, q)),
        qp_on_circle(qp_add(p, q)),
{
    let (a, b) = p;
    let (c, d) = q;
    let s = qp_add(p, q);
    let ac = q_mul_raw(a, c);
    let bd = q_mul_raw(b, d);
    let ad = q_mul_raw(a, d);
    let bc = q_mul_raw(b, c);
    let u = q_add_raw(ac, q_neg_raw(bd));
    let v = q_add_raw(ad, bc);
    lemma_red_canon(ac);
    lemma_red_canon(bd);
    lemma_red_canon(ad);
    lemma_red_canon(bc);
    lemma_cong_neg(q_red(bd), bd);
    lemma_cong_add(q_red(ac), ac, q_neg_raw(q_red(bd)), q_neg_raw(bd));
    lemma_cong_add(q_red(ad), ad, q_red(bc), bc);
    lemma_red_canon(q_add_raw(q_red(ac), q_neg_raw(q_red(bd))));
    lemma_red_canon(q_add_raw(q_red(ad), q_red(bc)));
    assert(q_red(s.0) == q_red(u));
    assert(q_red(s.1) == q_red(v));
    lemma_add_identity(a, b, c, d);
    lemma_cong_mul(s.0, u, s.0, u);
    lemma_cong_mul(s.1, v, s.1, v);
    lemma_red_canon(q_mul_raw(s.0, s.0));
    lemma_red_canon(q_mul_raw(s.1, s.1));
    lemma_cong_add(q_mul(s.0, s.0), q_mul_raw(u, u), q_mul(s.1, s.1), q_mul_raw(v, v));
    // a^2 + b^2 and c^2 + d^2 are congruent to one.
    let aa = q_mul_raw(a, a);
    let bb = q_mul_raw(b, b);
    let cc = q_mul_raw(c, c);
    let dd = q_mul_raw(d, d);
    lemma_red_canon(aa);
    lemma_red_canon(bb);
    lemma_red_canon(cc);
    lemma_red_canon(dd);
    lemma_cong_add(q_red(aa), aa, q_red(bb), bb);
    lemma_cong_add(q_red(cc), cc, q_red(dd), dd);
    lemma_red_canon(q_one());
    lemma_cong_mul(q_add_raw(aa, bb), q_one(), q_add_raw(cc, dd), q_one());
    lemma_unit_mul(0, q_one());
    lemma_red_canon(q_add_raw(q_mul(s.0, s.0), q_mul(s.1, s.1)));
}

/// Double-and-add from points of the circle stays on the circle.
pub proof fn lemma_mul_acc_on_circle(acc: QPoint, cur: QPoint, s: nat)
    requires
        qp_canon(acc),
        qp_on_circle(acc),
        qp_on_circle(cur),
    ensures
        qp_canon(qp_mul_acc(acc, cur, s)),
        qp_on_circle(qp_mul_acc(acc, cur, s)),
    decreases s,
{
    if s > 0 {
        lemma_add_on_circle(acc, cur);
        lemma_add_on_circle(cur, cur);
        let next = if s % 2 == 1 { qp_add(acc, cur) } else { acc };
        lemma_mul_acc_on_circle(next, qp_double(cur), s / 2);
    }
}

/// The identity and the generator of the secure circle group lie on the circle.
pub proof fn lemma_secure_gen_on_circle()
    ensures
        qp_canon(qp_zero()),
        qp_on_circle(qp_zero()),
        qp_canon(secure_circle_gen()),
        qp_on_circle(secure_circle_gen()),
{
    reveal(q_mul_raw);
    reveal(q_red);
    assert(modp(0) == 0 && modp(1) == 1) by {
        crate::qm31_algebra::lemma_modp_small(0);
        crate::qm31_algebra::lemma_modp_small(1);
    }
    let g = secure_circle_gen();
    assert(qp_on_circle(g));
}

impl View for CirclePoint<QM31> {
    type V = QPoint;

    open spec fn view(&self) -> QPoint {
        (self.x@, self.y@)
    }
}

impl View for CirclePoint<M31> {
    type V = MPoint;

    open spec fn view(&self) -> MPoint {
        (self.x.val(), self.y.val())
    }
}

impl CirclePoint<QM31> {
    /// The identity of the circle group.
    pub fn zero() -> (r: CirclePoint<QM31>)
        ensures
            r@ == qp_zero(),
    {
        CirclePoint { x: QM31::one(), y: QM31::zero() }
    }

    /// The group law.
    pub fn add(&self, rhs: &CirclePoint<QM31>) -> (r: CirclePoint<QM31>)
        ensures
            r@ == qp_add(self@, rhs@),
    {
        let x = self.x * rhs.x - self.y * rhs.y;
        let y = self.x * rhs.y + self.y * rhs.x;
        CirclePoint { x, y }
    }

    pub fn double(&self) -> (r: CirclePoint<QM31>)
        ensures
            r@ == qp_double(self@),
    {
        self.add(self)
    }

    /// The point doubled `n` times.
    pub fn repeated_double(&self, n: u32) -> (r: CirclePoint<QM31>)
        ensures
            r@ == qp_repeated_double(self@, n as nat),
    {
        let mut p = *self;
        let mut i: u32 = 0;
        while i < n
            invariant
                i <= n,
                p@ == qp_repeated_double(self@, i as nat),
            decreases n - i,
        {
            p = p.double();
            i = i + 1;
        }
        p
    }

    /// The circle conjugate `(x, -y)`.
    pub fn conjugate(&self) -> (r: CirclePoint<QM31>)
        ensures
            r@ == qp_conjugate(self@),
    {
        let y = std::ops::Neg::neg(self.y);
        CirclePoint { x: self.x, y }
    }

    /// The field conjugate: both coordinates under `u -> -u`.
    pub fn complex_conjugate(&self) -> (r: CirclePoint<QM31>)
        ensures
            r.x@ == (self.x@.0, self.x@.1, modp(-self.x@.2), modp(-self.x@.3)),
            r.y@ == (self.y@.0, self.y@.1, modp(-self.y@.2), modp(-self.y@.3)),
    {
        CirclePoint { x: self.x.complex_conjugate(), y: self.y.complex_conjugate() }
    }

    /// `2 x^2 - 1`, the `x` coordinate of the double of a circle point with abscissa `x`.
    pub fn double_x(x: QM31) -> (r: QM31)
        ensures
            r@ == q_double_x(x@),
    {
        let sq = x * x;
        (sq + sq) - QM31::one()
    }

    /// `scalar * self`, by double-and-add.
    pub fn mul(&self, scalar: u128) -> (r: CirclePoint<QM31>)
        ensures
            r@ == qp_mul(self@, scalar as nat),
    {
        let mut res = CirclePoint::<QM31>::zero();
        let mut cur = *self;
        let mut s = scalar;
        while s > 0
            invariant
                qp_mul_acc(res@, cur@, s as nat) == qp_mul(self@, scalar as nat),
            decreases s,
        {
            if s & 1 == 1 {
                res = res.add(&cur);
            }
            proof {
                assert(s & 1 == s % 2) by (bit_vector);
            }
            let ghost s0 = s;
            cur = cur.double();
            s = s >> 1;
            proof {
                assert(s == s0 / 2) by (bit_vector)
                    requires
                        s == s0 >> 1,
                ;
            }
        }
        res
    }
}

impl CirclePoint<M31> {
    pub fn zero() -> (r: CirclePoint<M31>)
        ensures
            r@ == mp_zero(),
    {
        CirclePoint { x: M31::one(), y: M31::zero() }
    }

    /// The group law.
    pub fn add(&self, rhs: &CirclePoint<M31>) -> (r: CirclePoint<M31>)
        ensures
            r@ == mp_add(self@, rhs@),
    {
        let x = self.x * rhs.x - self.y * rhs.y;
        let y = self.x * rhs.y + self.y * rhs.x;
        proof {
            lemma_sub_mod(self.x.val() * rhs.x.val(), self.y.val() * rhs.y.val());
            lemma_sub_mod(self.x.val() * rhs.y.val(), self.y.val() * rhs.x.val());
        }
        CirclePoint { x, y }
    }

    pub fn double(&self) -> (r: CirclePoint<M31>)
        ensures
            r@ == mp_double(self@),
    {
        self.add(self)
    }

    pub fn repeated_double(&self, n: u32) -> (r: CirclePoint<M31>)
        ensures
            r@ == mp_repeated_double(self@, n as nat),
    {
        let mut p = *self;
        let mut i: u32 = 0;
        while i < n
            invariant
                i <= n,
                p@ == mp_repeated_double(self@, i as nat),
            decreases n - i,
        {
            p = p.double();
            i = i + 1;
        }
        p
    }

    pub fn conjugate(&self) -> (r: CirclePoint<M31>)
        ensures
            r@ == mp_conjugate(self@),
    {
        CirclePoint { x: self.x, y: std::ops::Neg::neg(self.y) }
    }

    /// `2 x^2 - 1`.
    pub fn double_x(x: M31) -> (r: M31)
        ensures
            r.val() == m_double_x(x.val()),
    {
        let sq = x * x;
        let r = (sq + sq) - M31::one();
        proof {
            let s = x.val() * x.val();
            lemma_sub_mod(s, s);
            lemma_sub_mod(s + s, 1);
            vstd::arithmetic::div_mod::lemma_small_mod(1, P as nat);
            vstd::arithmetic::div_mod::lemma_mod_twice(s + s, P as int);
        }
        r
    }

    /// `scalar * self`, by double-and-add.
    pub fn mul(&self, scalar: u128) -> (r: CirclePoint<M31>)
        ensures
            r@ == mp_mul(self@, scalar as nat),
    {
        let mut res = CirclePoint::<M31>::zero();
        let mut cur = *self;
        let mut s = scalar;
        while s > 0
            invariant
                mp_mul_acc(res@, cur@, s as nat) == mp_mul(self@, scalar as nat),
            decreases s,
        {
            if s & 1 == 1 {
                res = res.add(&cur);
            }
            proof {
                assert(s & 1 == s % 2) by (bit_vector);
            }
            let ghost s0 = s;
            cur = cur.double();
            s = s >> 1;
            proof {
                assert(s == s0 / 2) by (bit_vector)
                    requires
                        s == s0 >> 1,
                ;
            }
        }
        res
    }

    /// The same point, seen over the secure field.
    pub fn into_ef(&self) -> (r: CirclePoint<QM31>)
        ensures
            r@ == mp_lift(self@),
    {
        CirclePoint { x: QM31::from_base(self.x), y: QM31::from_base(self.y) }
    }
}

impl CirclePoint<QM31> {
    /// The point of index `index` of the secure circle group: `index * g` for a fixed generator `g`.
    pub fn get_point(index: u128) -> (r: CirclePoint<QM31>)
        ensures
            r@ == qp_mul(secure_circle_gen(), index as nat),
            qp_canon(r@),
            qp_on_circle(r@),
    {
        proof {
            lemma_secure_gen_on_circle();
            lemma_mul_acc_on_circle(qp_zero(), secure_circle_gen(), index as nat);
        }
        let g = CirclePoint {
            x: QM31::from_u32_unchecked(1, 0, 478637715, 513582971),
            y: QM31::from_u32_unchecked(992285211, 649143431, 740191619, 1186584352),
        };
        g.mul(index)
    }
}

/// The base field point of index `index`: `index * (2, 1268011823)`.
pub fn m31_circle_point(index: u32) -> (r: CirclePoint<M31>)
    ensures
        r@ == mp_mul(m31_circle_gen(), index as nat),
{
    let g = CirclePoint { x: M31::from_u32_unchecked(2), y: M31::from_u32_unchecked(1268011823) };
    g.mul(index as u128)
}

} // verus!
