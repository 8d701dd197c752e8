//! The secure field `QM31`, the degree-4 extension of `M31`.
use vstd::prelude::*;
use crate::m31::{M31, P, modp, m31_of, group_m31};
use crate::qm31_algebra::{Q4, q_red, q_canon, q_add, q_add_raw, q_sub, q_neg, q_neg_raw, q_mul, q_mul_raw, q_zero, q_one, q_embed, unit, lemma_red_canon};

verus! {

broadcast use group_m31;

/// The number of base field coordinates of a secure field element.
pub const SECURE_EXTENSION_DEGREE: usize = 4;

/// `(c0 + c1 i) + (c2 + c3 i) u`, with `i^2 = -1` and `u^2 = 2 + i`.
#[derive(Clone, Copy, Debug, PartialEq, Eq, Structural)]
pub struct QM31 {
    pub c0: M31,
    pub c1: M31,
    pub c2: M31,
    pub c3: M31,
}

/// The field used for out-of-domain samples and for all random challenges.
pub type SecureField = QM31;

impl View for QM31 {
    type V = Q4;

    open spec fn view(&self) -> Q4 {
        (self.c0.val(), self.c1.val(), self.c2.val(), self.c3.val())
    }
}

/// The element with coordinates `t`; meaningful when `t` is canonical.
pub closed spec fn qm31_of(t: Q4) -> QM31 {
    QM31 { c0: m31_of(t.0), c1: m31_of(t.1), c2: m31_of(t.2), c3: m31_of(t.3) }
}

pub broadcast proof fn lemma_qm31_of_view(t: Q4)
    requires
        q_canon(t),
    ensures
        #[trigger] qm31_of(t)@ == t,
{
}

pub broadcast proof fn lemma_qm31_ext(a: QM31, b: QM31)
    requires
        #[trigger] a@ == #[trigger] b@,
    ensures
        a == b,
{
}

pub broadcast proof fn lemma_qm31_of_add(x: Q4, y: Q4)
    ensures
        #[trigger] qm31_of(q_add(x, y))@ == q_add(x, y),
{
    lemma_red_canon(q_add_raw(x, y));
}

pub broadcast proof fn lemma_qm31_of_sub(x: Q4, y: Q4)
    ensures
        #[trigger] qm31_of(q_sub(x, y))@ == q_sub(x, y),
{
    lemma_red_canon(q_add_raw(x, q_neg_raw(y)));
}

pub broadcast proof fn lemma_qm31_of_neg(x: Q4)
    ensures
        #[trigger] qm31_of(q_neg(x))@ == q_neg(x),
{
    lemma_red_canon(q_neg_raw(x));
}

pub broadcast proof fn lemma_qm31_of_mul(x: Q4, y: Q4)
    ensures
        #[trigger] qm31_of(q_mul(x, y))@ == q_mul(x, y),
{
    lemma_red_canon(q_mul_raw(x, y));
}

pub broadcast group group_qm31 {
    lemma_qm31_of_view,
    lemma_qm31_ext,
    lemma_qm31_of_add,
    lemma_qm31_of_sub,
    lemma_qm31_of_neg,
    lemma_qm31_of_mul,
}

/// `from_partial_evals`: `e0 + e1 i + e2 u + e3 iu`.
pub open spec fn q_from_partial(e0: Q4, e1: Q4, e2: Q4, e3: Q4) -> Q4 {
    q_add(q_add(q_add(e0, q_mul(e1, unit(1))), q_mul(e2, unit(2))), q_mul(e3, unit(3)))
}

/// `a` times the basis element `i`, `u` or `iu` puts `a` in that coordinate.
proof fn lemma_embed_times_unit(a: int, k: int)
    requires
        0 <= a < P,
        1 <= k < 4,
    ensures
        q_mul(q_embed(a), unit(k)) == (if k == 1 { (0int, a, 0int, 0int) } else if k == 2 { (0int, 0int, a, 0int) } else { (0int, 0int, 0int, a) }),
{
    crate::qm31_algebra::lemma_comm_raw(q_embed(a), unit(k));
    crate::qm31_algebra::lemma_unit_mul(k, q_embed(a));
    let r: Q4 = if k == 1 { (0int, a, 0int, 0int) } else if k == 2 { (0int, 0int, a, 0int) } else { (0int, 0int, 0int, a) };
    assert(q_mul_raw(q_embed(a), unit(k)) == r);
    lemma_red_canon(r);
}

/// Combining base field coordinate values gives back those coordinates:
/// `a0 + a1 i + a2 u + a3 iu` has coordinates `(a0, a1, a2, a3)`. So the value of a secure
/// polynomial whose coordinate polynomials take the values `a0 .. a3` is `(a0, a1, a2, a3)`.
pub proof fn lemma_from_partial_coordinates(a0: int, a1: int, a2: int, a3: int)
    requires
        0 <= a0 < P,
        0 <= a1 < P,
        0 <= a2 < P,
        0 <= a3 < P,
    ensures
        q_from_partial(q_embed(a0), q_embed(a1), q_embed(a2), q_embed(a3)) == (a0, a1, a2, a3),
{
    lemma_embed_times_unit(a1, 1);
    lemma_embed_times_unit(a2, 2);
    lemma_embed_times_unit(a3, 3);
    lemma_red_canon(q_add_raw(q_embed(a0), (0int, a1, 0int, 0int)));
    lemma_red_canon(q_add_raw((a0, a1, 0int, 0int), (0int, 0int, a2, 0int)));
    lemma_red_canon(q_add_raw((a0, a1, a2, 0int), (0int, 0int, 0int, a3)));
}

proof fn lemma_prod_lt(a: int, b: int)
    requires
        0 <= a < P,
        0 <= b < P,
    ensures
        0 <= a * b < 4611686014132420609,
{
    assert(0 <= a * b < 4611686014132420609) by (nonlinear_arith)
        requires
            0 <= a < 2147483647,
            0 <= b < 2147483647,
    ;
}

impl QM31 {
    /// The element `(a + b i) + (c + d i) u`.
    pub fn from_u32_unchecked(a: u32, b: u32, c: u32, d: u32) -> (r: QM31)
        requires
            a < P,
            b < P,
            c < P,
            d < P,
        ensures
            r@ == (a as int, b as int, c as int, d as int),
    {
        QM31 {
            c0: M31::from_u32_unchecked(a),
            c1: M31::from_u32_unchecked(b),
            c2: M31::from_u32_unchecked(c),
            c3: M31::from_u32_unchecked(d),
        }
    }

    pub fn from_m31(a: M31, b: M31, c: M31, d: M31) -> (r: QM31)
        ensures
            r@ == (a.val(), b.val(), c.val(), d.val()),
    {
        QM31 { c0: a, c1: b, c2: c, c3: d }
    }

    pub fn from_m31_array(a: [M31; 4]) -> (r: QM31)
        ensures
            r@ == (a[0].val(), a[1].val(), a[2].val(), a[3].val()),
    {
        QM31 { c0: a[0], c1: a[1], c2: a[2], c3: a[3] }
    }

    /// The four base field coordinates.
    pub fn to_m31_array(&self) -> (r: [M31; 4])
        ensures
            r[0] == self.c0,
            r[1] == self.c1,
            r[2] == self.c2,
            r[3] == self.c3,
            (r[0].val(), r[1].val(), r[2].val(), r[3].val()) == self@,
    {
        [self.c0, self.c1, self.c2, self.c3]
    }

    /// Every coordinate is in `[0, P)`.
    pub fn check_canonical(&self)
        ensures
            q_canon(self@),
    {
        let _ = self.c0.value();
        let _ = self.c1.value();
        let _ = self.c2.value();
        let _ = self.c3.value();
    }

    pub fn zero() -> (r: QM31)
        ensures
            r@ == q_zero(),
    {
        QM31 { c0: M31::zero(), c1: M31::zero(), c2: M31::zero(), c3: M31::zero() }
    }

    pub fn one() -> (r: QM31)
        ensures
            r@ == q_one(),
    {
        QM31 { c0: M31::one(), c1: M31::zero(), c2: M31::zero(), c3: M31::zero() }
    }

    /// The base field element `a` as an element of the extension.
    pub fn from_base(a: M31) -> (r: QM31)
        ensures
            r@ == q_embed(a.val()),
            q_canon(r@),
    {
        let _ = a.value();
        QM31 { c0: a, c1: M31::zero(), c2: M31::zero(), c3: M31::zero() }
    }

    pub fn is_zero(&self) -> (r: bool)
        ensures
            r == (self@ == q_zero()),
    {
        self.c0.is_zero() && self.c1.is_zero() && self.c2.is_zero() && self.c3.is_zero()
    }

    /// The automorphism `u -> -u` (fixing `CM31`).
    pub fn complex_conjugate(&self) -> (r: QM31)
        ensures
            r@ == (self@.0, self@.1, modp(-self@.2), modp(-self@.3)),
    {
        QM31 { c0: self.c0, c1: self.c1, c2: std::ops::Neg::neg(self.c2), c3: std::ops::Neg::neg(self.c3) }
    }

    /// Combines the evaluations of the four coordinate polynomials of a secure polynomial:
    /// `evals[0] + evals[1] i + evals[2] u + evals[3] iu`.
    pub fn from_partial_evals(evals: [QM31; 4]) -> (r: QM31)
        ensures
            r@ == q_from_partial(evals[0]@, evals[1]@, evals[2]@, evals[3]@),
            (forall|j: int| 0 <= j < 4 ==> #[trigger] evals[j]@ == q_embed(evals[j]@.0)) ==> r@ == (
                evals[0]@.0,
                evals[1]@.0,
                evals[2]@.0,
                evals[3]@.0,
            ),
    {
        let i = QM31::from_u32_unchecked(0, 1, 0, 0);
        let u = QM31::from_u32_unchecked(0, 0, 1, 0);
        let iu = QM31::from_u32_unchecked(0, 0, 0, 1);
        let r = evals[0] + evals[1] * i + evals[2] * u + evals[3] * iu;
        evals[0].check_canonical();
        evals[1].check_canonical();
        evals[2].check_canonical();
        evals[3].check_canonical();
        proof {
            lemma_red_canon(q_mul_raw(evals[1]@, unit(1)));
            lemma_red_canon(q_mul_raw(evals[2]@, unit(2)));
            lemma_red_canon(q_mul_raw(evals[3]@, unit(3)));
            lemma_red_canon(q_add_raw(evals[0]@, q_mul(evals[1]@, unit(1))));
            lemma_red_canon(q_add_raw(q_add(evals[0]@, q_mul(evals[1]@, unit(1))), q_mul(evals[2]@, unit(2))));
            lemma_red_canon(q_add_raw(q_add(q_add(evals[0]@, q_mul(evals[1]@, unit(1))), q_mul(evals[2]@, unit(2))), q_mul(evals[3]@, unit(3))));
            if forall|j: int| 0 <= j < 4 ==> #[trigger] evals[j]@ == q_embed(evals[j]@.0) {
                assert(evals[0]@ == q_embed(evals[0]@.0));
                assert(evals[1]@ == q_embed(evals[1]@.0));
                assert(evals[2]@ == q_embed(evals[2]@.0));
                assert(evals[3]@ == q_embed(evals[3]@.0));
                lemma_from_partial_coordinates(evals[0].c0.val(), evals[1].c0.val(), evals[2].c0.val(), evals[3].c0.val());
            }
        }
        r
    }
}

impl std::ops::Add for QM31 {
    type Output = QM31;

    fn add(self, rhs: QM31) -> (r: QM31) {
        let r = QM31 {
            c0: self.c0 + rhs.c0,
            c1: self.c1 + rhs.c1,
            c2: self.c2 + rhs.c2,
            c3: self.c3 + rhs.c3,
        };
        proof {
            reveal(q_red);
            lemma_red_canon(q_add_raw(self@, rhs@));
        }
        r
    }
}

impl vstd::std_specs::ops::AddSpecImpl for QM31 {
    open spec fn obeys_add_spec() -> bool {
        true
    }

    open spec fn add_req(self, rhs: QM31) -> bool {
        true
    }

    open spec fn add_spec(self, rhs: QM31) -> QM31 {
        qm31_of(q_add(self@, rhs@))
    }
}

impl std::ops::Sub for QM31 {
    type Output = QM31;

    fn sub(self, rhs: QM31) -> (r: QM31) {
        let r = QM31 {
            c0: self.c0 - rhs.c0,
            c1: self.c1 - rhs.c1,
            c2: self.c2 - rhs.c2,
            c3: self.c3 - rhs.c3,
        };
        proof {
            reveal(q_red);
            lemma_red_canon(q_add_raw(self@, q_neg_raw(rhs@)));
        }
        r
    }
}

impl vstd::std_specs::ops::SubSpecImpl for QM31 {
    open spec fn obeys_sub_spec() -> bool {
        true
    }

    open spec fn sub_req(self, rhs: QM31) -> bool {
        true
    }

    open spec fn sub_spec(self, rhs: QM31) -> QM31 {
        qm31_of(q_sub(self@, rhs@))
    }
}

impl std::ops::Neg for QM31 {
    type Output = QM31;

    fn neg(self) -> (r: QM31) {
        let r = QM31 { c0: std::ops::Neg::neg(self.c0), c1: std::ops::Neg::neg(self.c1), c2: std::ops::Neg::neg(self.c2), c3: std::ops::Neg::neg(self.c3) };
        proof {
            reveal(q_red);
            lemma_red_canon(q_neg_raw(self@));
        }
        r
    }
}

impl vstd::std_specs::ops::NegSpecImpl for QM31 {
    open spec fn obeys_neg_spec() -> bool {
        true
    }

    open spec fn neg_req(self) -> bool {
        true
    }

    open spec fn neg_spec(self) -> QM31 {
        qm31_of(q_neg(self@))
    }
}

impl std::ops::Mul for QM31 {
    type Output = QM31;

    fn mul(self, rhs: QM31) -> (r: QM31) {
        let a0 = self.c0.value() as u128;
        let a1 = self.c1.value() as u128;
        let a2 = self.c2.value() as u128;
        let a3 = self.c3.value() as u128;
        let b0 = rhs.c0.value() as u128;
        let b1 = rhs.c1.value() as u128;
        let b2 = rhs.c2.value() as u128;
        let b3 = rhs.c3.value() as u128;
        proof {
            lemma_prod_lt(a0 as int, b0 as int);
            lemma_prod_lt(a0 as int, b1 as int);
            lemma_prod_lt(a0 as int, b2 as int);
            lemma_prod_lt(a0 as int, b3 as int);
            lemma_prod_lt(a1 as int, b0 as int);
            lemma_prod_lt(a1 as int, b1 as int);
            lemma_prod_lt(a1 as int, b2 as int);
            lemma_prod_lt(a1 as int, b3 as int);
            lemma_prod_lt(a2 as int, b0 as int);
            lemma_prod_lt(a2 as int, b1 as int);
            lemma_prod_lt(a2 as int, b2 as int);
            lemma_prod_lt(a2 as int, b3 as int);
            lemma_prod_lt(a3 as int, b0 as int);
            lemma_prod_lt(a3 as int, b1 as int);
            lemma_prod_lt(a3 as int, b2 as int);
            lemma_prod_lt(a3 as int, b3 as int);
        }
        // `P^2`, a multiple of `P` added to keep the differences nonnegative.
        let pp: u128 = 4611686014132420609;
        let p: u128 = P as u128;
        let pos0 = a0 * b0 + 2 * (a2 * b2);
        let neg0 = a1 * b1 + 2 * (a3 * b3) + a2 * b3 + a3 * b2;
        let pos1 = a0 * b1 + a1 * b0 + 2 * (a2 * b3) + 2 * (a3 * b2) + a2 * b2;
        let neg1 = a3 * b3;
        let pos2 = a0 * b2 + a2 * b0;
        let neg2 = a1 * b3 + a3 * b1;
        let pos3 = a0 * b3 + a1 * b2 + a2 * b1 + a3 * b0;
        let r0 = (pos0 + 5 * pp - neg0) % p;
        let r1 = (pos1 + pp - neg1) % p;
        let r2 = (pos2 + 2 * pp - neg2) % p;
        let r3 = pos3 % p;
        let r = QM31 {
            c0: M31::from_u32_unchecked(r0 as u32),
            c1: M31::from_u32_unchecked(r1 as u32),
            c2: M31::from_u32_unchecked(r2 as u32),
            c3: M31::from_u32_unchecked(r3 as u32),
        };
        proof {
            let pi = P as int;
            reveal(q_mul_raw);
            reveal(q_red);
            let raw = q_mul_raw(self@, rhs@);
            assert(raw.0 == pos0 - neg0);
            assert(raw.1 == pos1 - neg1);
            assert(raw.2 == pos2 - neg2);
            assert(raw.3 == pos3);
            assert(pp == pi * pi);
            vstd::arithmetic::div_mod::lemma_mod_multiples_vanish(5 * pi, pos0 - neg0, pi);
            vstd::arithmetic::div_mod::lemma_mod_multiples_vanish(pi, pos1 - neg1, pi);
            vstd::arithmetic::div_mod::lemma_mod_multiples_vanish(2 * pi, pos2 - neg2, pi);
            assert(pi * (5 * pi) == 5 * pp) by (nonlinear_arith) requires pp == pi * pi;
            assert(pi * (2 * pi) == 2 * pp) by (nonlinear_arith) requires pp == pi * pi;
            lemma_red_canon(raw);
            assert(r0 == modp(raw.0));
            assert(r1 == modp(raw.1));
            assert(r2 == modp(raw.2));
            assert(r3 == modp(raw.3));
            assert(r@ == q_mul(self@, rhs@));
            lemma_qm31_of_view(q_mul(self@, rhs@));
            lemma_qm31_ext(r, qm31_of(q_mul(self@, rhs@)));
        }
        r
    }
}

impl vstd::std_specs::ops::MulSpecImpl for QM31 {
    open spec fn obeys_mul_spec() -> bool {
        true
    }

    open spec fn mul_req(self, rhs: QM31) -> bool {
        true
    }

    open spec fn mul_spec(self, rhs: QM31) -> QM31 {
        qm31_of(q_mul(self@, rhs@))
    }
}

impl From<M31> for QM31 {
    fn from(a: M31) -> (r: QM31) {
        let r = QM31::from_base(a);
        proof {
            lemma_qm31_of_view(q_embed(a.val()));
            lemma_qm31_ext(r, qm31_of(q_embed(a.val())));
        }
        r
    }
}

impl vstd::std_specs::convert::FromSpecImpl<M31> for QM31 {
    open spec fn obeys_from_spec() -> bool {
        true
    }

    open spec fn from_spec(a: M31) -> QM31 {
        qm31_of(q_embed(a.val()))
    }
}

} // verus!
