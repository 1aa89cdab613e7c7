//! Elements of the base prime field and of its cubic extension, held as
//! canonical integers. The arithmetic itself is done by `twenty_first`.
use vstd::prelude::*;

use twenty_first::math::b_field_element::BFieldElement as OuterB;
use twenty_first::math::traits::Inverse;
use twenty_first::math::x_field_element::XFieldElement as OuterX;

verus! {

/// The base field's prime, 2^64 - 2^32 + 1.
pub const P: u64 = 0xffff_ffff_0000_0001;

pub open spec fn modulus() -> int {
    18446744069414584321
}

/// `a + b` in the base field, on integers.
pub open spec fn add_mod(a: int, b: int) -> int {
    (a + b) % modulus()
}

/// `a - b` in the base field, on integers.
pub open spec fn sub_mod(a: int, b: int) -> int {
    (a - b) % modulus()
}

/// `a * b` in the base field, on integers.
pub open spec fn mul_mod(a: int, b: int) -> int {
    (a * b) % modulus()
}

/// `r` is what `inverse_or_zero` gives for `a`: zero for zero, else the
/// multiplicative inverse.
pub open spec fn is_inverse_or_zero(a: int, r: int) -> bool {
    &&& 0 <= r < modulus()
    &&& a % modulus() == 0 ==> r == 0
    &&& a % modulus() != 0 ==> (a * r) % modulus() == 1
}

/// The coefficients of the product of `a0 + a1·x + a2·x²` and `b0 + b1·x + b2·x²`
/// modulo `x³ - x + 1`, before reduction modulo the prime.
pub open spec fn xmul_raw(a0: int, a1: int, a2: int, b0: int, b1: int, b2: int) -> (
    int,
    int,
    int,
) {
    (
        a0 * b0 - a2 * b1 - a1 * b2,
        a1 * b0 + a0 * b1 - a2 * b2 + a2 * b1 + a1 * b2,
        a2 * b0 + a1 * b1 + a0 * b2 + a2 * b2,
    )
}

/// The product of `xmul_raw` with each coefficient reduced modulo the prime.
pub open spec fn xmul_reduced(a0: int, a1: int, a2: int, b0: int, b1: int, b2: int) -> (
    int,
    int,
    int,
) {
    let (r0, r1, r2) = xmul_raw(a0, a1, a2, b0, b1, b2);
    (r0 % modulus(), r1 % modulus(), r2 % modulus())
}

/// Relies on `BFieldElement::new` and `value`: the value reduced modulo the prime.
#[verifier::external_body]
fn raw_new(a: u64) -> (r: u64)
    ensures
        r as int == a as int % modulus(),
{
    OuterB::new(a).value()
}

/// Relies on `BFieldElement::new`, `Add` and `value`: the sum modulo the prime.
#[verifier::external_body]
fn raw_add(a: u64, b: u64) -> (r: u64)
    ensures
        r as int == add_mod(a as int, b as int),
{
    let x = OuterB::new(a);
    let y = OuterB::new(b);
    (x + y).value()
}

/// Relies on `BFieldElement::new`, `Sub` and `value`: the difference modulo the prime.
#[verifier::external_body]
fn raw_sub(a: u64, b: u64) -> (r: u64)
    ensures
        r as int == sub_mod(a as int, b as int),
{
    let x = OuterB::new(a);
    let y = OuterB::new(b);
    (x - y).value()
}

/// Relies on `BFieldElement::new`, `Mul` and `value`: the product modulo the prime.
#[verifier::external_body]
fn raw_mul(a: u64, b: u64) -> (r: u64)
    ensures
        r as int == mul_mod(a as int, b as int),
{
    let x = OuterB::new(a);
    let y = OuterB::new(b);
    (x * y).value()
}

/// Relies on `Inverse::inverse_or_zero` of `BFieldElement`: zero for zero, else
/// the multiplicative inverse.
#[verifier::external_body]
fn raw_inverse_or_zero(a: u64) -> (r: u64)
    ensures
        is_inverse_or_zero(a as int, r as int),
{
    let x = OuterB::new(a);
    x.inverse_or_zero().value()
}

/// Relies on `Mul` of `XFieldElement`: the product modulo `x³ - x + 1`, each
/// coefficient reduced modulo the prime.
#[verifier::external_body]
fn raw_xmul(a: (u64, u64, u64), b: (u64, u64, u64)) -> (r: (u64, u64, u64))
    ensures
        (r.0 as int, r.1 as int, r.2 as int) == xmul_reduced(
            a.0 as int,
            a.1 as int,
            a.2 as int,
            b.0 as int,
            b.1 as int,
            b.2 as int,
        ),
{
    let x = OuterX::new([OuterB::new(a.0), OuterB::new(a.1), OuterB::new(a.2)]);
    let y = OuterX::new([OuterB::new(b.0), OuterB::new(b.1), OuterB::new(b.2)]);
    let [r0, r1, r2] = (x * y).coefficients;
    (r0.value(), r1.value(), r2.value())
}

/// An element of the base field, held by its canonical value.
#[derive(Debug, Clone, Copy, PartialEq, Eq, Structural)]
pub struct BFieldElement {
    pub value: u64,
}

impl BFieldElement {
    pub open spec fn wf(self) -> bool {
        self.value < P
    }

    pub open spec fn val(self) -> int {
        self.value as int
    }

    /// The element that `value` stands for, reduced modulo the prime.
    pub fn new(value: u64) -> (r: BFieldElement)
        ensures
            r.wf(),
            r.val() == value as int % modulus(),
    {
        BFieldElement { value: raw_new(value) }
    }

    pub fn zero() -> (r: BFieldElement)
        ensures
            r.wf(),
            r.val() == 0,
    {
        BFieldElement { value: 0 }
    }

    pub fn one() -> (r: BFieldElement)
        ensures
            r.wf(),
            r.val() == 1,
    {
        BFieldElement { value: 1 }
    }

    pub fn add(self, o: BFieldElement) -> (r: BFieldElement)
        ensures
            r.wf(),
            r.val() == add_mod(self.val(), o.val()),
    {
        BFieldElement { value: raw_add(self.value, o.value) }
    }

    pub fn sub(self, o: BFieldElement) -> (r: BFieldElement)
        ensures
            r.wf(),
            r.val() == sub_mod(self.val(), o.val()),
    {
        BFieldElement { value: raw_sub(self.value, o.value) }
    }

    pub fn mul(self, o: BFieldElement) -> (r: BFieldElement)
        ensures
            r.wf(),
            r.val() == mul_mod(self.val(), o.val()),
    {
        BFieldElement { value: raw_mul(self.value, o.value) }
    }

    /// The multiplicative inverse, or zero for zero.
    pub fn inverse_or_zero(self) -> (r: BFieldElement)
        ensures
            r.wf(),
            is_inverse_or_zero(self.val(), r.val()),
    {
        BFieldElement { value: raw_inverse_or_zero(self.value) }
    }

    /// The same value as an element of the extension field.
    pub fn lift(self) -> (r: XFieldElement)
        ensures
            r == XFieldElement::lift_spec(self),
    {
        XFieldElement { c0: self, c1: BFieldElement::zero(), c2: BFieldElement::zero() }
    }
}

/// An element of the cubic extension field `c0 + c1·x + c2·x²`, modulo `x³ - x + 1`.
#[derive(Debug, Clone, Copy, PartialEq, Eq, Structural)]
pub struct XFieldElement {
    pub c0: BFieldElement,
    pub c1: BFieldElement,
    pub c2: BFieldElement,
}

impl XFieldElement {
    pub open spec fn wf(self) -> bool {
        self.c0.wf() && self.c1.wf() && self.c2.wf()
    }

    pub open spec fn lift_spec(b: BFieldElement) -> XFieldElement {
        XFieldElement { c0: b, c1: BFieldElement { value: 0 }, c2: BFieldElement { value: 0 } }
    }

    pub open spec fn from_int(v: int) -> XFieldElement {
        XFieldElement::lift_spec(BFieldElement { value: (v % modulus()) as u64 })
    }

    #[verifier::opaque]
    pub open spec fn add_spec(self, o: XFieldElement) -> XFieldElement {
        XFieldElement {
            c0: BFieldElement { value: add_mod(self.c0.val(), o.c0.val()) as u64 },
            c1: BFieldElement { value: add_mod(self.c1.val(), o.c1.val()) as u64 },
            c2: BFieldElement { value: add_mod(self.c2.val(), o.c2.val()) as u64 },
        }
    }

    #[verifier::opaque]
    pub open spec fn sub_spec(self, o: XFieldElement) -> XFieldElement {
        XFieldElement {
            c0: BFieldElement { value: sub_mod(self.c0.val(), o.c0.val()) as u64 },
            c1: BFieldElement { value: sub_mod(self.c1.val(), o.c1.val()) as u64 },
            c2: BFieldElement { value: sub_mod(self.c2.val(), o.c2.val()) as u64 },
        }
    }

    #[verifier::opaque]
    pub open spec fn mul_spec(self, o: XFieldElement) -> XFieldElement {
        let (r0, r1, r2) = xmul_raw(
            self.c0.val(),
            self.c1.val(),
            self.c2.val(),
            o.c0.val(),
            o.c1.val(),
            o.c2.val(),
        );
        XFieldElement {
            c0: BFieldElement { value: (r0 % modulus()) as u64 },
            c1: BFieldElement { value: (r1 % modulus()) as u64 },
            c2: BFieldElement { value: (r2 % modulus()) as u64 },
        }
    }

    pub fn zero() -> (r: XFieldElement)
        ensures
            r == XFieldElement::from_int(0),
            r.wf(),
    {
        BFieldElement::zero().lift()
    }

    pub fn one() -> (r: XFieldElement)
        ensures
            r == XFieldElement::from_int(1),
            r.wf(),
    {
        assert(1int % modulus() == 1);
        BFieldElement::one().lift()
    }

    pub fn add(self, o: XFieldElement) -> (r: XFieldElement)
        ensures
            r == self.add_spec(o),
            r.wf(),
    {
        reveal(XFieldElement::add_spec);
        XFieldElement { c0: self.c0.add(o.c0), c1: self.c1.add(o.c1), c2: self.c2.add(o.c2) }
    }

    pub fn sub(self, o: XFieldElement) -> (r: XFieldElement)
        ensures
            r == self.sub_spec(o),
            r.wf(),
    {
        reveal(XFieldElement::sub_spec);
        XFieldElement { c0: self.c0.sub(o.c0), c1: self.c1.sub(o.c1), c2: self.c2.sub(o.c2) }
    }

    pub fn mul(self, o: XFieldElement) -> (r: XFieldElement)
        ensures
            r == self.mul_spec(o),
            r.wf(),
    {
        reveal(XFieldElement::mul_spec);
        let (r0, r1, r2) = raw_xmul(
            (self.c0.value, self.c1.value, self.c2.value),
            (o.c0.value, o.c1.value, o.c2.value),
        );
        XFieldElement {
            c0: BFieldElement { value: r0 },
            c1: BFieldElement { value: r1 },
            c2: BFieldElement { value: r2 },
        }
    }

    /// Whether the two elements are the same field element.
    pub fn equals(self, o: XFieldElement) -> (r: bool)
        ensures
            r == (self == o),
    {
        self.c0.value == o.c0.value && self.c1.value == o.c1.value && self.c2.value == o.c2.value
    }
}

/// Multiplication in the extension field is commutative.
pub proof fn lemma_mul_commutes(a: XFieldElement, b: XFieldElement)
    ensures
        a.mul_spec(b) == b.mul_spec(a),
{
    reveal(XFieldElement::mul_spec);
    let (a0, a1, a2) = (a.c0.val(), a.c1.val(), a.c2.val());
    let (b0, b1, b2) = (b.c0.val(), b.c1.val(), b.c2.val());
    assert(a0 * b0 == b0 * a0 && a1 * b1 == b1 * a1 && a2 * b2 == b2 * a2) by (nonlinear_arith);
    assert(a2 * b1 == b1 * a2 && a1 * b2 == b2 * a1 && a1 * b0 == b0 * a1) by (nonlinear_arith);
    assert(a0 * b1 == b1 * a0 && a2 * b0 == b0 * a2 && a0 * b2 == b2 * a0) by (nonlinear_arith);
}

/// One is neutral for multiplication.
pub proof fn lemma_mul_one_left(a: XFieldElement)
    requires
        a.wf(),
    ensures
        XFieldElement::from_int(1).mul_spec(a) == a,
{
    reveal(XFieldElement::mul_spec);
    assert(1int % modulus() == 1);
    let (b0, b1, b2) = (a.c0.val(), a.c1.val(), a.c2.val());
    assert(1 * b0 - 0 * b1 - 0 * b2 == b0 && 0 * b0 + 1 * b1 - 0 * b2 + 0 * b1 + 0 * b2 == b1 && 0
        * b0 + 0 * b1 + 1 * b2 + 0 * b2 == b2) by (nonlinear_arith);
}

/// Zero times anything is zero.
pub proof fn lemma_mul_zero_left(a: XFieldElement)
    ensures
        XFieldElement::from_int(0).mul_spec(a) == XFieldElement::from_int(0),
{
    reveal(XFieldElement::mul_spec);
    let (b0, b1, b2) = (a.c0.val(), a.c1.val(), a.c2.val());
    assert(0 * b0 - 0 * b1 - 0 * b2 == 0 && 0 * b0 + 0 * b1 - 0 * b2 + 0 * b1 + 0 * b2 == 0 && 0
        * b0 + 0 * b1 + 0 * b2 + 0 * b2 == 0) by (nonlinear_arith);
}

/// Zero is neutral for addition, on either side.
pub proof fn lemma_add_zero(a: XFieldElement)
    requires
        a.wf(),
    ensures
        XFieldElement::from_int(0).add_spec(a) == a,
        a.add_spec(XFieldElement::from_int(0)) == a,
{
    reveal(XFieldElement::add_spec);
}

/// An element minus itself is zero.
pub proof fn lemma_sub_self(a: XFieldElement)
    ensures
        a.sub_spec(a) == XFieldElement::from_int(0),
{
    reveal(XFieldElement::sub_spec);
}

/// Sums, differences and products are field elements.
pub proof fn lemma_ops_wf(a: XFieldElement, b: XFieldElement)
    ensures
        a.add_spec(b).wf(),
        a.sub_spec(b).wf(),
        a.mul_spec(b).wf(),
{
    reveal(XFieldElement::add_spec);
    reveal(XFieldElement::sub_spec);
    reveal(XFieldElement::mul_spec);
}

/// Products of lifted elements are lifted products.
pub proof fn lemma_lift_mul(a: BFieldElement, b: BFieldElement)
    ensures
        XFieldElement::lift_spec(a).mul_spec(XFieldElement::lift_spec(b)) == XFieldElement::lift_spec(
            BFieldElement { value: mul_mod(a.val(), b.val()) as u64 },
        ),
{
    reveal(XFieldElement::mul_spec);
    let (x, y) = (a.val(), b.val());
    assert(x * y - 0 * 0 - 0 * 0 == x * y && 0 * y + x * 0 - 0 * 0 + 0 * 0 + 0 * 0 == 0 && 0 * y
        + 0 * 0 + x * 0 + 0 * 0 == 0) by (nonlinear_arith);
}

/// Differences of lifted elements are lifted differences.
pub proof fn lemma_lift_sub(a: BFieldElement, b: BFieldElement)
    ensures
        XFieldElement::lift_spec(a).sub_spec(XFieldElement::lift_spec(b)) == XFieldElement::lift_spec(
            BFieldElement { value: sub_mod(a.val(), b.val()) as u64 },
        ),
{
    reveal(XFieldElement::sub_spec);
}

/// Subtracting zero changes nothing.
pub proof fn lemma_sub_zero(a: XFieldElement)
    requires
        a.wf(),
    ensures
        a.sub_spec(XFieldElement::from_int(0)) == a,
{
    reveal(XFieldElement::sub_spec);
}

/// `(c - a) + b == c - (a - b)` for lifted `a` and `b`.
pub proof fn lemma_sub_add_lift(c: XFieldElement, a: BFieldElement, b: BFieldElement)
    requires
        c.wf(),
        a.wf(),
        b.wf(),
    ensures
        c.sub_spec(XFieldElement::lift_spec(a)).add_spec(XFieldElement::lift_spec(b))
            == c.sub_spec(
            XFieldElement::lift_spec(BFieldElement { value: sub_mod(a.val(), b.val()) as u64 }),
        ),
{
    reveal(XFieldElement::sub_spec);
    reveal(XFieldElement::add_spec);
    let m = modulus();
    vstd::arithmetic::div_mod::lemma_add_mod_noop(c.c0.val() - a.val(), b.val(), m);
    vstd::arithmetic::div_mod::lemma_sub_mod_noop(c.c0.val(), a.val() - b.val(), m);
    vstd::arithmetic::div_mod::lemma_small_mod(b.val() as nat, m as nat);
    vstd::arithmetic::div_mod::lemma_small_mod(c.c0.val() as nat, m as nat);
    vstd::arithmetic::div_mod::lemma_small_mod(c.c1.val() as nat, m as nat);
    vstd::arithmetic::div_mod::lemma_small_mod(c.c2.val() as nat, m as nat);
    assert(c.c0.val() - a.val() + b.val() == c.c0.val() - (a.val() - b.val()));
}

proof fn lemma_split_product(m: int, q: int, r: int, b: int)
    ensures
        (m * q + r) * b == r * b + m * (q * b),
{
    assert((m * q + r) * b == r * b + m * (q * b)) by (nonlinear_arith);
}

/// Reducing the left factor's coefficients first does not change the
/// reduced product.
proof fn lemma_xmul_reduce_left(a0: int, a1: int, a2: int, b0: int, b1: int, b2: int)
    ensures
        xmul_reduced(
            a0 % modulus(),
            a1 % modulus(),
            a2 % modulus(),
            b0,
            b1,
            b2,
        ) == xmul_reduced(a0, a1, a2, b0, b1, b2),
{
    let m = modulus();
    vstd::arithmetic::div_mod::lemma_fundamental_div_mod(a0, m);
    vstd::arithmetic::div_mod::lemma_fundamental_div_mod(a1, m);
    vstd::arithmetic::div_mod::lemma_fundamental_div_mod(a2, m);
    let (q0, q1, q2) = (a0 / m, a1 / m, a2 / m);
    let (r0, r1, r2) = (a0 % m, a1 % m, a2 % m);
    let (x0, x1, x2) = xmul_raw(r0, r1, r2, b0, b1, b2);
    let (k0, k1, k2) = xmul_raw(q0, q1, q2, b0, b1, b2);
    lemma_split_product(m, q0, r0, b0);
    lemma_split_product(m, q0, r0, b1);
    lemma_split_product(m, q0, r0, b2);
    lemma_split_product(m, q1, r1, b0);
    lemma_split_product(m, q1, r1, b1);
    lemma_split_product(m, q1, r1, b2);
    lemma_split_product(m, q2, r2, b0);
    lemma_split_product(m, q2, r2, b1);
    lemma_split_product(m, q2, r2, b2);
    vstd::arithmetic::div_mod::lemma_mod_multiples_vanish(k0, x0, m);
    vstd::arithmetic::div_mod::lemma_mod_multiples_vanish(k1, x1, m);
    vstd::arithmetic::div_mod::lemma_mod_multiples_vanish(k2, x2, m);
}

proof fn lemma_xmul_raw_associates(
    a0: int,
    a1: int,
    a2: int,
    b0: int,
    b1: int,
    b2: int,
    c0: int,
    c1: int,
    c2: int,
)
    ensures
        ({
            let (u0, u1, u2) = xmul_raw(a0, a1, a2, b0, b1, b2);
            let (v0, v1, v2) = xmul_raw(b0, b1, b2, c0, c1, c2);
            xmul_raw(u0, u1, u2, c0, c1, c2) == xmul_raw(a0, a1, a2, v0, v1, v2)
        }),
{
    let (u0, u1, u2) = xmul_raw(a0, a1, a2, b0, b1, b2);
    let (v0, v1, v2) = xmul_raw(b0, b1, b2, c0, c1, c2);
    vstd::arithmetic::mul::lemma_mul_is_associative(a0, b0, c0);
    vstd::arithmetic::mul::lemma_mul_is_associative(a0, b0, c1);
    vstd::arithmetic::mul::lemma_mul_is_associative(a0, b0, c2);
    vstd::arithmetic::mul::lemma_mul_is_associative(a0, b1, c0);
    vstd::arithmetic::mul::lemma_mul_is_associative(a0, b1, c1);
    vstd::arithmetic::mul::lemma_mul_is_associative(a0, b1, c2);
    vstd::arithmetic::mul::lemma_mul_is_associative(a0, b2, c0);
    vstd::arithmetic::mul::lemma_mul_is_associative(a0, b2, c1);
    vstd::arithmetic::mul::lemma_mul_is_associative(a0, b2, c2);
    vstd::arithmetic::mul::lemma_mul_is_associative(a1, b0, c0);
    vstd::arithmetic::mul::lemma_mul_is_associative(a1, b0, c1);
    vstd::arithmetic::mul::lemma_mul_is_associative(a1, b0, c2);
    vstd::arithmetic::mul::lemma_mul_is_associative(a1, b1, c0);
    vstd::arithmetic::mul::lemma_mul_is_associative(a1, b1, c1);
    vstd::arithmetic::mul::lemma_mul_is_associative(a1, b1, c2);
    vstd::arithmetic::mul::lemma_mul_is_associative(a1, b2, c0);
    vstd::arithmetic::mul::lemma_mul_is_associative(a1, b2, c1);
    vstd::arithmetic::mul::lemma_mul_is_associative(a1, b2, c2);
    vstd::arithmetic::mul::lemma_mul_is_associative(a2, b0, c0);
    vstd::arithmetic::mul::lemma_mul_is_associative(a2, b0, c1);
    vstd::arithmetic::mul::lemma_mul_is_associative(a2, b0, c2);
    vstd::arithmetic::mul::lemma_mul_is_associative(a2, b1, c0);
    vstd::arithmetic::mul::lemma_mul_is_associative(a2, b1, c1);
    vstd::arithmetic::mul::lemma_mul_is_associative(a2, b1, c2);
    vstd::arithmetic::mul::lemma_mul_is_associative(a2, b2, c0);
    vstd::arithmetic::mul::lemma_mul_is_associative(a2, b2, c1);
    vstd::arithmetic::mul::lemma_mul_is_associative(a2, b2, c2);
    assert(u0 * c0 == a0 * b0 * c0 - a1 * b2 * c0 - a2 * b1 * c0) by (nonlinear_arith)
        requires
            u0 == a0 * b0 - a2 * b1 - a1 * b2,
    ;
    assert(u0 * c1 == a0 * b0 * c1 - a1 * b2 * c1 - a2 * b1 * c1) by (nonlinear_arith)
        requires
            u0 == a0 * b0 - a2 * b1 - a1 * b2,
    ;
    assert(u0 * c2 == a0 * b0 * c2 - a1 * b2 * c2 - a2 * b1 * c2) by (nonlinear_arith)
        requires
            u0 == a0 * b0 - a2 * b1 - a1 * b2,
    ;
    assert(u1 * c0 == a0 * b1 * c0 + a1 * b0 * c0 + a1 * b2 * c0 + a2 * b1 * c0 - a2 * b2 * c0) by (nonlinear_arith)
        requires
            u1 == a1 * b0 + a0 * b1 - a2 * b2 + a2 * b1 + a1 * b2,
    ;
    assert(u1 * c1 == a0 * b1 * c1 + a1 * b0 * c1 + a1 * b2 * c1 + a2 * b1 * c1 - a2 * b2 * c1) by (nonlinear_arith)
        requires
            u1 == a1 * b0 + a0 * b1 - a2 * b2 + a2 * b1 + a1 * b2,
    ;
    assert(u1 * c2 == a0 * b1 * c2 + a1 * b0 * c2 + a1 * b2 * c2 + a2 * b1 * c2 - a2 * b2 * c2) by (nonlinear_arith)
        requires
            u1 == a1 * b0 + a0 * b1 - a2 * b2 + a2 * b1 + a1 * b2,
    ;
    assert(u2 * c0 == a0 * b2 * c0 + a1 * b1 * c0 + a2 * b0 * c0 + a2 * b2 * c0) by (nonlinear_arith)
        requires
            u2 == a2 * b0 + a1 * b1 + a0 * b2 + a2 * b2,
    ;
    assert(u2 * c1 == a0 * b2 * c1 + a1 * b1 * c1 + a2 * b0 * c1 + a2 * b2 * c1) by (nonlinear_arith)
        requires
            u2 == a2 * b0 + a1 * b1 + a0 * b2 + a2 * b2,
    ;
    assert(u2 * c2 == a0 * b2 * c2 + a1 * b1 * c2 + a2 * b0 * c2 + a2 * b2 * c2) by (nonlinear_arith)
        requires
            u2 == a2 * b0 + a1 * b1 + a0 * b2 + a2 * b2,
    ;
    assert(a0 * v0 == a0 * (b0 * c0) - a0 * (b1 * c2) - a0 * (b2 * c1)) by (nonlinear_arith)
        requires
            v0 == b0 * c0 - b2 * c1 - b1 * c2,
    ;
    assert(a0 * v1 == a0 * (b0 * c1) + a0 * (b1 * c0) + a0 * (b1 * c2) + a0 * (b2 * c1) - a0 * (b2 * c2)) by (nonlinear_arith)
        requires
            v1 == b1 * c0 + b0 * c1 - b2 * c2 + b2 * c1 + b1 * c2,
    ;
    assert(a0 * v2 == a0 * (b0 * c2) + a0 * (b1 * c1) + a0 * (b2 * c0) + a0 * (b2 * c2)) by (nonlinear_arith)
        requires
            v2 == b2 * c0 + b1 * c1 + b0 * c2 + b2 * c2,
    ;
    assert(a1 * v0 == a1 * (b0 * c0) - a1 * (b1 * c2) - a1 * (b2 * c1)) by (nonlinear_arith)
        requires
            v0 == b0 * c0 - b2 * c1 - b1 * c2,
    ;
    assert(a1 * v1 == a1 * (b0 * c1) + a1 * (b1 * c0) + a1 * (b1 * c2) + a1 * (b2 * c1) - a1 * (b2 * c2)) by (nonlinear_arith)
        requires
            v1 == b1 * c0 + b0 * c1 - b2 * c2 + b2 * c1 + b1 * c2,
    ;
    assert(a1 * v2 == a1 * (b0 * c2) + a1 * (b1 * c1) + a1 * (b2 * c0) + a1 * (b2 * c2)) by (nonlinear_arith)
        requires
            v2 == b2 * c0 + b1 * c1 + b0 * c2 + b2 * c2,
    ;
    assert(a2 * v0 == a2 * (b0 * c0) - a2 * (b1 * c2) - a2 * (b2 * c1)) by (nonlinear_arith)
        requires
            v0 == b0 * c0 - b2 * c1 - b1 * c2,
    ;
    assert(a2 * v1 == a2 * (b0 * c1) + a2 * (b1 * c0) + a2 * (b1 * c2) + a2 * (b2 * c1) - a2 * (b2 * c2)) by (nonlinear_arith)
        requires
            v1 == b1 * c0 + b0 * c1 - b2 * c2 + b2 * c1 + b1 * c2,
    ;
    assert(a2 * v2 == a2 * (b0 * c2) + a2 * (b1 * c1) + a2 * (b2 * c0) + a2 * (b2 * c2)) by (nonlinear_arith)
        requires
            v2 == b2 * c0 + b1 * c1 + b0 * c2 + b2 * c2,
    ;
}

proof fn lemma_xmul_reduced_commutes(a0: int, a1: int, a2: int, b0: int, b1: int, b2: int)
    ensures
        xmul_reduced(a0, a1, a2, b0, b1, b2) == xmul_reduced(b0, b1, b2, a0, a1, a2),
{
    assert(a0 * b0 == b0 * a0 && a1 * b1 == b1 * a1 && a2 * b2 == b2 * a2) by (nonlinear_arith);
    assert(a2 * b1 == b1 * a2 && a1 * b2 == b2 * a1 && a1 * b0 == b0 * a1) by (nonlinear_arith);
    assert(a0 * b1 == b1 * a0 && a2 * b0 == b0 * a2 && a0 * b2 == b2 * a0) by (nonlinear_arith);
}

/// Multiplication in the extension field is associative.
pub proof fn lemma_mul_associates(a: XFieldElement, b: XFieldElement, c: XFieldElement)
    ensures
        a.mul_spec(b).mul_spec(c) == a.mul_spec(b.mul_spec(c)),
{
    reveal(XFieldElement::mul_spec);
    let m = modulus();
    let (a0, a1, a2) = (a.c0.val(), a.c1.val(), a.c2.val());
    let (b0, b1, b2) = (b.c0.val(), b.c1.val(), b.c2.val());
    let (c0, c1, c2) = (c.c0.val(), c.c1.val(), c.c2.val());
    let (u0, u1, u2) = xmul_raw(a0, a1, a2, b0, b1, b2);
    let (v0, v1, v2) = xmul_raw(b0, b1, b2, c0, c1, c2);
    let ab = a.mul_spec(b);
    let bc = b.mul_spec(c);
    assert(ab.c0.val() == u0 % m && ab.c1.val() == u1 % m && ab.c2.val() == u2 % m);
    assert(bc.c0.val() == v0 % m && bc.c1.val() == v1 % m && bc.c2.val() == v2 % m);
    lemma_xmul_reduce_left(u0, u1, u2, c0, c1, c2);
    lemma_xmul_reduced_commutes(a0, a1, a2, v0 % m, v1 % m, v2 % m);
    lemma_xmul_reduce_left(v0, v1, v2, a0, a1, a2);
    lemma_xmul_reduced_commutes(v0, v1, v2, a0, a1, a2);
    lemma_xmul_raw_associates(a0, a1, a2, b0, b1, b2, c0, c1, c2);
    assert(xmul_reduced(ab.c0.val(), ab.c1.val(), ab.c2.val(), c0, c1, c2) == xmul_reduced(
        a0,
        a1,
        a2,
        bc.c0.val(),
        bc.c1.val(),
        bc.c2.val(),
    ));
}

} // verus!
