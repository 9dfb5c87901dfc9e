//! The prime field of order `2^31 - 1`.
//!
//! Field elements are modelled as integers in `[0, P)`. The arithmetic itself is
//! done by the `stwo` crate; this module states what each operation computes and
//! proves the algebra that the rest of the library relies on: every non-zero
//! element has exactly one multiplicative inverse, and the field has no zero
//! divisors.
use vstd::arithmetic::div_mod::*;
use vstd::arithmetic::mul::*;
use vstd::prelude::*;

verus! {

/// The prime modulus of the field, `2^31 - 1`.
pub const P: u32 = 2147483647;

/// Whether `x` is the canonical representative of a field element.
pub open spec fn canonical(x: int) -> bool {
    0 <= x < P
}

/// Sum of two field elements.
pub open spec fn field_add(a: int, b: int) -> int {
    (a + b) % (P as int)
}

/// Difference of two field elements.
pub open spec fn field_sub(a: int, b: int) -> int {
    (a - b) % (P as int)
}

/// Product of two field elements.
pub open spec fn field_mul(a: int, b: int) -> int {
    (a * b) % (P as int)
}

/// Whether `i` is the canonical multiplicative inverse of `b`.
pub open spec fn is_inverse(b: int, i: int) -> bool {
    canonical(i) && (i * b) % (P as int) == 1
}

/// The multiplicative inverse of `b`. It is meaningful when `b` is not a
/// multiple of `P`; see [`lemma_inverse_exists`].
pub open spec fn field_inv(b: int) -> int {
    choose|i: int| is_inverse(b, i)
}

/// Quotient of two field elements: `a` times the inverse of `b`.
pub open spec fn field_div(a: int, b: int) -> int {
    field_mul(a, field_inv(b))
}

/// No product of a 16-bit number greater than one and a 32-bit number is `P`.
#[verifier::rlimit(100)]
proof fn lemma_no_small_factor(d: u16, q: u32)
    by (bit_vector)
    requires
        1 < d,
    ensures
        (d as u64) * (q as u64) != 2147483647u64,
{
}

/// `P` is prime: no number strictly between 1 and `P` divides it.
pub proof fn lemma_modulus_is_prime(d: int)
    requires
        1 < d < P,
    ensures
        (P as int) % d != 0,
{
    if (P as int) % d == 0 {
        let q = (P as int) / d;
        lemma_fundamental_div_mod(P as int, d);
        assert(d * q == P);
        assert(1 < q && q < P) by (nonlinear_arith)
            requires
                d * q == 2147483647,
                1 < d < 2147483647,
        ;
        if d <= 65535 {
            lemma_no_small_factor(d as u16, q as u32);
        } else {
            assert(q <= 65535) by (nonlinear_arith)
                requires
                    d * q == 2147483647,
                    d > 65535,
                    q > 0,
            ;
            assert(q * d == d * q) by (nonlinear_arith);
            lemma_no_small_factor(q as u16, d as u32);
        }
    }
}

/// Bézout's identity. For `a > 0` and `b >= 0` the result `(g, x, y)` is a
/// positive common divisor `g` of `a` and `b` with `a * x + b * y == g`.
proof fn lemma_bezout(a: int, b: int) -> (r: (int, int, int))
    requires
        a > 0,
        b >= 0,
    ensures
        r.0 > 0,
        a % r.0 == 0,
        b % r.0 == 0,
        a * r.1 + b * r.2 == r.0,
    decreases b,
{
    if b == 0 {
        lemma_mod_self_0(a);
        (a, 1, 0)
    } else {
        let m = a % b;
        let q = a / b;
        lemma_fundamental_div_mod(a, b);
        let (g, x, y) = lemma_bezout(b, m);
        assert(a * y + b * (x - q * y) == g) by (nonlinear_arith)
            requires
                a == b * q + m,
                b * x + m * y == g,
        ;
        assert(a % g == 0) by {
            lemma_fundamental_div_mod(b, g);
            lemma_fundamental_div_mod(m, g);
            let kb = b / g;
            let km = m / g;
            assert(a == (kb * q + km) * g) by (nonlinear_arith)
                requires
                    a == b * q + m,
                    b == g * kb,
                    m == g * km,
            ;
            lemma_mod_multiples_basic(kb * q + km, g);
        }
        (g, y, x - q * y)
    }
}

/// An element has at most one inverse.
pub proof fn lemma_inverse_unique(b: int, i: int, j: int)
    requires
        is_inverse(b, i),
        is_inverse(b, j),
    ensures
        i == j,
{
    let p = P as int;
    // i == i * (b * j) == (i * b) * j == j, all modulo P.
    assert((i * (b * j)) % p == i) by {
        assert(b * j == j * b) by (nonlinear_arith);
        lemma_mul_mod_noop_right(i, b * j, p);
        assert(i * 1 == i);
    }
    assert(((i * b) * j) % p == j) by {
        lemma_mul_mod_noop_left(i * b, j, p);
        assert(1 * j == j);
    }
    assert(i * (b * j) == (i * b) * j) by (nonlinear_arith);
}

/// Every element that is not a multiple of `P` has exactly one inverse, and
/// [`field_inv`] is that inverse.
pub proof fn lemma_inverse_exists(b: int)
    requires
        b % (P as int) != 0,
    ensures
        is_inverse(b, field_inv(b)),
        forall|i: int| is_inverse(b, i) ==> i == field_inv(b),
{
    let p = P as int;
    let r = b % p;
    let (g, x, y) = lemma_bezout(p, r);
    assert(g <= r) by {
        if g > r {
            lemma_small_mod(r as nat, g as nat);
        }
    }
    if g > 1 {
        lemma_modulus_is_prime(g);
    }
    assert(g == 1);
    let i = y % p;
    assert((i * b) % p == 1) by {
        lemma_mul_mod_noop_general(y, b, p);
        assert((i * r) % p == (y * b) % p);
        assert((i * b) % p == (y * b) % p);
        assert((y * r) % p == (y * b) % p);
        assert(r * y == 1 - p * x);
        assert(y * r == r * y) by (nonlinear_arith);
        assert(p * x == x * p) by (nonlinear_arith);
        lemma_mod_multiples_vanish(-x, 1, p);
    }
    assert(is_inverse(b, i));
    assert forall|j: int| is_inverse(b, j) implies j == field_inv(b) by {
        lemma_inverse_unique(b, j, field_inv(b));
    }
}

/// The field has no zero divisors: a product is a multiple of `P` only if one
/// of its factors is.
pub proof fn lemma_no_zero_divisors(x: int, y: int)
    requires
        (x * y) % (P as int) == 0,
    ensures
        x % (P as int) == 0 || y % (P as int) == 0,
{
    let p = P as int;
    if y % p != 0 {
        lemma_inverse_exists(y);
        let i = field_inv(y);
        // x == x * (y * i) == (x * y) * i == 0, all modulo P.
        assert((x * (y * i)) % p == x % p) by {
            assert(y * i == i * y) by (nonlinear_arith);
            lemma_mul_mod_noop_right(x, y * i, p);
            assert(x * 1 == x);
        }
        assert(((x * y) * i) % p == 0) by {
            lemma_mul_mod_noop_left(x * y, i, p);
            assert(0 * i == 0);
        }
        assert(x * (y * i) == (x * y) * i) by (nonlinear_arith);
    }
}

/// Division undoes multiplication: for a non-zero divisor `b`, the quotient
/// `field_div(a, b)` is the one canonical `q` with `q * b == a` in the field.
pub proof fn lemma_div_is_quotient(a: int, b: int, q: int)
    requires
        canonical(a),
        canonical(q),
        b % (P as int) != 0,
    ensures
        field_mul(q, b) == a <==> q == field_div(a, b),
        canonical(field_div(a, b)),
{
    let p = P as int;
    lemma_inverse_exists(b);
    let i = field_inv(b);
    let d = field_div(a, b);
    // d * b == a in the field.
    assert(field_mul(d, b) == a) by {
        lemma_mul_mod_noop_left(a * i, b, p);
        assert((a * i) * b == a * (i * b)) by (nonlinear_arith);
        lemma_mul_mod_noop_right(a, i * b, p);
        assert(a * 1 == a);
    }
    if field_mul(q, b) == a {
        // (q - d) * b is a multiple of P, and b is not.
        assert(((q - d) * b) % p == 0) by {
            assert((q - d) * b == q * b - d * b) by (nonlinear_arith);
            lemma_sub_mod_noop(q * b, d * b, p);
        }
        lemma_no_zero_divisors(q - d, b);
    }
}

/// A difference is zero only if its two terms are equal.
pub proof fn lemma_sub_is_zero(x: int, y: int)
    requires
        canonical(x),
        canonical(y),
    ensures
        field_sub(x, y) == 0 <==> x == y,
{
}

/// A sum with a given term determines the other term.
pub proof fn lemma_add_cancels(a: int, x: int, y: int)
    requires
        canonical(x),
        canonical(y),
    ensures
        field_add(a, x) == field_add(a, y) <==> x == y,
        field_add(x, a) == field_add(y, a) <==> x == y,
{
}

/// A difference with a given term determines the other term.
pub proof fn lemma_sub_cancels(a: int, x: int, y: int)
    requires
        canonical(x),
        canonical(y),
    ensures
        field_sub(a, x) == field_sub(a, y) <==> x == y,
        field_sub(x, a) == field_sub(y, a) <==> x == y,
{
}

/// A product with a non-zero factor determines the other factor:
/// `a * x == a * y` in the field only if `a` is zero or `x == y`.
pub proof fn lemma_mul_cancels(a: int, x: int, y: int)
    requires
        canonical(a),
        canonical(x),
        canonical(y),
    ensures
        field_mul(a, x) == field_mul(a, y) <==> (a == 0 || x == y),
        field_mul(x, a) == field_mul(y, a) <==> (a == 0 || x == y),
{
    let p = P as int;
    assert(x * a == a * x && y * a == a * y) by (nonlinear_arith);
    if a == 0 {
        assert(a * x == 0 && a * y == 0) by (nonlinear_arith)
            requires
                a == 0,
        ;
    } else if field_mul(a, x) == field_mul(a, y) {
        assert((a * (x - y)) % p == 0) by {
            assert(a * (x - y) == a * x - a * y) by (nonlinear_arith);
            lemma_sub_mod_noop(a * x, a * y, p);
        }
        lemma_no_zero_divisors(a, x - y);
    }
}

/// An element of the field, held as its canonical representative.
#[derive(Clone, Copy, Debug, PartialEq, Eq)]
pub struct Felt {
    value: u32,
}

impl View for Felt {
    type V = int;

    /// The canonical representative of the element.
    closed spec fn view(&self) -> int {
        self.value as int % (P as int)
    }
}

impl Felt {
    #[verifier::type_invariant]
    spec fn is_reduced(self) -> bool {
        self.value < P
    }

    /// The value of an element is canonical.
    pub proof fn lemma_canonical(self)
        ensures
            canonical(self@),
    {
    }

    /// The element `val mod P`.
    pub fn new(val: u32) -> (r: Felt)
        ensures
            r@ == val % P,
    {
        Felt { value: m31_from_u32(val) }
    }

    /// The additive identity.
    pub fn zero() -> (r: Felt)
        ensures
            r@ == 0,
    {
        Felt { value: 0 }
    }

    /// The canonical representative, in `[0, P)`.
    pub fn value(&self) -> (r: u32)
        ensures
            r == self@,
            canonical(self@),
    {
        proof {
            use_type_invariant(self);
        }
        self.value
    }

    /// Whether this is the additive identity.
    pub fn is_zero(&self) -> (r: bool)
        ensures
            r == (self@ == 0),
    {
        proof {
            use_type_invariant(self);
        }
        self.value == 0
    }

    /// Field addition.
    pub fn add(self, rhs: Felt) -> (r: Felt)
        ensures
            r@ == field_add(self@, rhs@),
    {
        proof {
            use_type_invariant(self);
            use_type_invariant(rhs);
        }
        Felt { value: m31_add(self.value, rhs.value) }
    }

    /// Field subtraction.
    pub fn sub(self, rhs: Felt) -> (r: Felt)
        ensures
            r@ == field_sub(self@, rhs@),
    {
        proof {
            use_type_invariant(self);
            use_type_invariant(rhs);
        }
        Felt { value: m31_sub(self.value, rhs.value) }
    }

    /// Field multiplication.
    pub fn mul(self, rhs: Felt) -> (r: Felt)
        ensures
            r@ == field_mul(self@, rhs@),
    {
        proof {
            use_type_invariant(self);
            use_type_invariant(rhs);
        }
        Felt { value: m31_mul(self.value, rhs.value) }
    }

    /// Field division by a non-zero element.
    pub fn div(self, rhs: Felt) -> (r: Felt)
        requires
            rhs@ != 0,
        ensures
            r@ == field_div(self@, rhs@),
    {
        proof {
            use_type_invariant(self);
            use_type_invariant(rhs);
        }
        Felt { value: m31_div(self.value, rhs.value) }
    }
}

/// `M31::from(u32)`: reduces `val` modulo `P`. The conversion goes through
/// `M31::reduce`, which returns `val % P` for every `val` below `P^2`.
#[verifier::external_body]
fn m31_from_u32(val: u32) -> (r: u32)
    ensures
        r == val % P,
{
    stwo::core::fields::m31::M31::from(val).0
}

/// `M31 + M31`: the sum of two canonical elements, reduced by one conditional
/// subtraction of `P`.
#[verifier::external_body]
fn m31_add(a: u32, b: u32) -> (r: u32)
    requires
        a < P,
        b < P,
    ensures
        r == field_add(a as int, b as int),
{
    let a = stwo::core::fields::m31::M31::from_u32_unchecked(a);
    let b = stwo::core::fields::m31::M31::from_u32_unchecked(b);
    (a + b).0
}

/// `M31 - M31`: computes `a + P - b` and reduces it by one conditional
/// subtraction of `P`.
#[verifier::external_body]
fn m31_sub(a: u32, b: u32) -> (r: u32)
    requires
        a < P,
        b < P,
    ensures
        r == field_sub(a as int, b as int),
{
    let a = stwo::core::fields::m31::M31::from_u32_unchecked(a);
    let b = stwo::core::fields::m31::M31::from_u32_unchecked(b);
    (a - b).0
}

/// `M31 * M31`: the 64-bit product of two canonical elements, reduced modulo
/// `P`.
#[verifier::external_body]
fn m31_mul(a: u32, b: u32) -> (r: u32)
    requires
        a < P,
        b < P,
    ensures
        r == field_mul(a as int, b as int),
{
    let a = stwo::core::fields::m31::M31::from_u32_unchecked(a);
    let b = stwo::core::fields::m31::M31::from_u32_unchecked(b);
    (a * b).0
}

/// `M31 / M31`: the product of `a` and `b.inverse()`. The inverse panics when
/// `b` is zero; otherwise it is the element whose product with `b` is one.
#[verifier::external_body]
fn m31_div(a: u32, b: u32) -> (r: u32)
    requires
        a < P,
        0 < b < P,
    ensures
        r == field_mul(a as int, field_inv(b as int)),
{
    let a = stwo::core::fields::m31::M31::from_u32_unchecked(a);
    let b = stwo::core::fields::m31::M31::from_u32_unchecked(b);
    (a / b).0
}

} // verus!
