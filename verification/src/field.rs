//! Arithmetic in the prime field Z/pZ: each element carries its modulus, and
//! every operation requires matching moduli and returns a reduced value.

use vstd::prelude::*;
use vstd::arithmetic::div_mod::{lemma_mod_bound, lemma_mul_mod_noop_general};

verus! {

/// An element of the field of integers modulo `modulus`, held in reduced form.
#[derive(Clone, Copy, PartialEq, Eq, Structural, Debug)]
pub struct FieldElement {
    pub value: u64,
    pub modulus: u64,
}

/// `base^exp` reduced modulo `m`, the mathematical reference for `pow`.
pub open spec fn pow_mod(base: int, exp: nat, m: int) -> int
    decreases exp,
{
    if m <= 0 {
        0
    } else if exp == 0 {
        1int % m
    } else {
        (base * pow_mod(base, (exp - 1) as nat, m)) % m
    }
}

/// Every `pow_mod` value is a reduced residue.
pub proof fn lemma_pow_mod_bound(base: int, exp: nat, m: int)
    requires
        m > 0,
    ensures
        0 <= pow_mod(base, exp, m) < m,
{
    if exp == 0 {
        lemma_mod_bound(1, m);
    } else {
        lemma_mod_bound(base * pow_mod(base, (exp - 1) as nat, m), m);
    }
}

/// Squaring the (reduced) base halves the exponent: the step that justifies
/// binary exponentiation.
pub proof fn lemma_pow_mod_square(base: int, exp: nat, m: int)
    requires
        m > 0,
    ensures
        pow_mod((base * base) % m, exp, m) == pow_mod(base, 2 * exp, m),
    decreases exp,
{
    if exp == 0 {
    } else {
        let e1 = (exp - 1) as nat;
        lemma_pow_mod_square(base, e1, m);
        let sq = (base * base) % m;
        // pow_mod(sq, exp, m) == (sq * pow_mod(sq, e1, m)) % m == (sq * pow_mod(base, 2*e1, m)) % m
        let p2 = pow_mod(base, 2 * e1, m);
        assert(pow_mod(sq, exp, m) == (sq * p2) % m);
        lemma_mul_mod_noop_general(base * base, p2, m);
        assert((sq * p2) % m == ((base * base) * p2) % m);
        // unfold pow_mod(base, 2*exp, m) twice
        assert(pow_mod(base, 2 * exp, m) == (base * pow_mod(base, (2 * exp - 1) as nat, m)) % m);
        assert((2 * exp - 1) as nat == 2 * e1 + 1);
        assert(pow_mod(base, (2 * e1 + 1) as nat, m) == (base * p2) % m);
        lemma_mul_mod_noop_general(base, base * p2, m);
        assert((base * ((base * p2) % m)) % m == (base * (base * p2)) % m);
        assert(base * (base * p2) == (base * base) * p2) by (nonlinear_arith);
        assert(pow_mod(base, 2 * exp, m) == ((base * base) * p2) % m);
    }
}

/// An inner reduction under a product-plus-constant can be dropped: the
/// workhorse for rearranging Horner values modulo `m`.
pub proof fn lemma_mod_mul_add(a: int, b: int, c: int, m: int)
    requires
        m > 0,
    ensures
        ((a % m) * b + c) % m == (a * b + c) % m,
{
    lemma_mul_mod_noop_general(a, b, m);
    vstd::arithmetic::div_mod::lemma_add_mod_noop((a % m) * b, c, m);
    vstd::arithmetic::div_mod::lemma_add_mod_noop(a * b, c, m);
}

/// Raising anything to the power zero gives the multiplicative unit.
pub proof fn lemma_pow_zero_is_one(base: int, m: int)
    requires
        m >= 2,
    ensures
        pow_mod(base, 0, m) == 1,
{
    assert(1int % m == 1) by {
        vstd::arithmetic::div_mod::lemma_small_mod(1nat, m as nat);
    }
}

/// Fermat inversion holds throughout the field: every nonzero element times
/// its `m - 2` power is the unit. True of every prime modulus by Fermat's
/// little theorem; stated as a hypothesis of the inverse law and of the
/// completeness results rather than derived from primality.
pub open spec fn fermat_inverses(m: int) -> bool {
    forall|x: int| 0 < x < m ==> (x * #[trigger] pow_mod(x, (m - 2) as nat, m)) % m == 1
}

/// The multiplicative-inverse law, granted Fermat inversion: for nonzero
/// `a`, the value `inverse` returns times `a.value` reduces to the unit.
pub proof fn lemma_inverse_law(a: FieldElement)
    requires
        a.wf(),
        a.value != 0,
        fermat_inverses(a.modulus as int),
    ensures
        (pow_mod(a.value as int, (a.modulus - 2) as nat, a.modulus as int) * a.value) % (
        a.modulus as int) == 1,
{
    let m = a.modulus as int;
    assert((a.value * pow_mod(a.value as int, (m - 2) as nat, m)) % m == 1);
    assert(pow_mod(a.value as int, (m - 2) as nat, m) * a.value == a.value * pow_mod(
        a.value as int,
        (m - 2) as nat,
        m,
    )) by (nonlinear_arith);
}

impl FieldElement {
    /// A value/modulus pair is well formed when the modulus can carry a field
    /// and the value is reduced.
    pub open spec fn wf(self) -> bool {
        self.modulus >= 2 && self.value < self.modulus
    }

    /// The additive identity of the field.
    pub fn zero(modulus: u64) -> (r: Self)
        requires
            modulus >= 2,
        ensures
            r.wf(),
            r.modulus == modulus,
            r.value == 0,
    {
        Self { value: 0, modulus }
    }

    /// The multiplicative identity of the field.
    pub fn one(modulus: u64) -> (r: Self)
        requires
            modulus >= 2,
        ensures
            r.wf(),
            r.modulus == modulus,
            r.value == 1,
    {
        Self { value: 1, modulus }
    }

    /// Builds an element by reducing `value` modulo `modulus`.
    pub fn new(value: u64, modulus: u64) -> (r: Self)
        requires
            modulus >= 2,
        ensures
            r.wf(),
            r.modulus == modulus,
            r.value == value as int % modulus as int,
    {
        Self { value: value % modulus, modulus }
    }

    /// Field addition: the sum reduced modulo the shared modulus.
    pub fn add(self, other: Self) -> (r: Self)
        requires
            self.wf(),
            other.wf(),
            self.modulus == other.modulus,
        ensures
            r.wf(),
            r.modulus == self.modulus,
            r.value == (self.value + other.value) % (self.modulus as int),
    {
        let m: u128 = self.modulus as u128;
        let s: u128 = self.value as u128 + other.value as u128;
        let v: u128 = s % m;
        proof {
            lemma_mod_bound(s as int, m as int);
        }
        Self { value: v as u64, modulus: self.modulus }
    }

    /// Field subtraction: `self - other` reduced modulo the shared modulus.
    pub fn sub(self, other: Self) -> (r: Self)
        requires
            self.wf(),
            other.wf(),
            self.modulus == other.modulus,
        ensures
            r.wf(),
            r.modulus == self.modulus,
            r.value == (self.value - other.value) % (self.modulus as int),
    {
        let m: u128 = self.modulus as u128;
        let s: u128 = self.value as u128 + (m - other.value as u128);
        let v: u128 = s % m;
        proof {
            lemma_mod_bound(s as int, m as int);
            vstd::arithmetic::div_mod::lemma_mod_add_multiples_vanish(
                self.value - other.value,
                m as int,
            );
        }
        Self { value: v as u64, modulus: self.modulus }
    }

    /// Field multiplication: the product reduced modulo the shared modulus.
    pub fn mul(self, other: Self) -> (r: Self)
        requires
            self.wf(),
            other.wf(),
            self.modulus == other.modulus,
        ensures
            r.wf(),
            r.modulus == self.modulus,
            r.value == (self.value * other.value) % (self.modulus as int),
    {
        let m: u128 = self.modulus as u128;
        proof {
            let a = self.value as int;
            let b = other.value as int;
            assert(a * b <= 0xffffffffffffffffint * 0xffffffffffffffffint) by (nonlinear_arith)
                requires
                    0 <= a <= 0xffffffffffffffffint,
                    0 <= b <= 0xffffffffffffffffint,
            ;
        }
        let p: u128 = self.value as u128 * other.value as u128;
        let v: u128 = p % m;
        proof {
            lemma_mod_bound(p as int, m as int);
        }
        Self { value: v as u64, modulus: self.modulus }
    }

    /// Exponentiation by squaring; the result is `value^exponent mod modulus`.
    pub fn pow(&self, exponent: u64) -> (r: Self)
        requires
            self.wf(),
        ensures
            r.wf(),
            r.modulus == self.modulus,
            r.value == pow_mod(self.value as int, exponent as nat, self.modulus as int),
    {
        let m = self.modulus;
        let ghost target = pow_mod(self.value as int, exponent as nat, m as int);
        let mut result = Self::one(m);
        let mut base = *self;
        let mut exp = exponent;
        proof {
            lemma_pow_mod_bound(self.value as int, exponent as nat, m as int);
            vstd::arithmetic::div_mod::lemma_small_mod(target as nat, m as nat);
        }
        while exp > 0
            invariant
                m >= 2,
                result.wf(),
                result.modulus == m,
                base.wf(),
                base.modulus == m,
                (result.value * pow_mod(base.value as int, exp as nat, m as int)) % (m as int)
                    == target,
            decreases exp,
        {
            let ghost b = base.value as int;
            let ghost res = result.value as int;
            let ghost e = exp as nat;
            let ghost q = (exp / 2) as nat;
            proof {
                lemma_pow_mod_square(b, q, m as int);
                lemma_pow_mod_bound(b, 2 * q, m as int);
            }
            if exp % 2 == 1 {
                result = result.mul(base);
                proof {
                    // res' = (res*b)%m; pow(b, e) == (b * pow(b, 2q)) % m by definition
                    let p2q = pow_mod(b, 2 * q, m as int);
                    assert(e == 2 * q + 1);
                    assert(pow_mod(b, e, m as int) == (b * p2q) % (m as int));
                    lemma_mul_mod_noop_general(res * b, p2q, m as int);
                    lemma_mul_mod_noop_general(res, b * p2q, m as int);
                    assert((res * b) * p2q == res * (b * p2q)) by (nonlinear_arith);
                    assert((result.value * p2q) % (m as int) == (res * ((b * p2q) % (
                    m as int))) % (m as int));
                }
            } else {
                proof {
                    assert(e == 2 * q);
                }
            }
            proof {
                // switching the base to (b*b)%m keeps the invariant for exponent q
                let p2q = pow_mod(b, 2 * q, m as int);
                let res2 = result.value as int;
                assert((res2 * p2q) % (m as int) == target);
                lemma_mul_mod_noop_general(b * b, 0, m as int);
            }
            base = base.mul(base);
            exp = exp / 2;
            proof {
                assert(pow_mod(base.value as int, exp as nat, m as int) == pow_mod(
                    b,
                    2 * q,
                    m as int,
                ));
            }
        }
        proof {
            assert(pow_mod(base.value as int, 0, m as int) == 1int % (m as int));
            assert(1int % (m as int) == 1) by {
                vstd::arithmetic::div_mod::lemma_small_mod(1nat, m as nat);
            }
            assert((result.value * 1) % (m as int) == target);
            lemma_mod_bound(result.value as int, m as int);
            vstd::arithmetic::div_mod::lemma_small_mod(result.value as nat, m as nat);
        }
        result
    }

    /// The multiplicative inverse by Fermat's little theorem,
    /// `a^(p-2) mod p`; meaningful only for a prime modulus and nonzero value.
    pub fn inverse(&self) -> (r: Self)
        requires
            self.wf(),
            self.value != 0,
        ensures
            r.wf(),
            r.modulus == self.modulus,
            r.value == pow_mod(self.value as int, (self.modulus - 2) as nat, self.modulus as int),
    {
        self.pow(self.modulus - 2)
    }
}

} // verus!
