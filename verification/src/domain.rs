//! Evaluation domains: powers of a root of unity of two-power order, laid
//! out so that position `i + n/2` holds the negation of position `i`. Such a
//! domain squares, pair by pair, onto a domain of exactly half the size.

use vstd::prelude::*;
use crate::field::{FieldElement, pow_mod};

verus! {

/// `n` is a power of two.
pub open spec fn is_pow2(n: nat) -> bool
    decreases n,
{
    if n == 0 {
        false
    } else if n == 1 {
        true
    } else {
        n % 2 == 0 && is_pow2(n / 2)
    }
}

/// The first half of `d`, squared pointwise: the next round's domain.
pub open spec fn squared_half(d: Seq<FieldElement>, m: int) -> Seq<FieldElement> {
    Seq::new(
        (d.len() / 2) as nat,
        |i: int|
            FieldElement {
                value: ((d[i].value * d[i].value) % m) as u64,
                modulus: m as u64,
            },
    )
}

/// A foldable evaluation domain over an odd modulus `m`: nonzero reduced
/// elements, the second half the pointwise negation of the first, and the
/// squared first half again such a domain, down to a single point.
pub open spec fn valid_domain(d: Seq<FieldElement>, m: int) -> bool
    decreases d.len(),
{
    &&& m >= 3
    &&& m % 2 == 1
    &&& d.len() >= 1
    &&& forall|i: int|
        0 <= i < d.len() ==> (#[trigger] d[i]).modulus == m && 0 < d[i].value < m
    &&& d.len() > 1 ==> {
        &&& d.len() % 2 == 0
        &&& forall|i: int| 0 <= i < d.len() / 2 ==> d[i + d.len() / 2].value == m - (
        #[trigger] d[i]).value
        &&& valid_domain(squared_half(d, m), m)
    }
}

/// Negating an element does not change its square modulo `m`.
pub proof fn lemma_neg_square(x: int, m: int)
    requires
        m > 0,
        0 <= x < m,
    ensures
        ((m - x) * (m - x)) % m == (x * x) % m,
{
    assert((m - x) * (m - x) == (m - 2 * x) * m + x * x) by (nonlinear_arith);
    vstd::arithmetic::div_mod::lemma_mod_multiples_vanish(m - 2 * x, x * x, m);
}

/// The elements of a foldable domain are pairwise distinct.
pub proof fn lemma_valid_domain_distinct(d: Seq<FieldElement>, m: int)
    requires
        valid_domain(d, m),
    ensures
        forall|i: int, j: int|
            0 <= i < j < d.len() ==> (#[trigger] d[i]).value != (#[trigger] d[j]).value,
    decreases d.len(),
{
    if d.len() > 1 {
        let h = d.len() / 2;
        let sq = squared_half(d, m);
        lemma_valid_domain_distinct(sq, m);
        assert forall|i: int, j: int| 0 <= i < j < d.len() implies (#[trigger] d[i]).value != (
        #[trigger] d[j]).value by {
            if j < h {
                // equal values in the first half would square to equal
                // elements of the distinct halved domain
                if d[i].value == d[j].value {
                    assert(sq[i].value == sq[j].value);
                }
            } else if i < h && h <= j {
                let j2 = j - h;
                if d[i].value == d[j].value {
                    // d[j] is the negation of d[j2], so their squares agree
                    lemma_neg_square(d[j2].value as int, m);
                    assert(sq[i].value == sq[j2].value);
                    if i == j2 {
                        // then d[i] == m - d[i], impossible for odd m
                        assert(2 * d[i].value == m);
                    }
                }
            } else {
                let i2 = i - h;
                let j2 = j - h;
                if d[i].value == d[j].value {
                    assert(d[i2].value == d[j2].value);
                    assert(sq[i2].value == sq[j2].value);
                }
            }
        }
    }
}

/// The domain-halving law: squaring every element of a foldable domain of
/// size `n >= 2` and deduplicating the pairs yields exactly `n / 2` distinct
/// values, namely the squared first half, which is again a foldable domain.
pub proof fn lemma_domain_halving(d: Seq<FieldElement>, m: int)
    requires
        valid_domain(d, m),
        d.len() >= 2,
    ensures
        squared_half(d, m).len() == d.len() / 2,
        valid_domain(squared_half(d, m), m),
        forall|i: int|
            0 <= i < d.len() ==> (((#[trigger] d[i]).value * d[i].value) % m) == squared_half(
                d,
                m,
            )[if i < d.len() / 2 {
                i
            } else {
                i - d.len() / 2
            }].value,
        forall|i: int, j: int|
            0 <= i < j < d.len() / 2 ==> (#[trigger] squared_half(d, m)[i]).value != (
            #[trigger] squared_half(d, m)[j]).value,
{
    let h = d.len() / 2;
    let sq = squared_half(d, m);
    lemma_valid_domain_distinct(sq, m);
    assert forall|i: int| 0 <= i < d.len() implies (((#[trigger] d[i]).value * d[i].value)
        % m) == sq[if i < h {
        i
    } else {
        i - h
    }].value by {
        if i >= h {
            lemma_neg_square(d[i - h].value as int, m);
        }
    }
}

/// A copy of a vector of field elements.
pub fn copy_field_vec(d: &Vec<FieldElement>) -> (r: Vec<FieldElement>)
    ensures
        r@ == d@,
{
    let mut out: Vec<FieldElement> = Vec::new();
    let n = d.len();
    let mut i: usize = 0;
    while i < n
        invariant
            i <= n,
            n == d@.len(),
            out@ == d@.take(i as int),
        decreases n - i,
    {
        out.push(d[i]);
        i = i + 1;
        proof {
            assert(out@ =~= d@.take(i as int));
        }
    }
    proof {
        assert(d@.take(n as int) == d@);
    }
    out
}

/// The next round's domain: the first half of `d`, squared pointwise.
pub fn halve_domain(d: &Vec<FieldElement>, m: u64) -> (r: Vec<FieldElement>)
    requires
        m >= 3,
        forall|j: int| 0 <= j < d@.len() ==> (#[trigger] d@[j]).wf() && d@[j].modulus == m,
    ensures
        r@ == squared_half(d@, m as int),
        r@.len() == d@.len() / 2,
{
    let ghost target = squared_half(d@, m as int);
    let half = d.len() / 2;
    let mut out: Vec<FieldElement> = Vec::new();
    let mut i: usize = 0;
    while i < half
        invariant
            i <= half,
            half == d@.len() / 2,
            m >= 3,
            forall|j: int| 0 <= j < d@.len() ==> (#[trigger] d@[j]).wf() && d@[j].modulus == m,
            target == squared_half(d@, m as int),
            out@ == target.take(i as int),
        decreases half - i,
    {
        let sq = d[i].mul(d[i]);
        proof {
            assert(sq == target[i as int]);
        }
        out.push(sq);
        i = i + 1;
        proof {
            assert(out@ =~= target.take(i as int));
        }
    }
    proof {
        assert(target.take(half as int) =~= target);
    }
    out
}

/// Decides `is_pow2`.
pub fn check_pow2(n: usize) -> (r: bool)
    ensures
        r == is_pow2(n as nat),
{
    if n == 0 {
        return false;
    }
    let mut v = n;
    while v > 1
        invariant
            v >= 1,
            is_pow2(n as nat) == is_pow2(v as nat),
        decreases v,
    {
        if v % 2 == 1 {
            return false;
        }
        v = v / 2;
    }
    true
}

/// Decides `valid_domain` for the elements of `d` over modulus `m`.
pub fn check_domain(d: &Vec<FieldElement>, m: u64) -> (r: bool)
    ensures
        r == valid_domain(d@, m as int),
    decreases d@.len(),
{
    if m < 3 || m % 2 == 0 {
        return false;
    }
    let n = d.len();
    if n == 0 {
        return false;
    }
    let mut i: usize = 0;
    while i < n
        invariant
            i <= n,
            n == d@.len(),
            forall|j: int|
                0 <= j < i ==> (#[trigger] d@[j]).modulus == m && 0 < d@[j].value < m,
        decreases n - i,
    {
        let e = d[i];
        if e.modulus != m || e.value == 0 || e.value >= m {
            proof {
                assert(!(d@[i as int].modulus == m as int && 0 < d@[i as int].value < m));
            }
            return false;
        }
        i = i + 1;
    }
    if n == 1 {
        return true;
    }
    if n % 2 == 1 {
        return false;
    }
    let half = n / 2;
    let mut k: usize = 0;
    while k < half
        invariant
            k <= half,
            half == n / 2,
            n == d@.len(),
            n % 2 == 0,
            m >= 3,
            forall|j: int|
                0 <= j < d@.len() ==> (#[trigger] d@[j]).modulus == m && 0 < d@[j].value < m,
            forall|j: int|
                0 <= j < k ==> d@[j + d@.len() / 2].value == m - (#[trigger] d@[j]).value,
        decreases half - k,
    {
        if d[k + half].value != m - d[k].value {
            return false;
        }
        k = k + 1;
    }
    let mut sq: Vec<FieldElement> = Vec::new();
    let mut t: usize = 0;
    while t < half
        invariant
            t <= half,
            half == n / 2,
            n == d@.len(),
            m >= 3,
            forall|j: int|
                0 <= j < d@.len() ==> (#[trigger] d@[j]).modulus == m && 0 < d@[j].value < m,
            sq@ == squared_half(d@, m as int).take(t as int),
        decreases half - t,
    {
        let sqe = d[t].mul(d[t]);
        proof {
            assert(sqe == squared_half(d@, m as int)[t as int]);
        }
        sq.push(sqe);
        t = t + 1;
        proof {
            assert(sq@ =~= squared_half(d@, m as int).take(t as int));
        }
    }
    proof {
        assert(squared_half(d@, m as int).take(half as int) =~= squared_half(d@, m as int));
    }
    check_domain(&sq, m)
}

} // verus!
