//! Dense polynomials over the prime field: lowest-degree coefficient first,
//! kept canonical (no trailing zero coefficients), with Horner evaluation and
//! the even/odd fold at the heart of the degree-halving protocol.

use vstd::prelude::*;
use crate::field::FieldElement;

verus! {

/// A dense polynomial; `coefficients[i]` is the coefficient of `x^i`.
#[derive(Clone, Debug)]
pub struct Polynomial {
    coefficients: Vec<FieldElement>,
}

/// Every coefficient is a reduced element of the field with modulus `m`.
pub open spec fn coeffs_wf(s: Seq<FieldElement>, m: int) -> bool {
    forall|i: int| 0 <= i < s.len() ==> (#[trigger] s[i]).wf() && s[i].modulus == m
}

/// Drops trailing zero coefficients, the canonical form kept by `Polynomial`.
pub open spec fn trim_zeros(s: Seq<FieldElement>) -> Seq<FieldElement>
    decreases s.len(),
{
    if s.len() > 0 && s.last().value == 0 {
        trim_zeros(s.drop_last())
    } else {
        s
    }
}

/// The degree of a coefficient sequence: `len - 1`, with the constant and
/// zero polynomials both of degree `0`.
pub open spec fn degree_of(s: Seq<FieldElement>) -> nat {
    if s.len() <= 1 {
        0
    } else {
        (s.len() - 1) as nat
    }
}

/// Horner evaluation of the coefficient sequence at `x`, reduced modulo `m`.
pub open spec fn eval_poly(s: Seq<FieldElement>, x: int, m: int) -> int
    decreases s.len(),
{
    if m <= 0 {
        0
    } else if s.len() == 0 {
        0
    } else {
        (eval_poly(s.subrange(1, s.len() as int), x, m) * x + s[0].value) % m
    }
}

/// The even-indexed coefficients of `s`.
pub open spec fn even_part(s: Seq<FieldElement>) -> Seq<FieldElement> {
    Seq::new(((s.len() + 1) / 2) as nat, |i: int| s[2 * i])
}

/// The odd-indexed coefficients of `s`.
pub open spec fn odd_part(s: Seq<FieldElement>) -> Seq<FieldElement> {
    Seq::new((s.len() / 2) as nat, |i: int| s[2 * i + 1])
}

/// Coefficient `i` of the fold of `s` by `alpha`:
/// `even[i] + alpha * odd[i]`, with a missing odd coefficient read as zero.
pub open spec fn fold_coeff(s: Seq<FieldElement>, alpha: FieldElement, i: int) -> int {
    let m = alpha.modulus as int;
    let e = s[2 * i].value as int;
    let o = if 2 * i + 1 < s.len() {
        s[2 * i + 1].value as int
    } else {
        0
    };
    (e + (alpha.value * o) % m) % m
}

/// The coefficient sequence of `even(x) + alpha * odd(x)`, before trimming.
pub open spec fn fold_seq(s: Seq<FieldElement>, alpha: FieldElement) -> Seq<FieldElement> {
    Seq::new(
        ((s.len() + 1) / 2) as nat,
        |i: int|
            FieldElement {
                value: fold_coeff(s, alpha, i) as u64,
                modulus: alpha.modulus,
            },
    )
}

/// Trimming never lengthens a sequence and keeps any prefix it returns.
pub proof fn lemma_trim_len(s: Seq<FieldElement>)
    ensures
        trim_zeros(s).len() <= s.len(),
        trim_zeros(s) == s.take(trim_zeros(s).len() as int),
    decreases s.len(),
{
    if s.len() > 0 && s.last().value == 0 {
        lemma_trim_len(s.drop_last());
        assert(s.drop_last() == s.take(s.len() - 1));
        assert(s.drop_last().take(trim_zeros(s).len() as int) == s.take(
            trim_zeros(s).len() as int,
        ));
    } else {
        assert(s.take(s.len() as int) == s);
    }
}

/// Appending a zero coefficient does not change the Horner value.
proof fn lemma_eval_push_zero(s: Seq<FieldElement>, z: FieldElement, x: int, m: int)
    requires
        m > 0,
        z.value == 0,
    ensures
        eval_poly(s.push(z), x, m) == eval_poly(s, x, m),
    decreases s.len(),
{
    let p = s.push(z);
    if s.len() == 0 {
        assert(p.len() == 1);
        assert(p.subrange(1, p.len() as int) =~= Seq::<FieldElement>::empty());
        assert(eval_poly(p.subrange(1, p.len() as int), x, m) == 0);
        assert(p[0] == z);
        assert(eval_poly(p, x, m) == (eval_poly(p.subrange(1, p.len() as int), x, m) * x
            + p[0].value) % m);
        assert(eval_poly(p, x, m) == (0 * x + 0) % m);
        assert(0int % m == 0) by {
            vstd::arithmetic::div_mod::lemma_small_mod(0nat, m as nat);
        }
    } else {
        let t = s.subrange(1, s.len() as int);
        assert(p.subrange(1, p.len() as int) =~= t.push(z));
        assert(p[0] == s[0]);
        lemma_eval_push_zero(t, z, x, m);
    }
}

/// Trimming trailing zero coefficients does not change the Horner value.
pub proof fn lemma_eval_trim(s: Seq<FieldElement>, x: int, m: int)
    requires
        m > 0,
    ensures
        eval_poly(trim_zeros(s), x, m) == eval_poly(s, x, m),
    decreases s.len(),
{
    if s.len() > 0 && s.last().value == 0 {
        lemma_eval_push_zero(s.drop_last(), s.last(), x, m);
        assert(s.drop_last().push(s.last()) =~= s);
        lemma_eval_trim(s.drop_last(), x, m);
    }
}

/// Every Horner value is a reduced residue.
pub proof fn lemma_eval_bound(s: Seq<FieldElement>, x: int, m: int)
    requires
        m > 0,
    ensures
        0 <= eval_poly(s, x, m) < m,
{
    if s.len() > 0 {
        vstd::arithmetic::div_mod::lemma_mod_bound(
            eval_poly(s.subrange(1, s.len() as int), x, m) * x + s[0].value,
            m,
        );
    }
}

/// The even/odd split identity at the heart of the fold: a polynomial's
/// value at `x` is its even part at `x^2` plus `x` times its odd part there.
pub proof fn lemma_eval_split(s: Seq<FieldElement>, x: int, m: int)
    requires
        m > 0,
    ensures
        eval_poly(s, x, m) == (eval_poly(even_part(s), (x * x) % m, m) + x * eval_poly(
            odd_part(s),
            (x * x) % m,
            m,
        )) % m,
    decreases s.len(),
{
    let y = (x * x) % m;
    if s.len() == 0 {
        assert(even_part(s) =~= Seq::<FieldElement>::empty());
        assert(odd_part(s) =~= Seq::<FieldElement>::empty());
        assert(0int % m == 0) by {
            vstd::arithmetic::div_mod::lemma_small_mod(0nat, m as nat);
        }
    } else {
        let t = s.subrange(1, s.len() as int);
        lemma_eval_split(t, x, m);
        let et = eval_poly(even_part(t), y, m);
        let ot = eval_poly(odd_part(t), y, m);
        let c0 = s[0].value as int;
        let es = seq![s[0]] + odd_part(t);
        assert(even_part(s) =~= es);
        assert(odd_part(s) =~= even_part(t));
        // the left side flattens to (x*x)*ot + (c0 + x*et) modulo m
        assert(eval_poly(s, x, m) == (eval_poly(t, x, m) * x + c0) % m);
        crate::field::lemma_mod_mul_add(et + x * ot, x, c0, m);
        assert((et + x * ot) * x + c0 == (x * x) * ot + (c0 + x * et)) by (nonlinear_arith);
        crate::field::lemma_mod_mul_add(x * x, ot, c0 + x * et, m);
        assert(eval_poly(s, x, m) == (y * ot + (c0 + x * et)) % m);
        // the right side flattens to the same
        assert(es.subrange(1, es.len() as int) =~= odd_part(t));
        assert(es[0] == s[0]);
        assert(eval_poly(es, y, m) == (ot * y + c0) % m);
        crate::field::lemma_mod_mul_add(ot * y + c0, 1, x * et, m);
        assert(((ot * y + c0) % m) * 1 == (ot * y + c0) % m);
        assert((ot * y + c0) * 1 + x * et == y * ot + (c0 + x * et));
    }
}

/// Evaluating the untrimmed fold at a point combines the even and odd parts
/// there with the challenge.
pub proof fn lemma_eval_fold(s: Seq<FieldElement>, alpha: FieldElement, y: int, m: int)
    requires
        m == alpha.modulus as int,
        m >= 2,
    ensures
        eval_poly(fold_seq(s, alpha), y, m) == (eval_poly(even_part(s), y, m) + alpha.value
            * eval_poly(odd_part(s), y, m)) % m,
    decreases s.len(),
{
    let a = alpha.value as int;
    let f = fold_seq(s, alpha);
    if s.len() == 0 {
        assert(f =~= Seq::<FieldElement>::empty());
        assert(even_part(s) =~= Seq::<FieldElement>::empty());
        assert(odd_part(s) =~= Seq::<FieldElement>::empty());
        assert(0int % m == 0) by {
            vstd::arithmetic::div_mod::lemma_small_mod(0nat, m as nat);
        }
    } else if s.len() == 1 {
        let c0 = s[0].value as int;
        assert((a * 0) % m == 0) by {
            vstd::arithmetic::div_mod::lemma_small_mod(0nat, m as nat);
        }
        assert(fold_coeff(s, alpha, 0) == (c0 + 0) % m);
        vstd::arithmetic::div_mod::lemma_mod_bound(c0, m);
        assert(f[0].value == c0 % m);
        assert(f.len() == 1);
        assert(f.subrange(1, f.len() as int) =~= Seq::<FieldElement>::empty());
        assert(eval_poly(f.subrange(1, f.len() as int), y, m) == 0);
        assert(eval_poly(f, y, m) == (eval_poly(f.subrange(1, f.len() as int), y, m) * y
            + f[0].value) % m);
        assert(eval_poly(f, y, m) == (0 * y + c0 % m) % m);
        vstd::arithmetic::div_mod::lemma_mod_twice(c0, m);
        let e = even_part(s);
        assert(e.len() == 1);
        assert(e[0] == s[0]);
        assert(odd_part(s) =~= Seq::<FieldElement>::empty());
        assert(e.subrange(1, e.len() as int) =~= Seq::<FieldElement>::empty());
        assert(eval_poly(e.subrange(1, e.len() as int), y, m) == 0);
        assert(eval_poly(e, y, m) == (eval_poly(e.subrange(1, e.len() as int), y, m) * y
            + e[0].value) % m);
        assert(eval_poly(even_part(s), y, m) == (0 * y + c0) % m);
        crate::field::lemma_mod_mul_add(c0, 1, a * 0, m);
        assert((c0 % m) * 1 + a * 0 == c0 % m);
        assert(c0 * 1 + a * 0 == c0);
    } else {
        let t = s.subrange(2, s.len() as int);
        lemma_eval_fold(t, alpha, y, m);
        let et = eval_poly(even_part(t), y, m);
        let ot = eval_poly(odd_part(t), y, m);
        let ft = eval_poly(fold_seq(t, alpha), y, m);
        let c0 = s[0].value as int;
        let o0 = s[1].value as int;
        assert(f.subrange(1, f.len() as int) =~= fold_seq(t, alpha));
        assert(even_part(s).subrange(1, even_part(s).len() as int) =~= even_part(t));
        assert(odd_part(s).subrange(1, odd_part(s).len() as int) =~= odd_part(t));
        // the head coefficient of the fold, reduced for the field type
        let fc = fold_coeff(s, alpha, 0);
        assert(fc == (c0 + (a * o0) % m) % m);
        vstd::arithmetic::div_mod::lemma_mod_bound(c0 + (a * o0) % m, m);
        assert(f[0].value == fc);
        // the left side flattens to a*o0 + c0 + et*y + a*ot*y modulo m
        assert(eval_poly(f, y, m) == (ft * y + fc) % m);
        crate::field::lemma_mod_mul_add(et + a * ot, y, fc, m);
        assert(eval_poly(f, y, m) == ((et + a * ot) * y + fc) % m);
        crate::field::lemma_mod_mul_add(c0 + (a * o0) % m, 1, (et + a * ot) * y, m);
        assert(((c0 + (a * o0) % m) % m) * 1 == (c0 + (a * o0) % m) % m);
        assert((c0 + (a * o0) % m) * 1 + (et + a * ot) * y == (a * o0) % m + (c0 + (et + a * ot)
            * y));
        crate::field::lemma_mod_mul_add(a * o0, 1, c0 + (et + a * ot) * y, m);
        assert(((a * o0) % m) * 1 == (a * o0) % m);
        assert(eval_poly(f, y, m) == (a * o0 + (c0 + (et + a * ot) * y)) % m);
        // the right side flattens to the same
        assert(even_part(s)[0] == s[0]);
        assert(odd_part(s)[0] == s[1]);
        assert(eval_poly(even_part(s), y, m) == (et * y + c0) % m);
        assert(eval_poly(odd_part(s), y, m) == (ot * y + o0) % m);
        crate::field::lemma_mod_mul_add(ot * y + o0, a, (et * y + c0) % m, m);
        assert(a * ((ot * y + o0) % m) == ((ot * y + o0) % m) * a) by (nonlinear_arith);
        crate::field::lemma_mod_mul_add(et * y + c0, 1, (ot * y + o0) * a, m);
        assert(((et * y + c0) % m) * 1 == (et * y + c0) % m);
        assert((ot * y + o0) * a + (et * y + c0) % m == ((et * y + c0) % m) * 1 + (ot * y + o0)
            * a);
        assert(a * o0 + (c0 + (et + a * ot) * y) == (et * y + c0) * 1 + (ot * y + o0) * a)
            by (nonlinear_arith);
    }
}

impl Polynomial {
    /// The coefficient sequence, lowest power first.
    pub closed spec fn coeffs(self) -> Seq<FieldElement> {
        self.coefficients@
    }

    /// Builds the canonical polynomial for `coefficients`: trailing zero
    /// coefficients are removed, so the zero polynomial is the empty sequence.
    pub fn new(coefficients: Vec<FieldElement>) -> (r: Self)
        ensures
            r.coeffs() == trim_zeros(coefficients@),
    {
        let ghost orig = coefficients@;
        let mut coeffs = coefficients;
        while coeffs.len() > 0 && coeffs[coeffs.len() - 1].value == 0
            invariant
                trim_zeros(coeffs@) == trim_zeros(orig),
            decreases coeffs.len(),
        {
            proof {
                assert(coeffs@.drop_last() == coeffs@.subrange(0, coeffs@.len() - 1));
            }
            coeffs.pop();
        }
        Self { coefficients: coeffs }
    }

    /// A copy with the same coefficients.
    pub fn duplicate(&self) -> (r: Self)
        ensures
            r.coeffs() == self.coeffs(),
    {
        let mut c: Vec<FieldElement> = Vec::new();
        let n = self.coefficients.len();
        let mut i: usize = 0;
        while i < n
            invariant
                i <= n,
                n == self.coefficients.len(),
                c@ == self.coefficients@.take(i as int),
            decreases n - i,
        {
            c.push(self.coefficients[i]);
            proof {
                assert(c@ == self.coefficients@.take(i + 1));
            }
            i = i + 1;
        }
        proof {
            assert(self.coefficients@.take(n as int) == self.coefficients@);
        }
        Self { coefficients: c }
    }

    /// The degree: `len - 1` for two or more coefficients, else `0`.
    pub fn degree(&self) -> (r: usize)
        ensures
            r == degree_of(self.coeffs()),
    {
        if self.coefficients.len() <= 1 {
            0
        } else {
            self.coefficients.len() - 1
        }
    }

    /// Horner evaluation at `x`, right to left over the coefficients.
    pub fn evaluate(&self, x: FieldElement) -> (r: FieldElement)
        requires
            x.wf(),
            coeffs_wf(self.coeffs(), x.modulus as int),
        ensures
            r.wf(),
            r.modulus == x.modulus,
            r.value == eval_poly(self.coeffs(), x.value as int, x.modulus as int),
    {
        let ghost s = self.coeffs();
        let ghost m = x.modulus as int;
        let mut result = FieldElement::zero(x.modulus);
        let mut i: usize = self.coefficients.len();
        while i > 0
            invariant
                i <= self.coefficients.len(),
                s == self.coeffs(),
                m == x.modulus as int,
                x.wf(),
                coeffs_wf(s, m),
                result.wf(),
                result.modulus == x.modulus,
                result.value == eval_poly(s.subrange(i as int, s.len() as int), x.value as int, m),
            decreases i,
        {
            i = i - 1;
            let c = self.coefficients[i];
            let ghost before = result.value as int;
            result = result.mul(x).add(c);
            proof {
                let tail = s.subrange(i + 1, s.len() as int);
                let cur = s.subrange(i as int, s.len() as int);
                assert(cur[0] == s[i as int]);
                assert(cur.subrange(1, cur.len() as int) == tail);
                assert(eval_poly(cur, x.value as int, m) == (eval_poly(tail, x.value as int, m)
                    * x.value + s[i as int].value) % m);
                vstd::arithmetic::div_mod::lemma_add_mod_noop(
                    before * x.value,
                    s[i as int].value as int,
                    m,
                );
                vstd::arithmetic::div_mod::lemma_mod_bound(before * x.value, m);
                vstd::arithmetic::div_mod::lemma_small_mod(
                    s[i as int].value as nat,
                    x.modulus as nat,
                );
                vstd::arithmetic::div_mod::lemma_mod_twice(
                    before * x.value + s[i as int].value,
                    m,
                );
            }
        }
        proof {
            assert(s.subrange(0, s.len() as int) == s);
        }
        result
    }

    /// Splits into the even-indexed and odd-indexed coefficient
    /// sub-polynomials, each in canonical form.
    pub fn split_even_odd(&self) -> (r: (Polynomial, Polynomial))
        ensures
            r.0.coeffs() == trim_zeros(even_part(self.coeffs())),
            r.1.coeffs() == trim_zeros(odd_part(self.coeffs())),
    {
        let ghost s = self.coeffs();
        let mut even_coeffs: Vec<FieldElement> = Vec::new();
        let mut odd_coeffs: Vec<FieldElement> = Vec::new();
        let n = self.coefficients.len();
        let mut i: usize = 0;
        while i < n
            invariant
                i <= n,
                n == s.len(),
                s == self.coeffs(),
                even_coeffs@ == even_part(s.take(i as int)),
                odd_coeffs@ == odd_part(s.take(i as int)),
            decreases n - i,
        {
            if i % 2 == 0 {
                even_coeffs.push(self.coefficients[i]);
            } else {
                odd_coeffs.push(self.coefficients[i]);
            }
            i = i + 1;
            proof {
                assert(even_coeffs@ =~= even_part(s.take(i as int)));
                assert(odd_coeffs@ =~= odd_part(s.take(i as int)));
            }
        }
        proof {
            assert(s.take(n as int) == s);
        }
        (Polynomial::new(even_coeffs), Polynomial::new(odd_coeffs))
    }

    /// The FRI fold `even(x) + alpha * odd(x)`: a new polynomial whose
    /// coefficient `i` combines coefficients `2i` and `2i+1` of `self`.
    /// Folding a polynomial already at degree zero is a contract violation,
    /// so such an input is excluded.
    pub fn fold(&self, alpha: FieldElement) -> (r: Polynomial)
        requires
            alpha.wf(),
            coeffs_wf(self.coeffs(), alpha.modulus as int),
            degree_of(self.coeffs()) >= 1,
        ensures
            r.coeffs() == trim_zeros(fold_seq(self.coeffs(), alpha)),
            degree_of(r.coeffs()) <= degree_of(self.coeffs()) / 2,
    {
        let ghost s = self.coeffs();
        let n = self.coefficients.len();
        let half = n / 2 + n % 2;
        proof {
            assert(half == (n + 1) / 2);
        }
        let mut new_coeffs: Vec<FieldElement> = Vec::new();
        let mut i: usize = 0;
        while i < half
            invariant
                i <= half,
                half == (n + 1) / 2,
                n == s.len(),
                s == self.coeffs(),
                alpha.wf(),
                coeffs_wf(s, alpha.modulus as int),
                new_coeffs@ == fold_seq(s, alpha).take(i as int),
            decreases half - i,
        {
            let e = self.coefficients[2 * i];
            let o = if 2 * i + 1 < n {
                self.coefficients[2 * i + 1]
            } else {
                FieldElement::zero(alpha.modulus)
            };
            let combined = e.add(alpha.mul(o));
            proof {
                if 2 * i + 1 >= n {
                    assert((alpha.value * 0) % (alpha.modulus as int) == 0) by {
                        vstd::arithmetic::div_mod::lemma_small_mod(0nat, alpha.modulus as nat);
                    }
                }
                assert(combined == fold_seq(s, alpha)[i as int]);
            }
            new_coeffs.push(combined);
            i = i + 1;
            proof {
                assert(new_coeffs@ =~= fold_seq(s, alpha).take(i as int));
            }
        }
        proof {
            assert(fold_seq(s, alpha).take(half as int) == fold_seq(s, alpha));
        }
        let r = Polynomial::new(new_coeffs);
        proof {
            lemma_trim_len(fold_seq(s, alpha));
        }
        r
    }
}

/// The fold of a polynomial of degree `d >= 1` has degree at most
/// `floor(d / 2)`, hence strictly lower degree; for odd `d` this is the bound
/// `ceil(d / 2) - 1`.
pub proof fn lemma_fold_degree(s: Seq<FieldElement>, alpha: FieldElement)
    requires
        degree_of(s) >= 1,
    ensures
        degree_of(trim_zeros(fold_seq(s, alpha))) <= degree_of(s) / 2,
        degree_of(trim_zeros(fold_seq(s, alpha))) < degree_of(s),
        degree_of(s) % 2 == 1 ==> degree_of(trim_zeros(fold_seq(s, alpha))) <= (degree_of(s)
            + 1) / 2 - 1,
{
    lemma_trim_len(fold_seq(s, alpha));
}

} // verus!
