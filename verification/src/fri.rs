//! The FRI protocol pair: the prover's commit phase (evaluate, commit,
//! fold, halve the domain, with Fiat-Shamir challenges) and query phase, and
//! the verifier's challenge replay and per-query decision.

use vstd::prelude::*;
use crate::field::{FieldElement, pow_mod, fermat_inverses};
use crate::polynomial::{Polynomial, coeffs_wf, degree_of, trim_zeros, fold_seq, eval_poly};
use crate::merkle::{MerkleTree, MerkleProof, root_of, path_root, sibs_from};
use crate::hash::{byte_views, leaf_digest_of, field_leaf_digest};
use crate::transcript::{challenge_value, derive_challenge, derive_challenges};
use crate::domain::{is_pow2, valid_domain, squared_half, check_pow2, check_domain};

verus! {

/// A rejected session input: the protocol could not start.
#[derive(Clone, Copy, PartialEq, Eq, Structural, Debug)]
pub enum FriError {
    /// The modulus cannot carry a foldable domain (too small or even).
    InvalidModulus,
    /// The initial domain size is not a power of two at least `degree + 1`.
    InvalidDomainSize,
    /// No element of the field has the exact two-power order asked for.
    NoRootOfUnity,
    /// The root's powers do not form a foldable domain.
    UnusableDomain,
}

/// The element sequences held by a sequence of field-element vectors.
pub open spec fn field_rows(vs: Seq<Vec<FieldElement>>) -> Seq<Seq<FieldElement>> {
    Seq::new(vs.len(), |i: int| vs[i]@)
}

/// `w` generates a domain of `size` points: `w^size == 1`, and for a
/// foldable size the half power is `-1`.
pub open spec fn root_check(w: int, size: nat, m: int) -> bool {
    &&& pow_mod(w, size, m) == 1
    &&& size >= 2 ==> pow_mod(w, (size / 2) as nat, m) == m - 1
}

/// The first `size` powers of `w` as reduced field elements.
pub open spec fn powers_of(w: int, size: nat, m: int) -> Seq<FieldElement> {
    Seq::new(
        size,
        |i: int|
            FieldElement {
                value: pow_mod(w, i as nat, m) as u64,
                modulus: m as u64,
            },
    )
}

/// The canonical domain of `size` points: the powers of the smallest
/// generator that passes `root_check`.
pub open spec fn generated_domain(d: Seq<FieldElement>, size: nat, m: int) -> bool {
    exists|w: int|
        1 <= w < m && #[trigger] root_check(w, size, m) && (forall|v: int|
            1 <= v < w ==> !root_check(v, size, m)) && d == powers_of(w, size, m)
}

/// The leaf digests that commit to a round's evaluation table.
pub open spec fn leaf_seq(evals: Seq<FieldElement>) -> Seq<Seq<u8>> {
    Seq::new(evals.len(), |i: int| leaf_digest_of(evals[i].value))
}

/// Finds the smallest field element whose powers make a domain of `size`
/// points, if one exists.
fn find_root(size: usize, modulus: u64) -> (r: Option<u64>)
    requires
        modulus >= 3,
        size >= 1,
    ensures
        (match r {
            Some(w) => 1 <= w < modulus && root_check(w as int, size as nat, modulus as int)
                && (forall|v: int| 1 <= v < w ==> !root_check(v, size as nat, modulus as int)),
            None => forall|v: int|
                1 <= v < modulus ==> !root_check(v, size as nat, modulus as int),
        }),
{
    let size64 = size as u64;
    let mut w: u64 = 1;
    while w < modulus
        invariant
            1 <= w <= modulus,
            modulus >= 3,
            size >= 1,
            size64 == size as u64,
            forall|v: int| 1 <= v < w ==> !root_check(v, size as nat, modulus as int),
        decreases modulus - w,
    {
        let we = FieldElement::new(w, modulus);
        proof {
            vstd::arithmetic::div_mod::lemma_small_mod(w as nat, modulus as nat);
        }
        let p1 = we.pow(size64);
        let ok = if p1.value != 1 {
            false
        } else if size >= 2 {
            let ph = we.pow(size64 / 2);
            ph.value == modulus - 1
        } else {
            true
        };
        if ok {
            return Some(w);
        }
        proof {
            assert(!root_check(w as int, size as nat, modulus as int));
        }
        w = w + 1;
    }
    None
}

/// The prover's session: the polynomial and domain it starts from and, once
/// the commit phase has run, every round's domain, polynomial, evaluation
/// table, Merkle tree, root and challenge, plus the terminal constant.
pub struct FRIProver {
    modulus: u64,
    original_poly: Polynomial,
    domain: Vec<FieldElement>,
    domains: Vec<Vec<FieldElement>>,
    polys: Vec<Polynomial>,
    evaluations: Vec<Vec<FieldElement>>,
    trees: Vec<MerkleTree>,
    roots: Vec<Vec<u8>>,
    challenges: Vec<FieldElement>,
    final_constant: FieldElement,
    committed: bool,
}

impl FRIProver {
    /// The session modulus.
    pub closed spec fn spec_modulus(self) -> u64 {
        self.modulus
    }

    /// The coefficients of the committed polynomial.
    pub closed spec fn spec_poly(self) -> Seq<FieldElement> {
        self.original_poly.coeffs()
    }

    /// The round-0 evaluation domain.
    pub closed spec fn spec_domain(self) -> Seq<FieldElement> {
        self.domain@
    }

    /// The per-round domains recorded by the commit phase.
    pub closed spec fn spec_domains(self) -> Seq<Seq<FieldElement>> {
        field_rows(self.domains@)
    }

    /// The per-round polynomials, ending with the terminal constant one.
    pub closed spec fn spec_polys(self) -> Seq<Polynomial> {
        self.polys@
    }

    /// The per-round evaluation tables.
    pub closed spec fn spec_evals(self) -> Seq<Seq<FieldElement>> {
        field_rows(self.evaluations@)
    }

    /// The per-round Merkle trees.
    pub closed spec fn spec_trees(self) -> Seq<MerkleTree> {
        self.trees@
    }

    /// The per-round committed roots.
    pub closed spec fn spec_roots(self) -> Seq<Seq<u8>> {
        byte_views(self.roots@)
    }

    /// The per-round Fiat-Shamir challenges.
    pub closed spec fn spec_challenges(self) -> Seq<FieldElement> {
        self.challenges@
    }

    /// The terminal constant.
    pub closed spec fn spec_final(self) -> FieldElement {
        self.final_constant
    }

    /// Whether the commit phase has run.
    pub closed spec fn spec_committed(self) -> bool {
        self.committed
    }

    /// A freshly constructed session: odd modulus of at least 3, uniform
    /// coefficients, and a foldable power-of-two domain that can seat the
    /// polynomial.
    pub open spec fn setup_wf(self) -> bool {
        &&& self.spec_modulus() >= 3
        &&& self.spec_modulus() % 2 == 1
        &&& coeffs_wf(self.spec_poly(), self.spec_modulus() as int)
        &&& valid_domain(self.spec_domain(), self.spec_modulus() as int)
        &&& is_pow2(self.spec_domain().len())
        &&& self.spec_domain().len() >= self.spec_poly().len()
        &&& self.spec_domain().len() >= 1
    }

    /// The structural shape of a committed session, enough to answer
    /// queries: matching table lengths, well-shaped trees, even domain
    /// sizes, reduced elements.
    pub open spec fn query_ready(self) -> bool {
        let rr = self.spec_roots().len();
        let m = self.spec_modulus() as int;
        &&& self.spec_committed()
        &&& self.spec_modulus() >= 3
        &&& self.spec_modulus() % 2 == 1
        &&& self.spec_domains().len() == rr
        &&& self.spec_evals().len() == rr
        &&& self.spec_trees().len() == rr
        &&& self.spec_challenges().len() == rr
        &&& self.spec_polys().len() == rr + 1
        &&& forall|j: int|
            0 <= j < rr ==> (#[trigger] self.spec_trees()[j]).shape_wf()
                && self.spec_trees()[j].leaves().len() == self.spec_evals()[j].len()
        &&& forall|j: int|
            0 <= j < rr ==> (#[trigger] self.spec_evals()[j]).len() == self.spec_domains()[j].len()
                && self.spec_domains()[j].len() >= 2 && self.spec_domains()[j].len() % 2 == 0
        &&& forall|j: int, i: int|
            0 <= j < rr && 0 <= i < self.spec_evals()[j].len() ==> (
            #[trigger] self.spec_evals()[j][i]).wf() && self.spec_evals()[j][i].modulus
                == self.spec_modulus()
        &&& forall|j: int, i: int|
            0 <= j < rr && 0 <= i < self.spec_domains()[j].len() ==> (
            #[trigger] self.spec_domains()[j][i]).wf() && self.spec_domains()[j][i].modulus
                == self.spec_modulus()
        &&& forall|j: int|
            0 <= j < rr ==> (#[trigger] self.spec_challenges()[j]).wf()
                && self.spec_challenges()[j].modulus == self.spec_modulus()
        &&& self.spec_final().wf()
        &&& self.spec_final().modulus == self.spec_modulus()
        &&& rr >= 1 ==> self.spec_domains()[0] == self.spec_domain()
    }

    /// A faithfully committed session: every root hashes its round's
    /// evaluation table, every challenge replays the transcript, every
    /// polynomial folds the previous one by its challenge, every evaluation
    /// table evaluates its round's polynomial over its domain, and the
    /// domains square and halve round by round.
    pub open spec fn committed_wf(self) -> bool {
        let rr = self.spec_roots().len();
        let m = self.spec_modulus() as int;
        &&& self.query_ready()
        &&& self.spec_polys()[0].coeffs() == self.spec_poly()
        &&& forall|j: int|
            0 <= j < rr ==> degree_of((#[trigger] self.spec_polys()[j]).coeffs()) >= 1
        &&& degree_of(self.spec_polys()[rr as int].coeffs()) == 0
        &&& forall|j: int|
            0 <= j < rr ==> valid_domain(#[trigger] self.spec_domains()[j], m)
        &&& forall|j: int|
            0 <= j < rr - 1 ==> #[trigger] self.spec_domains()[j + 1] == squared_half(
                self.spec_domains()[j],
                m,
            )
        &&& forall|j: int, i: int|
            0 <= j < rr && 0 <= i < self.spec_evals()[j].len() ==> (
            #[trigger] self.spec_evals()[j][i]).value == eval_poly(
                self.spec_polys()[j].coeffs(),
                self.spec_domains()[j][i].value as int,
                m,
            )
        &&& forall|j: int|
            0 <= j < rr ==> (#[trigger] self.spec_trees()[j]).wf() && self.spec_trees()[j].leaves()
                == leaf_seq(self.spec_evals()[j]) && self.spec_trees()[j].root_seq()
                == self.spec_roots()[j]
        &&& forall|j: int|
            0 <= j < rr ==> #[trigger] self.spec_roots()[j] == root_of(
                leaf_seq(self.spec_evals()[j]),
            )
        &&& forall|j: int|
            0 <= j < rr ==> (#[trigger] self.spec_challenges()[j]).value == challenge_value(
                self.spec_roots(),
                j,
                m,
            )
        &&& forall|j: int|
            0 <= j < rr ==> (#[trigger] self.spec_polys()[j + 1]).coeffs() == trim_zeros(
                fold_seq(self.spec_polys()[j].coeffs(), self.spec_challenges()[j]),
            )
        &&& self.spec_final().value == (if self.spec_polys()[rr as int].coeffs().len() == 0 {
            0
        } else {
            self.spec_polys()[rr as int].coeffs()[0].value as int
        })
    }

    /// Generates the canonical evaluation domain of `size` points over the
    /// given modulus: the powers of the smallest root of unity of exact
    /// order `size`, checked to be foldable.
    pub fn generate_domain(size: usize, modulus: u64) -> (r: Result<Vec<FieldElement>, FriError>)
        requires
            modulus >= 3,
            modulus % 2 == 1,
            size >= 1,
        ensures
            (match r {
                Ok(d) => d@.len() == size && generated_domain(d@, size as nat, modulus as int)
                    && valid_domain(d@, modulus as int),
                Err(e) => (e == FriError::NoRootOfUnity <==> (forall|v: int|
                    1 <= v < modulus ==> !root_check(v, size as nat, modulus as int))) && (e
                    == FriError::NoRootOfUnity || e == FriError::UnusableDomain) && (e
                    == FriError::UnusableDomain ==> exists|w: int|
                    1 <= w < modulus && #[trigger] root_check(w, size as nat, modulus as int)
                        && (forall|v: int| 1 <= v < w ==> !root_check(v, size as nat, modulus as int))
                        && !valid_domain(powers_of(w, size as nat, modulus as int), modulus as int)),
            }),
    {
        let found = find_root(size, modulus);
        match found {
            None => Err(FriError::NoRootOfUnity),
            Some(w) => {
                let ghost wi = w as int;
                let ghost m = modulus as int;
                let ghost target = powers_of(wi, size as nat, m);
                let we = FieldElement::new(w, modulus);
                proof {
                    vstd::arithmetic::div_mod::lemma_small_mod(w as nat, modulus as nat);
                }
                let mut d: Vec<FieldElement> = Vec::new();
                d.push(FieldElement::one(modulus));
                proof {
                    vstd::arithmetic::div_mod::lemma_small_mod(1nat, modulus as nat);
                    assert(target[0].value == 1);
                    assert(d@ =~= target.take(1));
                }
                let mut i: usize = 1;
                while i < size
                    invariant
                        1 <= i <= size,
                        modulus >= 3,
                        we.value == w,
                        we.modulus == modulus,
                        w < modulus,
                        1 <= w,
                        wi == w as int,
                        m == modulus as int,
                        target == powers_of(wi, size as nat, m),
                        d@.len() == i,
                        d@ == target.take(i as int),
                    decreases size - i,
                {
                    let prev = d[i - 1];
                    proof {
                        crate::field::lemma_pow_mod_bound(wi, (i - 1) as nat, m);
                        crate::field::lemma_pow_mod_bound(wi, i as nat, m);
                        assert(prev == target[i - 1]);
                        assert(prev.value == pow_mod(wi, (i - 1) as nat, m));
                    }
                    let next = prev.mul(we);
                    proof {
                        assert(next.value == (prev.value * w) % m);
                        assert(pow_mod(wi, i as nat, m) == (wi * pow_mod(wi, (i - 1) as nat, m))
                            % m);
                        assert(prev.value * w == wi * pow_mod(wi, (i - 1) as nat, m))
                            by (nonlinear_arith)
                            requires
                                prev.value == pow_mod(wi, (i - 1) as nat, m),
                                wi == w as int,
                        ;
                        assert(next == target[i as int]);
                    }
                    d.push(next);
                    i = i + 1;
                    proof {
                        assert(d@ =~= target.take(i as int));
                    }
                }
                proof {
                    assert(target.take(size as int) =~= target);
                }
                if check_domain(&d, modulus) {
                    Ok(d)
                } else {
                    Err(FriError::UnusableDomain)
                }
            },
        }
    }

    /// Opens a session: validates the modulus and the domain size (a power
    /// of two seating the polynomial's degree bound) and generates the
    /// canonical domain.
    pub fn new(poly: Polynomial, modulus: u64, domain_size: usize) -> (r: Result<
        FRIProver,
        FriError,
    >)
        requires
            coeffs_wf(poly.coeffs(), modulus as int),
        ensures
            (match r {
                Ok(p) => {
                    &&& p.setup_wf()
                    &&& !p.spec_committed()
                    &&& p.spec_modulus() == modulus
                    &&& p.spec_poly() == poly.coeffs()
                    &&& p.spec_domain().len() == domain_size
                    &&& generated_domain(p.spec_domain(), domain_size as nat, modulus as int)
                    &&& modulus >= 3 && modulus % 2 == 1
                    &&& is_pow2(domain_size as nat)
                    &&& domain_size >= degree_of(poly.coeffs()) + 1
                },
                Err(e) => {
                    &&& (e == FriError::InvalidModulus <==> (modulus < 3 || modulus % 2 == 0))
                    &&& (e == FriError::InvalidDomainSize <==> (modulus >= 3 && modulus % 2 == 1
                        && (!is_pow2(domain_size as nat) || domain_size < degree_of(poly.coeffs())
                        + 1)))
                    &&& ((e == FriError::NoRootOfUnity || e == FriError::UnusableDomain)
                        ==> (modulus >= 3 && modulus % 2 == 1 && is_pow2(domain_size as nat)
                        && domain_size >= degree_of(poly.coeffs()) + 1))
                    &&& (e == FriError::NoRootOfUnity <==> (modulus >= 3 && modulus % 2 == 1
                        && is_pow2(domain_size as nat) && domain_size >= degree_of(poly.coeffs())
                        + 1 && (forall|v: int|
                        1 <= v < modulus ==> !root_check(v, domain_size as nat, modulus as int))))
                    &&& (e == FriError::UnusableDomain ==> exists|w: int|
                        1 <= w < modulus && #[trigger] root_check(
                            w,
                            domain_size as nat,
                            modulus as int,
                        ) && (forall|v: int|
                            1 <= v < w ==> !root_check(v, domain_size as nat, modulus as int))
                            && !valid_domain(
                            powers_of(w, domain_size as nat, modulus as int),
                            modulus as int,
                        ))
                },
            }),
    {
        if modulus < 3 || modulus % 2 == 0 {
            return Err(FriError::InvalidModulus);
        }
        let deg = poly.degree();
        if !check_pow2(domain_size) || domain_size < deg || domain_size - deg < 1 {
            proof {
                assert(domain_size < deg || domain_size - deg < 1 ==> domain_size < deg + 1);
            }
            return Err(FriError::InvalidDomainSize);
        }
        let domain = match Self::generate_domain(domain_size, modulus) {
            Ok(d) => d,
            Err(e) => {
                return Err(e);
            },
        };
        Ok(
            FRIProver {
                modulus,
                original_poly: poly,
                domain,
                domains: Vec::new(),
                polys: Vec::new(),
                evaluations: Vec::new(),
                trees: Vec::new(),
                roots: Vec::new(),
                challenges: Vec::new(),
                final_constant: FieldElement { value: 0, modulus },
                committed: false,
            },
        )
    }

    /// The commit phase: while the current polynomial has positive degree,
    /// evaluate it over the current domain, commit the table under a Merkle
    /// root, derive the round's Fiat-Shamir challenge from all roots so far,
    /// fold the polynomial by it and halve the domain; the terminal constant
    /// is the last polynomial's value. Returns the committed roots in order.
    #[verifier::rlimit(100)]
    pub fn commit(&mut self) -> (r: Vec<Vec<u8>>)
        requires
            old(self).setup_wf(),
            !old(self).spec_committed(),
        ensures
            final(self).committed_wf(),
            final(self).spec_modulus() == old(self).spec_modulus(),
            final(self).spec_poly() == old(self).spec_poly(),
            final(self).spec_domain() == old(self).spec_domain(),
            byte_views(r@) == final(self).spec_roots(),
            degree_of(old(self).spec_poly()) == 0 ==> final(self).spec_roots().len() == 0,
    {
        let m = self.modulus;
        let ghost mi = m as int;
        let ghost orig_coeffs = self.original_poly.coeffs();
        let ghost orig_domain = self.domain@;
        let mut current_poly = self.original_poly.duplicate();
        let mut current_domain = crate::domain::copy_field_vec(&self.domain);
        let mut domains_v: Vec<Vec<FieldElement>> = Vec::new();
        let mut polys_v: Vec<Polynomial> = Vec::new();
        let mut evals_v: Vec<Vec<FieldElement>> = Vec::new();
        let mut trees_v: Vec<MerkleTree> = Vec::new();
        let mut roots_v: Vec<Vec<u8>> = Vec::new();
        let mut challenges_v: Vec<FieldElement> = Vec::new();
        while current_poly.degree() > 0
            invariant
                m >= 3,
                m % 2 == 1,
                mi == m as int,
                coeffs_wf(orig_coeffs, mi),
                coeffs_wf(current_poly.coeffs(), mi),
                valid_domain(current_domain@, mi),
                is_pow2(current_domain@.len()),
                current_domain@.len() >= current_poly.coeffs().len(),
                domains_v@.len() == roots_v@.len(),
                polys_v@.len() == roots_v@.len(),
                evals_v@.len() == roots_v@.len(),
                trees_v@.len() == roots_v@.len(),
                challenges_v@.len() == roots_v@.len(),
                roots_v@.len() == 0 ==> current_poly.coeffs() == orig_coeffs && current_domain@
                    == orig_domain,
                roots_v@.len() >= 1 ==> polys_v@[0].coeffs() == orig_coeffs && domains_v@[0]@
                    == orig_domain,
                roots_v@.len() >= 1 ==> current_poly.coeffs() == trim_zeros(
                    fold_seq(
                        polys_v@[roots_v@.len() - 1].coeffs(),
                        challenges_v@[roots_v@.len() - 1],
                    ),
                ) && current_domain@ == squared_half(
                    domains_v@[roots_v@.len() - 1]@,
                    mi,
                ),
                forall|j: int|
                    0 <= j < roots_v@.len() ==> degree_of((#[trigger] polys_v@[j]).coeffs()) >= 1
                        && coeffs_wf(polys_v@[j].coeffs(), mi),
                forall|j: int|
                    0 <= j < roots_v@.len() ==> valid_domain((#[trigger] domains_v@[j])@, mi)
                        && domains_v@[j]@.len() >= 2 && domains_v@[j]@.len() % 2 == 0,
                forall|j: int|
                    0 <= j < roots_v@.len() ==> (#[trigger] evals_v@[j])@.len()
                        == domains_v@[j]@.len(),
                forall|j: int, i: int|
                    0 <= j < roots_v@.len() && 0 <= i < evals_v@[j]@.len() ==> (
                    #[trigger] evals_v@[j]@[i]).wf() && evals_v@[j]@[i].modulus == m
                        && evals_v@[j]@[i].value == eval_poly(
                        polys_v@[j].coeffs(),
                        domains_v@[j]@[i].value as int,
                        mi,
                    ),
                forall|j: int|
                    0 <= j < roots_v@.len() - 1 ==> (#[trigger] domains_v@[j + 1])@
                        == squared_half(domains_v@[j]@, mi),
                forall|j: int|
                    0 <= j < roots_v@.len() - 1 ==> (#[trigger] polys_v@[j + 1]).coeffs()
                        == trim_zeros(fold_seq(polys_v@[j].coeffs(), challenges_v@[j])),
                forall|j: int|
                    0 <= j < roots_v@.len() ==> (#[trigger] trees_v@[j]).wf() && trees_v@[j].leaves()
                        == leaf_seq(evals_v@[j]@) && trees_v@[j].root_seq() == byte_views(
                        roots_v@,
                    )[j],
                forall|j: int|
                    0 <= j < roots_v@.len() ==> #[trigger] byte_views(roots_v@)[j] == root_of(
                        leaf_seq(evals_v@[j]@),
                    ),
                forall|j: int|
                    0 <= j < roots_v@.len() ==> (#[trigger] challenges_v@[j]).wf()
                        && challenges_v@[j].modulus == m && challenges_v@[j].value
                        == challenge_value(byte_views(roots_v@), j, mi),
            decreases degree_of(current_poly.coeffs()),
        {
            let ghost rr = roots_v@.len() as int;
            let n = current_domain.len();
            // evaluate the current polynomial over the current domain
            let mut evals: Vec<FieldElement> = Vec::new();
            let mut i: usize = 0;
            while i < n
                invariant
                    i <= n,
                    n == current_domain@.len(),
                    m >= 3,
                    mi == m as int,
                    coeffs_wf(current_poly.coeffs(), mi),
                    valid_domain(current_domain@, mi),
                    evals@.len() == i,
                    forall|t: int|
                        0 <= t < i ==> (#[trigger] evals@[t]).wf() && evals@[t].modulus == m
                            && evals@[t].value == eval_poly(
                            current_poly.coeffs(),
                            current_domain@[t].value as int,
                            mi,
                        ),
                decreases n - i,
            {
                let x = current_domain[i];
                proof {
                    assert(x.modulus == m && 0 < x.value < m);
                }
                evals.push(current_poly.evaluate(x));
                i = i + 1;
            }
            // commit the table under a Merkle root
            let mut leaves: Vec<Vec<u8>> = Vec::new();
            let mut t: usize = 0;
            while t < n
                invariant
                    t <= n,
                    n == evals@.len(),
                    leaves@.len() == t,
                    byte_views(leaves@) =~= leaf_seq(evals@).take(t as int),
                    forall|q: int| 0 <= q < t ==> (#[trigger] leaves@[q])@.len() == 32,
                decreases n - t,
            {
                let leaf = field_leaf_digest(&evals[t]);
                leaves.push(leaf);
                t = t + 1;
                proof {
                    assert(byte_views(leaves@) =~= leaf_seq(evals@).take(t as int));
                }
            }
            proof {
                assert(leaf_seq(evals@).take(n as int) =~= leaf_seq(evals@));
                assert(byte_views(leaves@) =~= leaf_seq(evals@));
            }
            let tree = MerkleTree::new(leaves);
            let root = tree.get_root();
            let ghost old_roots = byte_views(roots_v@);
            roots_v.push(root);
            proof {
                assert(byte_views(roots_v@) =~= old_roots.push(root@));
                assert forall|j: int| 0 <= j < rr implies (#[trigger] challenges_v@[j]).value
                    == challenge_value(byte_views(roots_v@), j, mi) by {
                    crate::transcript::lemma_challenge_prefix(
                        old_roots,
                        byte_views(roots_v@),
                        j,
                        mi,
                    );
                }
            }
            trees_v.push(tree);
            evals_v.push(evals);
            domains_v.push(crate::domain::copy_field_vec(&current_domain));
            polys_v.push(current_poly.duplicate());
            // derive the round challenge from every root committed so far
            let jr = roots_v.len() - 1;
            let alpha = derive_challenge(&roots_v, jr, m);
            challenges_v.push(alpha);
            // fold the polynomial and halve the domain
            let ghost old_degree = degree_of(current_poly.coeffs());
            proof {
                assert(current_poly.coeffs().len() >= 2);
                assert(current_domain@.len() >= 2);
                crate::domain::lemma_domain_halving(current_domain@, mi);
                crate::polynomial::lemma_trim_len(fold_seq(current_poly.coeffs(), alpha));
            }
            let folded = current_poly.fold(alpha);
            proof {
                let fs = fold_seq(current_poly.coeffs(), alpha);
                let tz = trim_zeros(fs);
                assert forall|q: int| 0 <= q < tz.len() implies (#[trigger] tz[q]).wf() && tz[q].modulus
                    == m by {
                    assert(tz[q] == fs[q]);
                    vstd::arithmetic::div_mod::lemma_mod_bound(
                        crate::polynomial::fold_coeff(current_poly.coeffs(), alpha, q),
                        mi,
                    );
                }
                assert(coeffs_wf(folded.coeffs(), mi));
                assert(fs.len() == (current_poly.coeffs().len() + 1) / 2);
                assert(folded.coeffs().len() <= (current_poly.coeffs().len() + 1) / 2);
                assert((current_poly.coeffs().len() + 1) / 2 <= current_domain@.len() / 2);
            }
            current_poly = folded;
            let new_domain = crate::domain::halve_domain(&current_domain, m);
            current_domain = new_domain;
        }
        // the terminal constant: the last polynomial's sole coefficient
        let fc = current_poly.evaluate(FieldElement::zero(m));
        proof {
            let s = current_poly.coeffs();
            assert(degree_of(s) == 0);
            if s.len() == 0 {
                assert(fc.value == 0);
            } else {
                assert(s.len() == 1);
                assert(eval_poly(s, 0, mi) == (eval_poly(s.subrange(1, 1), 0, mi) * 0 + s[0].value)
                    % mi);
                assert(s.subrange(1, 1).len() == 0);
                vstd::arithmetic::div_mod::lemma_small_mod(s[0].value as nat, m as nat);
                assert(fc.value == s[0].value);
            }
        }
        polys_v.push(current_poly);
        let out_roots = crate::hash::copy_digests(&roots_v);
        self.domains = domains_v;
        self.polys = polys_v;
        self.evaluations = evals_v;
        self.trees = trees_v;
        self.roots = roots_v;
        self.challenges = challenges_v;
        self.final_constant = fc;
        self.committed = true;
        proof {
            let rr = self.spec_roots().len() as int;
            assert forall|j: int| 0 <= j < rr implies #[trigger] self.spec_domains()[j]
                == self.domains@[j]@ by {}
            assert forall|j: int| 0 <= j < rr implies #[trigger] self.spec_evals()[j]
                == self.evaluations@[j]@ by {}
            assert(self.spec_polys().len() == rr + 1);
            assert(self.committed_wf());
        }
        out_roots
    }

    /// The number of committed rounds.
    pub fn num_rounds(&self) -> (r: usize)
        ensures
            r == self.spec_roots().len(),
    {
        self.roots.len()
    }

    /// The size of the round-0 domain.
    pub fn initial_domain_size(&self) -> (r: usize)
        ensures
            r == self.spec_domain().len(),
    {
        self.domain.len()
    }
}

/// One queried layer: the point and its opposite (the other square root of
/// the same next-round point), their committed evaluations, and an
/// inclusion proof for each against that round's Merkle root.
pub struct LayerQueryProof {
    pub layer_index: usize,
    pub point: FieldElement,
    pub value: FieldElement,
    pub opposite_point: FieldElement,
    pub opposite_value: FieldElement,
    pub merkle_proof: MerkleProof,
    pub opposite_merkle_proof: MerkleProof,
}

/// A full query answer: one layer proof per committed round, then the
/// terminal constant, which needs no inclusion proof.
pub struct FRIQueryProof {
    pub layer_proofs: Vec<LayerQueryProof>,
    pub final_constant: FieldElement,
}

/// The paired position of `idx` in a domain whose second half negates the
/// first: the index offset by half the domain size.
pub fn opposite_index(idx: usize, size: usize) -> (r: usize)
    requires
        size >= 2,
        size % 2 == 0,
        idx < size,
    ensures
        r == (idx + size / 2) % (size as int),
        r < size,
        r != idx,
{
    proof {
        if idx < size / 2 {
            vstd::arithmetic::div_mod::lemma_small_mod((idx + size / 2) as nat, size as nat);
        } else {
            vstd::arithmetic::div_mod::lemma_mod_add_multiples_vanish(
                idx - size / 2,
                size as int,
            );
            vstd::arithmetic::div_mod::lemma_small_mod((idx - size / 2) as nat, size as nat);
        }
    }
    if idx < size / 2 {
        idx + size / 2
    } else {
        idx - size / 2
    }
}

/// What the prover's answer to query `q` holds at layer `j`: the values and
/// inclusion proofs read off the round's recorded tables at the scheduled
/// position `q mod size` and its opposite; against a faithfully built tree
/// both paths reconstruct the round's root.
pub open spec fn layer_answer_ok(p: FRIProver, q: int, j: int, layer: LayerQueryProof) -> bool {
    let size = p.spec_domains()[j].len() as int;
    let idx = q % size;
    let opp = (idx + size / 2) % size;
    &&& layer.layer_index == j
    &&& layer.point == p.spec_domains()[j][idx]
    &&& layer.value == p.spec_evals()[j][idx]
    &&& layer.opposite_point == p.spec_domains()[j][opp]
    &&& layer.opposite_value == p.spec_evals()[j][opp]
    &&& layer.merkle_proof.leaf_index == idx
    &&& layer.opposite_merkle_proof.leaf_index == opp
    &&& layer.merkle_proof.leaf_value@ == p.spec_trees()[j].leaves()[idx]
    &&& layer.opposite_merkle_proof.leaf_value@ == p.spec_trees()[j].leaves()[opp]
    &&& byte_views(layer.merkle_proof.sibling_hashes@) == sibs_from(
        p.spec_trees()[j].spec_levels(),
        0,
        idx,
    )
    &&& byte_views(layer.opposite_merkle_proof.sibling_hashes@) == sibs_from(
        p.spec_trees()[j].spec_levels(),
        0,
        opp,
    )
    &&& p.spec_trees()[j].wf() ==> path_root(
        layer.merkle_proof.leaf_value@,
        idx,
        byte_views(layer.merkle_proof.sibling_hashes@),
    ) == p.spec_trees()[j].root_seq() && path_root(
        layer.opposite_merkle_proof.leaf_value@,
        opp,
        byte_views(layer.opposite_merkle_proof.sibling_hashes@),
    ) == p.spec_trees()[j].root_seq()
}

/// What the prover's whole answer to query `q` holds: one faithful layer
/// per committed round and the recorded terminal constant.
pub open spec fn query_proof_ok(p: FRIProver, q: int, r: FRIQueryProof) -> bool {
    &&& r.layer_proofs@.len() == p.spec_roots().len()
    &&& forall|j: int|
        0 <= j < r.layer_proofs@.len() ==> layer_answer_ok(p, q, j, #[trigger] r.layer_proofs@[j])
    &&& r.final_constant == p.spec_final()
}

impl FRIProver {
    /// Answers one spot check: for every committed round, reveals the
    /// evaluation at the scheduled position and at its opposite, each under
    /// an inclusion proof, and closes with the terminal constant.
    pub fn answer_query(&self, query_index: usize) -> (r: FRIQueryProof)
        requires
            self.query_ready(),
            self.spec_roots().len() >= 1,
            query_index < self.spec_domains()[0].len(),
        ensures
            query_proof_ok(*self, query_index as int, r),
    {
        let rr = self.roots.len();
        let mut layers: Vec<LayerQueryProof> = Vec::new();
        let mut j: usize = 0;
        proof {
            assert(self.spec_trees().len() == rr);
        }
        while j < rr
            invariant
                j <= rr,
                rr == self.spec_roots().len(),
                self.query_ready(),
                layers@.len() == j,
                forall|jj: int|
                    0 <= jj < j ==> layer_answer_ok(
                        *self,
                        query_index as int,
                        jj,
                        #[trigger] layers@[jj],
                    ),
            decreases rr - j,
        {
            proof {
                assert(self.spec_domains()[j as int] == self.domains@[j as int]@);
                assert(self.spec_evals()[j as int] == self.evaluations@[j as int]@);
                assert(self.spec_trees()[j as int] == self.trees@[j as int]);
            }
            let size = self.domains[j].len();
            let idx = query_index % size;
            let opp = opposite_index(idx, size);
            let point = self.domains[j][idx];
            let value = self.evaluations[j][idx];
            let opposite_point = self.domains[j][opp];
            let opposite_value = self.evaluations[j][opp];
            let merkle_proof = self.trees[j].prove(idx);
            let opposite_merkle_proof = self.trees[j].prove(opp);
            let layer = LayerQueryProof {
                layer_index: j,
                point,
                value,
                opposite_point,
                opposite_value,
                merkle_proof,
                opposite_merkle_proof,
            };
            proof {
                assert(layer_answer_ok(*self, query_index as int, j as int, layer));
            }
            layers.push(layer);
            j = j + 1;
        }
        FRIQueryProof { layer_proofs: layers, final_constant: self.final_constant }
    }
}

/// The verifier's session: the committed roots it was handed, the
/// challenges it re-derived from them, and the round-0 domain size that
/// fixes the query-index schedule.
pub struct FRIVerifier {
    modulus: u64,
    committed_roots: Vec<Vec<u8>>,
    challenges: Vec<FieldElement>,
    domain_size: usize,
}

/// The domain size at layer `j`: the round-0 size halved `j` times.
pub open spec fn half_size(n0: int, j: int) -> int
    decreases j,
{
    if j <= 0 {
        n0
    } else {
        half_size(n0, j - 1) / 2
    }
}

/// The folding identity the verifier recomputes at one layer, mirroring its
/// field operations exactly: `even + alpha * odd` where
/// `even = (v + v') / 2` and `odd = (v - v') / (2 * x)`, all modulo `m` with
/// division by Fermat inversion.
pub open spec fn expected_fold(v: int, ov: int, pt: int, alpha: int, m: int) -> int {
    let inv2 = pow_mod(2, (m - 2) as nat, m);
    let even = (((v + ov) % m) * inv2) % m;
    let denom = (2 * pt) % m;
    let invd = pow_mod(denom, (m - 2) as nat, m);
    let odd = (((v - ov) % m) * invd) % m;
    (even + (alpha * odd) % m) % m
}

impl FRIVerifier {
    /// The session modulus.
    pub closed spec fn spec_modulus(self) -> u64 {
        self.modulus
    }

    /// The roots the verifier was handed, one per round.
    pub closed spec fn spec_roots(self) -> Seq<Seq<u8>> {
        byte_views(self.committed_roots@)
    }

    /// The challenges the verifier re-derived.
    pub closed spec fn spec_challenges(self) -> Seq<FieldElement> {
        self.challenges@
    }

    /// The round-0 domain size.
    pub closed spec fn spec_domain_size(self) -> usize {
        self.domain_size
    }

    /// A usable verifier session: an odd modulus of at least 3 and one
    /// re-derived, reduced challenge per committed root.
    pub open spec fn wf(self) -> bool {
        &&& self.spec_modulus() >= 3
        &&& self.spec_modulus() % 2 == 1
        &&& self.spec_challenges().len() == self.spec_roots().len()
        &&& forall|j: int|
            0 <= j < self.spec_challenges().len() ==> (#[trigger] self.spec_challenges()[j]).wf()
                && self.spec_challenges()[j].modulus == self.spec_modulus()
    }

    /// Opens a verifier session: records the committed roots and the
    /// round-0 domain size, and independently re-derives every round's
    /// challenge from the transcript; nothing is taken from the prover.
    pub fn new(modulus: u64, committed_roots: Vec<Vec<u8>>, domain_size: usize) -> (r: Self)
        requires
            modulus >= 3,
            modulus % 2 == 1,
        ensures
            r.wf(),
            r.spec_modulus() == modulus,
            r.spec_roots() == byte_views(committed_roots@),
            r.spec_domain_size() == domain_size,
            forall|j: int|
                0 <= j < r.spec_challenges().len() ==> (#[trigger] r.spec_challenges()[j]).value
                    == challenge_value(byte_views(committed_roots@), j, modulus as int),
    {
        let count = committed_roots.len();
        let challenges = derive_challenges(&committed_roots, count, modulus);
        FRIVerifier { modulus, committed_roots, challenges, domain_size }
    }

    /// The folding identity at layer `j`: the fold the verifier recomputes
    /// from the layer's revealed pair and its challenge meets the next
    /// layer's value, or at the last layer the terminal constant.
    pub open spec fn folding_ok(self, proof: FRIQueryProof, j: int) -> bool {
        let m = self.spec_modulus() as int;
        let layer = proof.layer_proofs@[j];
        let expected = expected_fold(
            layer.value.value as int,
            layer.opposite_value.value as int,
            layer.point.value as int,
            self.spec_challenges()[j].value as int,
            m,
        );
        if j < self.spec_roots().len() - 1 {
            expected == proof.layer_proofs@[j + 1].value.value
        } else {
            expected == proof.final_constant.value
        }
    }

    /// What acceptance of layer `j` demands: the scheduled positions, fields
    /// reduced in this session's modulus, a nonzero point paired with its
    /// negation, leaf digests binding the claimed values, both inclusion
    /// paths reconstructing the round's root, and the folding identity
    /// meeting the next layer's value (or, at the last layer, the constant).
    pub open spec fn layer_accepted(self, q: int, proof: FRIQueryProof, j: int) -> bool {
        let m = self.spec_modulus() as int;
        let size = half_size(self.spec_domain_size() as int, j);
        let idx = q % size;
        let opp = (idx + size / 2) % size;
        let layer = proof.layer_proofs@[j];
        &&& size >= 2
        &&& size % 2 == 0
        &&& layer.layer_index == j
        &&& layer.value.modulus == m && layer.value.value < m
        &&& layer.opposite_value.modulus == m && layer.opposite_value.value < m
        &&& layer.point.modulus == m && 0 < layer.point.value < m
        &&& layer.opposite_point.modulus == m && layer.opposite_point.value == m
            - layer.point.value
        &&& layer.merkle_proof.leaf_index == idx
        &&& layer.opposite_merkle_proof.leaf_index == opp
        &&& layer.merkle_proof.leaf_value@ == leaf_digest_of(layer.value.value)
        &&& layer.opposite_merkle_proof.leaf_value@ == leaf_digest_of(layer.opposite_value.value)
        &&& path_root(
            layer.merkle_proof.leaf_value@,
            idx,
            byte_views(layer.merkle_proof.sibling_hashes@),
        ) == self.spec_roots()[j]
        &&& path_root(
            layer.opposite_merkle_proof.leaf_value@,
            opp,
            byte_views(layer.opposite_merkle_proof.sibling_hashes@),
        ) == self.spec_roots()[j]
        &&& (2 * layer.point.value) % m != 0
        &&& self.folding_ok(proof, j)
    }

    /// What acceptance of a whole query demands: a reduced terminal
    /// constant, one layer per committed root, an in-range index, and every
    /// layer accepted.
    pub open spec fn accepted(self, q: int, proof: FRIQueryProof) -> bool {
        &&& proof.final_constant.modulus == self.spec_modulus()
        &&& proof.final_constant.value < self.spec_modulus()
        &&& proof.layer_proofs@.len() == self.spec_roots().len()
        &&& 0 <= q < self.spec_domain_size()
        &&& forall|j: int|
            0 <= j < self.spec_roots().len() ==> self.layer_accepted(q, proof, j)
    }

    /// Requests the answer to one spot check from the prover, rejecting an
    /// out-of-range index or an uncommitted session up front.
    pub fn query(&self, prover: &FRIProver, query_index: usize) -> (r: Option<FRIQueryProof>)
        requires
            prover.query_ready(),
        ensures
            (match r {
                Some(p) => prover.spec_roots().len() >= 1 && query_index
                    < prover.spec_domain().len() && query_proof_ok(*prover, query_index as int, p),
                None => prover.spec_roots().len() == 0 || query_index
                    >= prover.spec_domain().len(),
            }),
    {
        if prover.num_rounds() == 0 || query_index >= prover.initial_domain_size() {
            return None;
        }
        proof {
            assert(prover.spec_domains()[0] == prover.spec_domain());
        }
        Some(prover.answer_query(query_index))
    }

    /// The schedule-level shape of a query answer: one layer per committed
    /// root, in round order, with the query index inside the round-0 domain.
    pub open spec fn shape_accepted(self, q: int, proof: FRIQueryProof) -> bool {
        &&& proof.layer_proofs@.len() == self.spec_roots().len()
        &&& 0 <= q < self.spec_domain_size()
        &&& forall|j: int|
            0 <= j < proof.layer_proofs@.len() ==> (#[trigger] proof.layer_proofs@[j]).layer_index
                == j
    }

    /// Decides the schedule-level shape of a query answer alone, so a
    /// malformed proof shape can be told apart from wrong values: a query
    /// rejected here never reaches the arithmetic checks.
    pub fn check_query_shape(&self, query_index: usize, proof: &FRIQueryProof) -> (r: bool)
        ensures
            r == self.shape_accepted(query_index as int, *proof),
    {
        if proof.layer_proofs.len() != self.committed_roots.len() {
            return false;
        }
        if query_index >= self.domain_size {
            return false;
        }
        let n = proof.layer_proofs.len();
        let mut j: usize = 0;
        while j < n
            invariant
                j <= n,
                n == proof.layer_proofs@.len(),
                proof.layer_proofs@.len() == self.spec_roots().len(),
                query_index < self.spec_domain_size(),
                forall|jj: int|
                    0 <= jj < j ==> (#[trigger] proof.layer_proofs@[jj]).layer_index == jj,
            decreases n - j,
        {
            if proof.layer_proofs[j].layer_index != j {
                return false;
            }
            j = j + 1;
        }
        true
    }

    /// Decides one spot check: shape and range checks first, then for each
    /// layer the Merkle inclusion of both revealed values and the folding
    /// identity against the next layer, ending at the terminal constant.
    /// Returns exactly the `accepted` predicate; a malformed proof only ever
    /// yields `false`.
    pub fn verify_query(&self, query_index: usize, proof: &FRIQueryProof) -> (r: bool)
        requires
            self.wf(),
        ensures
            r == self.accepted(query_index as int, *proof),
    {
        let m = self.modulus;
        let ghost mi = m as int;
        if proof.final_constant.modulus != m || proof.final_constant.value >= m {
            return false;
        }
        let rr = self.committed_roots.len();
        if proof.layer_proofs.len() != rr {
            return false;
        }
        if query_index >= self.domain_size {
            return false;
        }
        let mut size = self.domain_size;
        let mut j: usize = 0;
        while j < rr
            invariant
                j <= rr,
                self.wf(),
                m == self.spec_modulus(),
                mi == m as int,
                rr == self.spec_roots().len(),
                proof.layer_proofs@.len() == rr,
                size == half_size(self.spec_domain_size() as int, j as int),
                query_index < self.spec_domain_size(),
                forall|jj: int| 0 <= jj < j ==> self.layer_accepted(query_index as int, *proof, jj),
            decreases rr - j,
        {
            let layer = &proof.layer_proofs[j];
            proof {
                assert(*layer == proof.layer_proofs@[j as int]);
            }
            if size < 2 || size % 2 != 0 {
                proof {
                    assert(!self.layer_accepted(query_index as int, *proof, j as int));
                }
                return false;
            }
            let idx = query_index % size;
            let opp = opposite_index(idx, size);
            if layer.layer_index != j {
                proof {
                    assert(!self.layer_accepted(query_index as int, *proof, j as int));
                }
                return false;
            }
            if layer.value.modulus != m || layer.value.value >= m {
                proof {
                    assert(!self.layer_accepted(query_index as int, *proof, j as int));
                }
                return false;
            }
            if layer.opposite_value.modulus != m || layer.opposite_value.value >= m {
                proof {
                    assert(!self.layer_accepted(query_index as int, *proof, j as int));
                }
                return false;
            }
            if layer.point.modulus != m || layer.point.value == 0 || layer.point.value >= m {
                proof {
                    assert(!self.layer_accepted(query_index as int, *proof, j as int));
                }
                return false;
            }
            if layer.opposite_point.modulus != m || layer.opposite_point.value != m
                - layer.point.value {
                proof {
                    assert(!self.layer_accepted(query_index as int, *proof, j as int));
                }
                return false;
            }
            if layer.merkle_proof.leaf_index != idx || layer.opposite_merkle_proof.leaf_index
                != opp {
                proof {
                    assert(!self.layer_accepted(query_index as int, *proof, j as int));
                }
                return false;
            }
            let leaf = field_leaf_digest(&layer.value);
            if !crate::hash::bytes_equal(&layer.merkle_proof.leaf_value, &leaf) {
                proof {
                    assert(!self.layer_accepted(query_index as int, *proof, j as int));
                }
                return false;
            }
            let opposite_leaf = field_leaf_digest(&layer.opposite_value);
            if !crate::hash::bytes_equal(
                &layer.opposite_merkle_proof.leaf_value,
                &opposite_leaf,
            ) {
                proof {
                    assert(!self.layer_accepted(query_index as int, *proof, j as int));
                }
                return false;
            }
            proof {
                assert(self.spec_roots()[j as int] == self.committed_roots@[j as int]@);
            }
            if !layer.merkle_proof.verify(&self.committed_roots[j]) {
                proof {
                    assert(!self.layer_accepted(query_index as int, *proof, j as int));
                }
                return false;
            }
            if !layer.opposite_merkle_proof.verify(&self.committed_roots[j]) {
                proof {
                    assert(!self.layer_accepted(query_index as int, *proof, j as int));
                }
                return false;
            }
            let two = FieldElement::new(2, m);
            proof {
                vstd::arithmetic::div_mod::lemma_small_mod(2nat, m as nat);
                assert(two.value == 2);
            }
            let denom = two.mul(layer.point);
            if denom.value == 0 {
                proof {
                    assert(!self.layer_accepted(query_index as int, *proof, j as int));
                }
                return false;
            }
            let inv2 = two.inverse();
            let even = layer.value.add(layer.opposite_value).mul(inv2);
            let invd = denom.inverse();
            let odd = layer.value.sub(layer.opposite_value).mul(invd);
            let alpha = self.challenges[j];
            let expected = even.add(alpha.mul(odd));
            proof {
                assert(expected.value == expected_fold(
                    layer.value.value as int,
                    layer.opposite_value.value as int,
                    layer.point.value as int,
                    alpha.value as int,
                    mi,
                ));
            }
            if j < rr - 1 {
                if expected.value != proof.layer_proofs[j + 1].value.value {
                    proof {
                        assert(proof.layer_proofs@[j + 1].value.value
                            != expected_fold(
                            layer.value.value as int,
                            layer.opposite_value.value as int,
                            layer.point.value as int,
                            alpha.value as int,
                            mi,
                        ));
                        assert(!self.layer_accepted(query_index as int, *proof, j as int));
                    }
                    return false;
                }
            } else {
                if expected.value != proof.final_constant.value {
                    proof {
                        assert(!self.layer_accepted(query_index as int, *proof, j as int));
                    }
                    return false;
                }
            }
            proof {
                assert(self.layer_accepted(query_index as int, *proof, j as int));
            }
            size = size / 2;
            j = j + 1;
        }
        true
    }
}


/// In a faithfully committed session the recorded domain sizes follow the
/// halving schedule from the round-0 size.
pub proof fn lemma_domain_size_schedule(p: FRIProver, j: int)
    requires
        p.committed_wf(),
        0 <= j < p.spec_roots().len(),
    ensures
        p.spec_domains()[j].len() == half_size(p.spec_domain().len() as int, j),
    decreases j,
{
    if j == 0 {
    } else {
        lemma_domain_size_schedule(p, j - 1);
        assert(p.spec_domains()[(j - 1) + 1] == squared_half(
            p.spec_domains()[j - 1],
            p.spec_modulus() as int,
        ));
        assert((j - 1) + 1 == j);
    }
}

/// Against the answer of a faithfully committed prover, the verifier's
/// check of layer `j` comes down to the folding identity alone: the
/// schedule positions, the point/negation pairing, the leaf-digest binding
/// and both Merkle inclusion paths all pass by construction, so the layer
/// is accepted exactly when the recomputed fold meets the next layer's
/// value (or, at the last layer, the terminal constant).
#[verifier::rlimit(100)]
pub proof fn lemma_honest_answer_reduces_to_folding(
    p: FRIProver,
    vf: FRIVerifier,
    q: int,
    proof: FRIQueryProof,
    j: int,
)
    requires
        p.committed_wf(),
        vf.spec_modulus() == p.spec_modulus(),
        vf.spec_roots() == p.spec_roots(),
        vf.spec_domain_size() == p.spec_domain().len(),
        query_proof_ok(p, q, proof),
        0 <= q < p.spec_domain().len(),
        0 <= j < p.spec_roots().len(),
    ensures
        vf.layer_accepted(q, proof, j) <==> vf.folding_ok(proof, j),
{
    let m = p.spec_modulus() as int;
    let d = p.spec_domains()[j];
    let size = d.len() as int;
    let h = size / 2;
    let layer = proof.layer_proofs@[j];
    lemma_domain_size_schedule(p, j);
    assert(size >= 2 && size % 2 == 0);
    let idx = q % size;
    vstd::arithmetic::div_mod::lemma_mod_bound(q, size);
    let opp = (idx + h) % size;
    if idx + h < size {
        vstd::arithmetic::div_mod::lemma_small_mod((idx + h) as nat, size as nat);
    } else {
        vstd::arithmetic::div_mod::lemma_mod_add_multiples_vanish(idx + h - size, size);
        vstd::arithmetic::div_mod::lemma_small_mod((idx + h - size) as nat, size as nat);
    }
    assert(0 <= opp < size);
    assert(opp == if idx < h {
        idx + h
    } else {
        idx - h
    });
    assert(valid_domain(d, m));
    // the revealed points are a nonzero element and its negation
    assert(0 < d[idx].value < m);
    if idx < h {
        assert(d[idx + h].value == m - d[idx].value);
    } else {
        assert(d[(idx - h) + h].value == m - d[idx - h].value);
    }
    assert(layer.opposite_point.value == m - layer.point.value);
    // doubling a nonzero point cannot vanish in an odd modulus
    let pt = layer.point.value as int;
    if 2 * pt < m {
        vstd::arithmetic::div_mod::lemma_small_mod((2 * pt) as nat, m as nat);
    } else {
        vstd::arithmetic::div_mod::lemma_mod_add_multiples_vanish(2 * pt - m, m);
        vstd::arithmetic::div_mod::lemma_small_mod((2 * pt - m) as nat, m as nat);
        assert(2 * pt != m);
    }
    assert((2 * pt) % m != 0);
    // the leaf digests bind the revealed values
    assert(p.spec_trees()[j].leaves() == leaf_seq(p.spec_evals()[j]));
    assert(layer.merkle_proof.leaf_value@ == leaf_digest_of(layer.value.value));
    assert(layer.opposite_merkle_proof.leaf_value@ == leaf_digest_of(
        layer.opposite_value.value,
    ));
    // both inclusion paths reconstruct the committed root
    assert(p.spec_trees()[j].wf());
    assert(path_root(
        layer.merkle_proof.leaf_value@,
        idx,
        byte_views(layer.merkle_proof.sibling_hashes@),
    ) == vf.spec_roots()[j]);
    assert(path_root(
        layer.opposite_merkle_proof.leaf_value@,
        opp,
        byte_views(layer.opposite_merkle_proof.sibling_hashes@),
    ) == vf.spec_roots()[j]);
}


/// Against the answer of a faithfully committed prover, the verifier's
/// whole decision comes down to the folding identities alone: the answer is
/// accepted exactly when the recomputed fold of every layer meets the next
/// layer's value, ending at the terminal constant.
pub proof fn lemma_honest_answer_accepted_iff_folds(
    p: FRIProver,
    vf: FRIVerifier,
    q: int,
    proof: FRIQueryProof,
)
    requires
        p.committed_wf(),
        vf.spec_modulus() == p.spec_modulus(),
        vf.spec_roots() == p.spec_roots(),
        vf.spec_domain_size() == p.spec_domain().len(),
        query_proof_ok(p, q, proof),
        0 <= q < p.spec_domain().len(),
    ensures
        vf.accepted(q, proof) <==> (forall|j: int|
            0 <= j < vf.spec_roots().len() ==> vf.folding_ok(proof, j)),
{
    let rr = vf.spec_roots().len() as int;
    assert(proof.final_constant == p.spec_final());
    assert(proof.final_constant.modulus == vf.spec_modulus() && proof.final_constant.value
        < vf.spec_modulus());
    if forall|j: int| 0 <= j < rr ==> vf.folding_ok(proof, j) {
        assert forall|j: int| 0 <= j < rr implies vf.layer_accepted(q, proof, j) by {
            assert(vf.folding_ok(proof, j));
            lemma_honest_answer_reduces_to_folding(p, vf, q, proof, j);
        }
        assert(vf.accepted(q, proof));
    } else {
        let j = choose|j: int| 0 <= j < rr && !vf.folding_ok(proof, j);
        lemma_honest_answer_reduces_to_folding(p, vf, q, proof, j);
        assert(!vf.layer_accepted(q, proof, j));
        assert(!vf.accepted(q, proof));
    }
}


/// With Fermat inversion, the verifier's halving arithmetic undoes the
/// split: fed a point's pair of evaluations `ev + x*od` and `ev - x*od`, the
/// recomputed fold is `ev + alpha*od`.
#[verifier::rlimit(100)]
pub proof fn lemma_fold_components(ev: int, od: int, x: int, alpha: int, m: int)
    requires
        m >= 3,
        m % 2 == 1,
        fermat_inverses(m),
        0 < x < m,
        0 <= ev < m,
        0 <= od < m,
    ensures
        expected_fold((ev + x * od) % m, (ev + (m - x) * od) % m, x, alpha, m) == (ev + alpha
            * od) % m,
{
    let v = (ev + x * od) % m;
    let ov = (ev + (m - x) * od) % m;
    let inv2 = pow_mod(2, (m - 2) as nat, m);
    let denom = (2 * x) % m;
    let invd = pow_mod(denom, (m - 2) as nat, m);
    // the even component: (v + ov) / 2 == ev
    vstd::arithmetic::div_mod::lemma_add_mod_noop(ev + x * od, ev + (m - x) * od, m);
    assert((ev + x * od) + (ev + (m - x) * od) == m * od + 2 * ev) by (nonlinear_arith);
    vstd::arithmetic::div_mod::lemma_mod_multiples_vanish(od, 2 * ev, m);
    assert((v + ov) % m == (2 * ev) % m);
    crate::field::lemma_mod_mul_add(2 * ev, inv2, 0, m);
    assert(((v + ov) % m) * inv2 + 0 == ((2 * ev) % m) * inv2 + 0);
    assert((2 * ev) * inv2 == (2 * inv2) * ev) by (nonlinear_arith);
    crate::field::lemma_mod_mul_add(2 * inv2, ev, 0, m);
    assert((2 * inv2) % m == 1);
    vstd::arithmetic::div_mod::lemma_small_mod(ev as nat, m as nat);
    assert((((v + ov) % m) * inv2) % m == ev);
    // the doubled point is nonzero
    vstd::arithmetic::div_mod::lemma_mod_bound(2 * x, m);
    if 2 * x < m {
        vstd::arithmetic::div_mod::lemma_small_mod((2 * x) as nat, m as nat);
    } else {
        vstd::arithmetic::div_mod::lemma_mod_add_multiples_vanish(2 * x - m, m);
        vstd::arithmetic::div_mod::lemma_small_mod((2 * x - m) as nat, m as nat);
    }
    assert(denom != 0);
    // the odd component: (v - ov) / (2 * x) == od
    vstd::arithmetic::div_mod::lemma_sub_mod_noop(ev + x * od, ev + (m - x) * od, m);
    assert((ev + x * od) - (ev + (m - x) * od) == m * (-od) + (2 * x) * od) by (nonlinear_arith);
    vstd::arithmetic::div_mod::lemma_mod_multiples_vanish(-od, (2 * x) * od, m);
    assert((v - ov) % m == ((2 * x) * od) % m);
    crate::field::lemma_mod_mul_add((2 * x) * od, invd, 0, m);
    assert(((v - ov) % m) * invd + 0 == (((2 * x) * od) % m) * invd + 0);
    assert(((2 * x) * od) * invd == (2 * x) * (invd * od)) by (nonlinear_arith);
    crate::field::lemma_mod_mul_add(2 * x, invd * od, 0, m);
    assert(denom * (invd * od) == (denom * invd) * od) by (nonlinear_arith);
    crate::field::lemma_mod_mul_add(denom * invd, od, 0, m);
    assert((denom * invd) % m == 1);
    vstd::arithmetic::div_mod::lemma_small_mod(od as nat, m as nat);
    assert((((v - ov) % m) * invd) % m == od);
    // the recombination: ev + alpha * od
    crate::field::lemma_mod_mul_add(alpha * od, 1, ev, m);
    assert(((alpha * od) % m) * 1 == (alpha * od) % m);
    assert(alpha * od * 1 + ev == ev + alpha * od);
}


/// In a paired domain, the scheduled opposite position holds the negation
/// of the point at the scheduled position.
proof fn lemma_opposite_negates(d: Seq<FieldElement>, m: int, idx: int)
    requires
        valid_domain(d, m),
        d.len() >= 2,
        d.len() % 2 == 0,
        0 <= idx < d.len(),
    ensures
        0 <= (idx + d.len() / 2) % (d.len() as int) < d.len(),
        d[(idx + d.len() / 2) % (d.len() as int)].value == m - d[idx].value,
{
    let n = d.len() as int;
    let h = n / 2;
    if idx + h < n {
        vstd::arithmetic::div_mod::lemma_small_mod((idx + h) as nat, n as nat);
        assert(d[idx + h].value == m - d[idx].value);
    } else {
        vstd::arithmetic::div_mod::lemma_mod_add_multiples_vanish(idx + h - n, n);
        vstd::arithmetic::div_mod::lemma_small_mod((idx + h - n) as nat, n as nat);
        assert(d[(idx - h) + h].value == m - d[idx - h].value);
    }
}

/// The halved domain's scheduled position holds the square of the full
/// domain's scheduled point.
proof fn lemma_square_position(d: Seq<FieldElement>, m: int, q: int)
    requires
        valid_domain(d, m),
        d.len() >= 2,
        d.len() % 2 == 0,
        0 <= q,
    ensures
        squared_half(d, m)[q % (d.len() as int / 2)].value == (d[q % (d.len() as int)].value * d[
            q % (d.len() as int)
        ].value) % m,
        0 <= q % (d.len() as int / 2) < d.len() / 2,
{
    let n = d.len() as int;
    let h = n / 2;
    let idx = q % n;
    let idx2 = q % h;
    vstd::arithmetic::div_mod::lemma_mod_bound(q, n);
    vstd::arithmetic::div_mod::lemma_mod_bound(q, h);
    vstd::arithmetic::div_mod::lemma_mod_mod(q, h, 2);
    assert(n == h * 2);
    assert(idx % h == idx2);
    if idx < h {
        vstd::arithmetic::div_mod::lemma_small_mod(idx as nat, h as nat);
        assert(idx2 == idx);
    } else {
        vstd::arithmetic::div_mod::lemma_mod_add_multiples_vanish(idx - h, h);
        vstd::arithmetic::div_mod::lemma_small_mod((idx - h) as nat, h as nat);
        assert(idx2 == idx - h);
        let u = d[idx - h].value as int;
        assert(d[(idx - h) + h].value == m - u);
        crate::domain::lemma_neg_square(u, m);
        assert(squared_half(d, m)[idx2].value == (u * u) % m);
    }
}

/// Against the answer of a faithfully committed prover, the folding identity
/// of layer `j` does hold, granted Fermat inversion in the field: the
/// verifier's recomputed fold meets the next layer's value, or the terminal
/// constant at the last layer.
#[verifier::rlimit(100)]
pub proof fn lemma_honest_layer_folds(
    p: FRIProver,
    vf: FRIVerifier,
    q: int,
    proof: FRIQueryProof,
    j: int,
)
    requires
        p.committed_wf(),
        vf.spec_modulus() == p.spec_modulus(),
        vf.spec_roots() == p.spec_roots(),
        vf.spec_domain_size() == p.spec_domain().len(),
        vf.spec_challenges().len() == vf.spec_roots().len(),
        forall|k: int|
            0 <= k < vf.spec_challenges().len() ==> (#[trigger] vf.spec_challenges()[k]).value
                == challenge_value(vf.spec_roots(), k, vf.spec_modulus() as int),
        query_proof_ok(p, q, proof),
        0 <= q < p.spec_domain().len(),
        0 <= j < p.spec_roots().len(),
        fermat_inverses(p.spec_modulus() as int),
    ensures
        vf.folding_ok(proof, j),
{
    let m = p.spec_modulus() as int;
    let rr = p.spec_roots().len() as int;
    let s = p.spec_polys()[j].coeffs();
    let d = p.spec_domains()[j];
    let n = d.len() as int;
    let h = n / 2;
    let layer = proof.layer_proofs@[j];
    let idx = q % n;
    let opp = (idx + h) % n;
    vstd::arithmetic::div_mod::lemma_mod_bound(q, n);
    assert(valid_domain(d, m));
    let x = d[idx].value as int;
    assert(0 < x < m);
    lemma_opposite_negates(d, m, idx);
    assert(d[opp].value == m - x);
    // the two revealed values split into even and odd components at x^2
    let y = (x * x) % m;
    let ev = eval_poly(crate::polynomial::even_part(s), y, m);
    let od = eval_poly(crate::polynomial::odd_part(s), y, m);
    crate::polynomial::lemma_eval_split(s, x, m);
    assert(layer.value.value == eval_poly(s, x, m));
    assert(layer.value.value == (ev + x * od) % m);
    crate::domain::lemma_neg_square(x, m);
    crate::polynomial::lemma_eval_split(s, m - x, m);
    assert(layer.opposite_value.value == eval_poly(s, m - x, m));
    assert(layer.opposite_value.value == (ev + (m - x) * od) % m);
    crate::polynomial::lemma_eval_bound(crate::polynomial::even_part(s), y, m);
    crate::polynomial::lemma_eval_bound(crate::polynomial::odd_part(s), y, m);
    // the verifier's arithmetic recovers ev + alpha * od
    let alpha = vf.spec_challenges()[j].value as int;
    assert(alpha == p.spec_challenges()[j].value);
    lemma_fold_components(ev, od, x, alpha, m);
    assert(layer.point.value == x);
    let expected = expected_fold(
        layer.value.value as int,
        layer.opposite_value.value as int,
        x,
        alpha,
        m,
    );
    assert(expected == (ev + alpha * od) % m);
    // which is the next polynomial's value at x^2
    let cj = p.spec_challenges()[j];
    assert(p.spec_polys()[j + 1].coeffs() == trim_zeros(fold_seq(s, cj)));
    crate::polynomial::lemma_eval_fold(s, cj, y, m);
    crate::polynomial::lemma_eval_trim(fold_seq(s, cj), y, m);
    assert(eval_poly(p.spec_polys()[j + 1].coeffs(), y, m) == (ev + alpha * od) % m);
    if j < rr - 1 {
        // the next layer reveals exactly that value: its scheduled position
        // holds the square of this layer's point
        let d2 = p.spec_domains()[j + 1];
        assert(p.spec_domains()[(j - 1) + 2] == squared_half(d, m));
        assert(d2 == squared_half(d, m));
        assert(d2.len() == h);
        let idx2 = q % h;
        lemma_square_position(d, m, q);
        assert(d2[idx2].value == y);
        let next = proof.layer_proofs@[j + 1];
        assert(next.value == p.spec_evals()[j + 1][idx2]);
        assert(next.value.value == eval_poly(p.spec_polys()[j + 1].coeffs(), y, m));
        assert(expected == next.value.value);
    } else {
        // the last fold is the terminal constant polynomial
        let fs = p.spec_polys()[rr].coeffs();
        assert(degree_of(fs) == 0);
        if fs.len() == 0 {
            assert(eval_poly(fs, y, m) == 0);
            assert(p.spec_final().value == 0);
        } else {
            assert(fs.len() == 1);
            assert(fs.subrange(1, 1) =~= Seq::<FieldElement>::empty());
            assert(eval_poly(fs.subrange(1, fs.len() as int), y, m) == 0);
            assert(eval_poly(fs, y, m) == (0 * y + fs[0].value) % m);
            assert(p.spec_final().value == fs[0].value);
            assert(p.spec_final().value < m);
            vstd::arithmetic::div_mod::lemma_small_mod(fs[0].value as nat, m as nat);
        }
        assert(expected == p.spec_final().value);
        assert(proof.final_constant == p.spec_final());
    }
}

/// Completeness of one spot check: a faithfully committed prover's answer to
/// an in-range query is accepted by a verifier that holds the same roots and
/// re-derived challenges — granted Fermat inversion in the field, which is
/// true of every prime modulus by Fermat's little theorem and is stated here
/// as a hypothesis rather than derived from primality.
pub proof fn lemma_honest_answer_accepted(
    p: FRIProver,
    vf: FRIVerifier,
    q: int,
    proof: FRIQueryProof,
)
    requires
        p.committed_wf(),
        vf.spec_modulus() == p.spec_modulus(),
        vf.spec_roots() == p.spec_roots(),
        vf.spec_domain_size() == p.spec_domain().len(),
        vf.spec_challenges().len() == vf.spec_roots().len(),
        forall|k: int|
            0 <= k < vf.spec_challenges().len() ==> (#[trigger] vf.spec_challenges()[k]).value
                == challenge_value(vf.spec_roots(), k, vf.spec_modulus() as int),
        query_proof_ok(p, q, proof),
        0 <= q < p.spec_domain().len(),
        fermat_inverses(p.spec_modulus() as int),
    ensures
        vf.accepted(q, proof),
{
    let rr = vf.spec_roots().len() as int;
    assert forall|j: int| 0 <= j < rr implies vf.folding_ok(proof, j) by {
        lemma_honest_layer_folds(p, vf, q, proof, j);
    }
    lemma_honest_answer_accepted_iff_folds(p, vf, q, proof);
}

} // verus!
