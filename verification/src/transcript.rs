//! The Fiat-Shamir transcript: each round's challenge is the hash of every
//! Merkle root committed so far plus the round counter, reduced into the
//! field, so prover and verifier derive identical challenges from the same
//! commitments and no challenge is ever transmitted.

use vstd::prelude::*;
use crate::field::FieldElement;
use crate::hash::{sha256, sha256_of, u64_le_bytes, push_u64_le, byte_views};

verus! {

/// The concatenation of the first `n` root digests.
pub open spec fn concat_roots(roots: Seq<Seq<u8>>, n: int) -> Seq<u8>
    decreases n,
{
    if n <= 0 {
        Seq::empty()
    } else {
        concat_roots(roots, n - 1) + roots[n - 1]
    }
}

/// The bytes hashed for the round-`i` challenge: roots `0..=i` in order,
/// then the eight little-endian bytes of the round counter.
pub open spec fn challenge_bytes(roots: Seq<Seq<u8>>, i: int) -> Seq<u8> {
    concat_roots(roots, i + 1) + u64_le_bytes(i as u64)
}

/// A 256-bit digest folded into a residue modulo `m`, most significant byte
/// first: `acc -> acc * 256 + byte (mod m)`.
pub open spec fn digest_mod(d: Seq<u8>, m: int) -> int
    decreases d.len(),
{
    if m <= 0 {
        0
    } else if d.len() == 0 {
        0
    } else {
        (digest_mod(d.drop_last(), m) * 256 + d.last()) % m
    }
}

/// The round-`i` challenge value: the transcript digest reduced into the
/// field of modulus `m`.
pub open spec fn challenge_value(roots: Seq<Seq<u8>>, i: int, m: int) -> int {
    digest_mod(sha256_of(challenge_bytes(roots, i)), m)
}

/// Concatenation of the first `n` roots only reads those roots.
proof fn lemma_concat_prefix(r1: Seq<Seq<u8>>, r2: Seq<Seq<u8>>, n: int)
    requires
        n <= r1.len(),
        r1.len() <= r2.len(),
        forall|k: int| 0 <= k < r1.len() ==> r1[k] == r2[k],
    ensures
        concat_roots(r1, n) == concat_roots(r2, n),
    decreases n,
{
    if n > 0 {
        lemma_concat_prefix(r1, r2, n - 1);
    }
}

/// A round's challenge only reads the roots up to that round, so appending
/// later commitments never changes it.
pub proof fn lemma_challenge_prefix(r1: Seq<Seq<u8>>, r2: Seq<Seq<u8>>, i: int, m: int)
    requires
        0 <= i < r1.len(),
        r1.len() <= r2.len(),
        forall|k: int| 0 <= k < r1.len() ==> r1[k] == r2[k],
    ensures
        challenge_value(r1, i, m) == challenge_value(r2, i, m),
{
    lemma_concat_prefix(r1, r2, i + 1);
}

/// Transcript determinism: the challenge of every round is a function of the
/// committed root sequence and the field modulus alone, so two independent
/// derivations over the same roots agree at every round.
pub proof fn lemma_transcript_deterministic(
    roots_a: Seq<Seq<u8>>,
    roots_b: Seq<Seq<u8>>,
    i: int,
    m: int,
)
    requires
        roots_a == roots_b,
    ensures
        challenge_value(roots_a, i, m) == challenge_value(roots_b, i, m),
{
}

/// Derives the round-`i` challenge from the committed roots: hash their
/// concatenation plus the round counter, then fold the digest into the field.
pub fn derive_challenge(roots: &Vec<Vec<u8>>, i: usize, modulus: u64) -> (r: FieldElement)
    requires
        i < roots@.len(),
        modulus >= 2,
    ensures
        r.wf(),
        r.modulus == modulus,
        r.value == challenge_value(byte_views(roots@), i as int, modulus as int),
{
    let ghost rv = byte_views(roots@);
    let nroots = roots.len();
    let stop = i + 1;
    let mut bytes: Vec<u8> = Vec::new();
    let mut j: usize = 0;
    while j < stop
        invariant
            j <= stop,
            stop == i + 1,
            i < roots@.len(),
            rv == byte_views(roots@),
            bytes@ == concat_roots(rv, j as int),
        decreases stop - j,
    {
        let ghost before = bytes@;
        let mut k: usize = 0;
        let n = roots[j].len();
        while k < n
            invariant
                k <= n,
                j < roots@.len(),
                n == roots@[j as int]@.len(),
                rv == byte_views(roots@),
                bytes@ == before + roots@[j as int]@.take(k as int),
            decreases n - k,
        {
            bytes.push(roots[j][k]);
            k = k + 1;
            proof {
                assert(bytes@ =~= before + roots@[j as int]@.take(k as int));
            }
        }
        proof {
            assert(roots@[j as int]@.take(n as int) == roots@[j as int]@);
            assert(rv[j as int] == roots@[j as int]@);
            assert(bytes@ =~= concat_roots(rv, j as int + 1));
        }
        j = j + 1;
    }
    push_u64_le(&mut bytes, i as u64);
    proof {
        assert(bytes@ == challenge_bytes(rv, i as int));
    }
    let digest = sha256(&bytes);
    let ghost d = digest@;
    let m128: u128 = modulus as u128;
    let mut acc: u128 = 0;
    let mut k: usize = 0;
    let dn = digest.len();
    while k < dn
        invariant
            k <= dn,
            dn == d.len(),
            d == digest@,
            modulus >= 2,
            m128 == modulus as u128,
            acc < m128,
            acc == digest_mod(d.take(k as int), modulus as int),
        decreases dn - k,
    {
        let b = digest[k];
        let next: u128 = (acc * 256 + b as u128) % m128;
        proof {
            let t = d.take(k as int + 1);
            assert(t.drop_last() =~= d.take(k as int));
            assert(t.last() == d[k as int]);
            vstd::arithmetic::div_mod::lemma_mod_bound(
                (acc * 256 + b) as int,
                m128 as int,
            );
        }
        acc = next;
        k = k + 1;
    }
    proof {
        assert(d.take(dn as int) == d);
        vstd::arithmetic::div_mod::lemma_small_mod(acc as nat, modulus as nat);
    }
    FieldElement { value: (acc as u64) % modulus, modulus }
}

/// Derives the challenges for rounds `0..count` from the committed roots.
pub fn derive_challenges(roots: &Vec<Vec<u8>>, count: usize, modulus: u64) -> (r: Vec<
    FieldElement,
>)
    requires
        count <= roots@.len(),
        modulus >= 2,
    ensures
        r@.len() == count,
        forall|i: int|
            0 <= i < count ==> (#[trigger] r@[i]).wf() && r@[i].modulus == modulus
                && r@[i].value == challenge_value(byte_views(roots@), i, modulus as int),
{
    let mut out: Vec<FieldElement> = Vec::new();
    let mut i: usize = 0;
    while i < count
        invariant
            i <= count,
            count <= roots@.len(),
            modulus >= 2,
            out@.len() == i,
            forall|j: int|
                0 <= j < i ==> (#[trigger] out@[j]).wf() && out@[j].modulus == modulus
                    && out@[j].value == challenge_value(byte_views(roots@), j, modulus as int),
        decreases count - i,
    {
        let c = derive_challenge(roots, i, modulus);
        out.push(c);
        i = i + 1;
    }
    out
}

} // verus!
