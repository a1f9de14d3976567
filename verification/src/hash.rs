//! The 256-bit digest boundary: a single trusted wrapper around SHA-256 and
//! the byte-level helpers the commitment scheme and transcript build on.

use vstd::prelude::*;
use sha2::Digest;
use crate::field::FieldElement;

verus! {

/// The SHA-256 digest of `data`; a function of the input bytes alone.
pub uninterp spec fn sha256_of(data: Seq<u8>) -> Seq<u8>;

/// Relies on `sha2::Sha256` (through the `digest::Digest` convenience API):
/// the SHA-256 digest of `data`, always 32 bytes and depending on the input
/// bytes alone.
#[verifier::external_body]
pub fn sha256(data: &Vec<u8>) -> (r: Vec<u8>)
    ensures
        r@ == sha256_of(data@),
        r@.len() == 32,
{
    sha2::Sha256::digest(data.as_slice()).to_vec()
}

/// The eight little-endian bytes of a `u64`.
pub open spec fn u64_le_bytes(v: u64) -> Seq<u8> {
    seq![
        (v & 0xff) as u8,
        ((v >> 8) & 0xff) as u8,
        ((v >> 16) & 0xff) as u8,
        ((v >> 24) & 0xff) as u8,
        ((v >> 32) & 0xff) as u8,
        ((v >> 40) & 0xff) as u8,
        ((v >> 48) & 0xff) as u8,
        ((v >> 56) & 0xff) as u8,
    ]
}

/// Appends the eight little-endian bytes of `v` to `out`.
pub fn push_u64_le(out: &mut Vec<u8>, v: u64)
    ensures
        final(out)@ == old(out)@ + u64_le_bytes(v),
{
    out.push((v & 0xff) as u8);
    out.push(((v >> 8) & 0xff) as u8);
    out.push(((v >> 16) & 0xff) as u8);
    out.push(((v >> 24) & 0xff) as u8);
    out.push(((v >> 32) & 0xff) as u8);
    out.push(((v >> 40) & 0xff) as u8);
    out.push(((v >> 48) & 0xff) as u8);
    out.push(((v >> 56) & 0xff) as u8);
    proof {
        assert(out@ =~= old(out)@ + u64_le_bytes(v));
    }
}

/// The leaf digest that commits to one field-element evaluation: the SHA-256
/// digest of the value's eight little-endian bytes.
pub open spec fn leaf_digest_of(value: u64) -> Seq<u8> {
    sha256_of(u64_le_bytes(value))
}

/// Computes the leaf digest of one evaluation.
pub fn field_leaf_digest(e: &FieldElement) -> (r: Vec<u8>)
    ensures
        r@ == leaf_digest_of(e.value),
        r@.len() == 32,
{
    let mut bytes: Vec<u8> = Vec::new();
    push_u64_le(&mut bytes, e.value);
    proof {
        assert(bytes@ =~= u64_le_bytes(e.value));
    }
    sha256(&bytes)
}

/// The byte strings held by a sequence of byte vectors.
pub open spec fn byte_views(vs: Seq<Vec<u8>>) -> Seq<Seq<u8>> {
    Seq::new(vs.len(), |i: int| vs[i]@)
}

/// The byte strings held by each vector of a sequence of digest lists.
pub open spec fn digest_views(ls: Seq<Vec<Vec<u8>>>) -> Seq<Seq<Seq<u8>>> {
    Seq::new(ls.len(), |i: int| byte_views(ls[i]@))
}

/// Byte-for-byte equality of two byte strings.
pub fn bytes_equal(a: &Vec<u8>, b: &Vec<u8>) -> (r: bool)
    ensures
        r == (a@ == b@),
{
    if a.len() != b.len() {
        return false;
    }
    let n = a.len();
    let mut i: usize = 0;
    while i < n
        invariant
            i <= n,
            n == a@.len() == b@.len(),
            forall|j: int| 0 <= j < i ==> a@[j] == b@[j],
        decreases n - i,
    {
        if a[i] != b[i] {
            return false;
        }
        i = i + 1;
    }
    proof {
        assert(a@ =~= b@);
    }
    true
}

/// A copy of a byte string.
pub fn copy_bytes(a: &Vec<u8>) -> (r: Vec<u8>)
    ensures
        r@ == a@,
{
    let mut out: Vec<u8> = Vec::new();
    let n = a.len();
    let mut i: usize = 0;
    while i < n
        invariant
            i <= n,
            n == a@.len(),
            out@ == a@.take(i as int),
        decreases n - i,
    {
        out.push(a[i]);
        i = i + 1;
        proof {
            assert(out@ =~= a@.take(i as int));
        }
    }
    proof {
        assert(a@.take(n as int) == a@);
    }
    out
}

/// A copy of a list of byte strings.
pub fn copy_digests(v: &Vec<Vec<u8>>) -> (r: Vec<Vec<u8>>)
    ensures
        byte_views(r@) == byte_views(v@),
        r@.len() == v@.len(),
{
    let mut out: Vec<Vec<u8>> = Vec::new();
    let n = v.len();
    let mut i: usize = 0;
    while i < n
        invariant
            i <= n,
            n == v@.len(),
            out@.len() == i,
            byte_views(out@) == byte_views(v@).take(i as int),
        decreases n - i,
    {
        out.push(copy_bytes(&v[i]));
        i = i + 1;
        proof {
            assert(byte_views(out@) =~= byte_views(v@).take(i as int));
        }
    }
    proof {
        assert(byte_views(v@).take(n as int) =~= byte_views(v@));
    }
    out
}

/// The concatenation of two byte strings.
pub fn concat_bytes(a: &Vec<u8>, b: &Vec<u8>) -> (r: Vec<u8>)
    ensures
        r@ == a@ + b@,
{
    let mut out = copy_bytes(a);
    let n = b.len();
    let mut i: usize = 0;
    while i < n
        invariant
            i <= n,
            n == b@.len(),
            out@ == a@ + b@.take(i as int),
        decreases n - i,
    {
        out.push(b[i]);
        i = i + 1;
        proof {
            assert(out@ =~= a@ + b@.take(i as int));
        }
    }
    proof {
        assert(b@.take(n as int) == b@);
    }
    out
}

} // verus!
