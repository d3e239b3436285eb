//! SHA-256 digests: the [`Hash`] value and the two ways of computing one.

use sha2::{Digest, Sha256};
use vstd::prelude::*;
use vstd::std_specs::cmp::PartialEqSpecImpl;

verus! {

/// A SHA-256 digest: 32 bytes, compared byte by byte.
#[derive(Clone, Copy, Debug)]
pub struct Hash(pub [u8; 32]);

impl View for Hash {
    type V = Seq<u8>;

    open spec fn view(&self) -> Seq<u8> {
        self.0@
    }
}

impl Hash {
    /// Wraps 32 raw bytes as a digest.
    pub fn new(bytes: [u8; 32]) -> (h: Hash)
        ensures
            h == Hash(bytes),
            h@ == bytes@,
    {
        Hash(bytes)
    }

    /// The digest's bytes.
    pub fn as_bytes(&self) -> (s: &[u8])
        ensures
            s@ == self@,
    {
        self.0.as_slice()
    }
}

impl Default for Hash {
    /// The all-zero digest.
    fn default() -> (h: Hash)
        ensures
            h@ == Seq::new(32, |i: int| 0u8),
    {
        let h = Hash([0u8; 32]);
        assert(h@ =~= Seq::new(32, |i: int| 0u8));
        h
    }
}

impl PartialEq for Hash {
    fn eq(&self, other: &Hash) -> (b: bool) {
        let mut i: usize = 0;
        while i < 32
            invariant
                i <= 32,
                forall|j: int| 0 <= j < i ==> self@[j] == other@[j],
            decreases 32 - i,
        {
            if self.0[i] != other.0[i] {
                return false;
            }
            i += 1;
        }
        assert(self@ =~= other@);
        true
    }
}

impl PartialEqSpecImpl for Hash {
    open spec fn obeys_eq_spec() -> bool {
        true
    }

    open spec fn eq_spec(&self, other: &Hash) -> bool {
        self@ == other@
    }
}

impl Eq for Hash {

}

/// The SHA-256 digest of a message.
pub uninterp spec fn sha256(data: Seq<u8>) -> Seq<u8>;

/// Two different messages with the same digest.
pub open spec fn collision(a: Seq<u8>, b: Seq<u8>) -> bool {
    a != b && sha256(a) == sha256(b)
}

/// Some two different messages have the same digest.
pub open spec fn sha256_collides() -> bool {
    exists|a: Seq<u8>, b: Seq<u8>| collision(a, b)
}

/// The bytes of `parts`, one part after the other.
pub open spec fn concat(parts: Seq<&[u8]>) -> Seq<u8>
    decreases parts.len(),
{
    if parts.len() == 0 {
        Seq::empty()
    } else {
        concat(parts.drop_last()) + parts.last()@
    }
}

/// The concatenation of two parts is the first followed by the second.
pub proof fn lemma_concat_pair(a: &[u8], b: &[u8])
    ensures
        concat(seq![a, b]) == a@ + b@,
{
    let parts = seq![a, b];
    assert(parts.drop_last() =~= seq![a]);
    assert(seq![a].drop_last() =~= Seq::<&[u8]>::empty());
    reveal_with_fuel(concat, 3);
    assert(concat(parts) =~= a@ + b@);
}

/// Calls `sha2::Sha256::digest` (the `Digest::digest` one-shot function) on
/// `data` and copies the 32-byte output into an array. The contract names the
/// result `sha256(data@)`: the digest is a function of the message alone.
#[verifier::external_body]
fn sha256_digest(data: &[u8]) -> (out: [u8; 32])
    ensures
        out@ == sha256(data@),
{
    Sha256::digest(data).into()
}

/// Returns the SHA-256 digest of `val`.
pub fn hash(val: &[u8]) -> (h: Hash)
    ensures
        h@ == sha256(val@),
{
    Hash(sha256_digest(val))
}

/// Returns the SHA-256 digest of the concatenation of `vals`.
pub fn hashv(vals: &[&[u8]]) -> (h: Hash)
    ensures
        h@ == sha256(concat(vals@)),
{
    let mut message: Vec<u8> = Vec::new();
    let mut i: usize = 0;
    while i < vals.len()
        invariant
            i <= vals.len(),
            message@ == concat(vals@.take(i as int)),
        decreases vals.len() - i,
    {
        let ghost before = message@;
        message.extend_from_slice(vals[i]);
        proof {
            assert(vals@.take(i + 1).drop_last() =~= vals@.take(i as int));
            assert(vals@.take(i + 1).last() == vals@[i as int]);
            assert(message@ =~= before + vals@[i as int]@);
        }
        i += 1;
    }
    assert(vals@.take(vals.len() as int) =~= vals@);
    hash(message.as_slice())
}

} // verus!
