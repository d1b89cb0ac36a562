//! 32-byte Blake2b digests, the hashes by which tries are stored and proved.
use vstd::prelude::*;

use crate::bytesrepr::{Error, FromBytes, ToBytes};
use blake2::digest::{Update, VariableOutput};
use blake2::VarBlake2b;

verus! {

/// The number of bytes in a digest.
pub const BLAKE2B_DIGEST_LENGTH: usize = 32;

/// The Blake2b digest, 32 bytes long, of `data`.
pub uninterp spec fn blake2b_digest(data: Seq<u8>) -> Seq<u8>;

/// Computes the Blake2b digest of `data` with blake2's `VarBlake2b` set to a
/// 32-byte output. The contract claims only that the result is the named
/// digest of `data` (a fixed function of the bytes), and that it has 32 bytes.
#[verifier::external_body]
fn blake2b_256(data: &[u8]) -> (r: [u8; 32])
    ensures
        r@ == blake2b_digest(data@),
{
    let mut ret = [0u8; 32];
    let mut hasher = VarBlake2b::new(BLAKE2B_DIGEST_LENGTH).unwrap();
    hasher.update(data);
    hasher.finalize_variable(|hash| ret.clone_from_slice(hash));
    ret
}

/// A Blake2b digest of 32 bytes.
#[derive(Debug, Clone, Copy, PartialEq, Eq)]
pub struct Blake2bHash(pub [u8; 32]);

impl DeepView for Blake2bHash {
    type V = Seq<u8>;

    open spec fn deep_view(&self) -> Seq<u8> {
        self.0@
    }
}

impl View for Blake2bHash {
    type V = Seq<u8>;

    open spec fn view(&self) -> Seq<u8> {
        self.0@
    }
}

impl Blake2bHash {
    /// The digest of `data`.
    pub fn new(data: &[u8]) -> (h: Blake2bHash)
        ensures
            h@ == blake2b_digest(data@),
    {
        Blake2bHash(blake2b_256(data))
    }

    /// Whether two digests hold the same bytes.
    pub fn same_as(&self, other: &Blake2bHash) -> (r: bool)
        ensures
            r == (self@ == other@),
    {
        let mut i: usize = 0;
        while i < 32
            invariant
                0 <= i <= 32,
                forall|j: int| 0 <= j < i ==> self.0@[j] == other.0@[j],
            decreases 32 - i,
        {
            if self.0[i] != other.0[i] {
                return false;
            }
            i = i + 1;
        }
        assert(self.0@ =~= other.0@);
        true
    }
}

/// The digest of two digests written one after the other.
pub open spec fn spec_hash_pair(a: Seq<u8>, b: Seq<u8>) -> Seq<u8> {
    blake2b_digest(a + b)
}

/// The digest of `a` followed by `b`.
pub fn hash_pair(a: &Blake2bHash, b: &Blake2bHash) -> (h: Blake2bHash)
    ensures
        h@ == spec_hash_pair(a@, b@),
{
    let mut buf: Vec<u8> = Vec::new();
    a.write_bytes(&mut buf);
    b.write_bytes(&mut buf);
    assert(buf@ =~= a@ + b@);
    Blake2bHash::new(buf.as_slice())
}

impl ToBytes for Blake2bHash {
    open spec fn spec_valid(v: Seq<u8>) -> bool {
        v.len() == 32
    }

    open spec fn spec_bytes(v: Seq<u8>) -> Seq<u8> {
        v
    }

    proof fn lemma_valid(&self) {
    }

    proof fn lemma_nonempty(v: Seq<u8>) {
    }

    fn write_bytes(&self, buf: &mut Vec<u8>) {
        let ghost start = buf@;
        let mut i: usize = 0;
        while i < 32
            invariant
                0 <= i <= 32,
                buf@ == start + self.0@.take(i as int),
            decreases 32 - i,
        {
            buf.push(self.0[i]);
            assert(self.0@.take(i + 1) =~= self.0@.take(i as int).push(self.0@[i as int]));
            i = i + 1;
        }
        assert(self.0@.take(32) =~= self.0@);
    }

    fn serialized_length(&self) -> (n: usize) {
        32
    }
}

impl FromBytes for Blake2bHash {
    open spec fn spec_parse(bytes: Seq<u8>) -> Result<(Seq<u8>, nat), Error> {
        if bytes.len() < 32 {
            Err(Error::EarlyEndOfStream)
        } else {
            Ok((bytes.take(32), 32))
        }
    }

    proof fn lemma_parse_bound(bytes: Seq<u8>) {
    }

    proof fn lemma_roundtrip(v: Seq<u8>, rest: Seq<u8>) {
        assert((v + rest).take(32) =~= v);
    }

    fn from_bytes(bytes: &[u8]) -> (r: Result<(Blake2bHash, &[u8]), Error>) {
        if bytes.len() < 32 {
            return Err(Error::EarlyEndOfStream);
        }
        let mut arr = [0u8; 32];
        let mut i: usize = 0;
        while i < 32
            invariant
                0 <= i <= 32,
                bytes@.len() >= 32,
                forall|j: int| 0 <= j < i ==> arr@[j] == bytes@[j],
            decreases 32 - i,
        {
            arr[i] = bytes[i];
            i = i + 1;
        }
        assert(arr@ =~= bytes@.take(32));
        let rem = &bytes[32..bytes.len()];
        assert(rem@ =~= bytes@.skip(32));
        Ok((Blake2bHash(arr), rem))
    }
}

} // verus!
