//! The Fiat-Shamir transcript.
//!
//! A transcript absorbs the protocol's messages and squeezes verifier
//! challenges out of them.  Its whole state is the sequence of bytes absorbed
//! so far; a squeeze hashes that sequence, turns the digest into a field
//! element, and re-absorbs the digest, so that consecutive squeezes yield
//! fresh challenges.

use vstd::prelude::*;
use sha3::Digest;
use crate::field::{be_of, Fe};
use crate::modp::p;

verus! {

/// What the Keccak-256 sponge returns on a byte string; a pure function of
/// the input bytes, left unspecified.
pub uninterp spec fn keccak256_of(s: Seq<u8>) -> Seq<u8>;

/// Relies on `sha3::Keccak256::digest`: the Keccak-256 digest of the input,
/// 32 bytes, a function of the input bytes alone.
#[verifier::external_body]
fn keccak256(data: &Vec<u8>) -> (r: Vec<u8>)
    ensures
        r@ == keccak256_of(data@),
        r@.len() == 32,
{
    sha3::Keccak256::digest(data.as_slice()).to_vec()
}

/// A hash function usable by the transcript: it accumulates absorbed bytes
/// and can at any moment produce a digest of everything absorbed so far, as
/// a pure function of those bytes.
pub trait HashFunctionTrait: Sized {
    /// The bytes absorbed so far.
    spec fn absorbed(&self) -> Seq<u8>;

    /// The digest this hash assigns to a byte string.
    spec fn hash_of(s: Seq<u8>) -> Seq<u8>;

    /// Absorb more input.
    fn append(&mut self, data: &[u8])
        ensures
            final(self).absorbed() == old(self).absorbed() + data@,
    ;

    /// The digest of everything absorbed so far; the state is not disturbed.
    fn generate_hash(&self) -> (r: Vec<u8>)
        ensures
            r@ == Self::hash_of(self.absorbed()),
    ;
}

/// The Keccak-256 instance of [`HashFunctionTrait`]: it buffers the absorbed
/// bytes and digests the whole buffer on demand.
pub struct KeccakHasher {
    data: Vec<u8>,
}

impl KeccakHasher {
    /// A hasher that has absorbed nothing.
    pub fn new() -> (r: KeccakHasher)
        ensures
            r.absorbed() == Seq::<u8>::empty(),
    {
        KeccakHasher { data: Vec::new() }
    }
}

impl HashFunctionTrait for KeccakHasher {
    closed spec fn absorbed(&self) -> Seq<u8> {
        self.data@
    }

    open spec fn hash_of(s: Seq<u8>) -> Seq<u8> {
        keccak256_of(s)
    }

    fn append(&mut self, data: &[u8]) {
        let mut i: usize = 0;
        while i < data.len()
            invariant
                0 <= i <= data.len(),
                self.data@ =~= old(self).data@ + data@.subrange(0, i as int),
            decreases data.len() - i,
        {
            self.data.push(data[i]);
            i += 1;
        }
        proof {
            assert(self.data@ =~= old(self).data@ + data@);
        }
    }

    fn generate_hash(&self) -> (r: Vec<u8>) {
        keccak256(&self.data)
    }
}

/// The challenge a squeeze derives from a transcript state: the big-endian
/// value of the state's digest, reduced modulo `p`.
pub open spec fn squeeze_value<K: HashFunctionTrait>(s: Seq<u8>) -> int {
    be_of(K::hash_of(s)) % p()
}

/// The transcript state after `n` consecutive squeezes from state `s`: each
/// squeeze re-absorbs the digest it produced.
pub open spec fn squeeze_chain<K: HashFunctionTrait>(s: Seq<u8>, n: nat) -> Seq<u8>
    decreases n,
{
    if n == 0 {
        s
    } else {
        let t = squeeze_chain::<K>(s, (n - 1) as nat);
        t + K::hash_of(t)
    }
}

/// A Fiat-Shamir transcript over a pluggable hash function.
pub struct Transcript<K: HashFunctionTrait> {
    hash_function: K,
}

impl<K: HashFunctionTrait> Transcript<K> {
    /// The bytes this transcript has accumulated: every absorbed message and
    /// every re-absorbed digest, in order.
    pub closed spec fn state(&self) -> Seq<u8> {
        self.hash_function.absorbed()
    }

    /// A transcript over the given hash function.
    pub fn new(hash_function: K) -> (r: Self)
        ensures
            r.state() == hash_function.absorbed(),
    {
        Transcript { hash_function }
    }

    /// Append a protocol message to the transcript.
    pub fn absorb(&mut self, data: &[u8])
        ensures
            final(self).state() == old(self).state() + data@,
    {
        self.hash_function.append(data);
    }

    /// Derive one challenge: hash the state, re-absorb the digest, and map
    /// the digest to a field element by big-endian modular reduction.
    pub fn squeeze(&mut self) -> (r: Fe)
        ensures
            r.inv(),
            r@ == squeeze_value::<K>(old(self).state()),
            final(self).state() == old(self).state() + K::hash_of(old(self).state()),
    {
        let hash_output = self.hash_function.generate_hash();
        self.absorb(hash_output.as_slice());
        Fe::from_be_bytes(hash_output.as_slice())
    }

    /// Derive `n` challenges by `n` consecutive squeezes; each squeeze's
    /// re-absorption feeds the next.
    pub fn squeeze_iterator(&mut self, n: usize) -> (r: Vec<Fe>)
        ensures
            r@.len() == n,
            final(self).state() == squeeze_chain::<K>(old(self).state(), n as nat),
            forall|i: int|
                0 <= i < n ==> (#[trigger] r@[i]).inv() && r@[i]@ == squeeze_value::<K>(
                    squeeze_chain::<K>(old(self).state(), i as nat),
                ),
    {
        let ghost s0 = self.state();
        let mut out: Vec<Fe> = Vec::new();
        let mut i: usize = 0;
        while i < n
            invariant
                0 <= i <= n,
                out@.len() == i,
                self.state() == squeeze_chain::<K>(s0, i as nat),
                forall|j: int|
                    0 <= j < i ==> (#[trigger] out@[j]).inv() && out@[j]@ == squeeze_value::<K>(
                        squeeze_chain::<K>(s0, j as nat),
                    ),
            decreases n - i,
        {
            let c = self.squeeze();
            out.push(c);
            i += 1;
            proof {
                assert(self.state() == squeeze_chain::<K>(s0, i as nat));
            }
        }
        out
    }
}

/// Transcript determinism: a squeeze is a function of the absorbed bytes
/// alone, so two independently built transcripts that have absorbed
/// byte-identical sequences yield identical challenges, and stay identical
/// over any number of further squeezes.
pub proof fn lemma_transcript_determinism<K: HashFunctionTrait>(
    t1: Transcript<K>,
    t2: Transcript<K>,
    n: nat,
)
    requires
        t1.state() == t2.state(),
    ensures
        squeeze_value::<K>(t1.state()) == squeeze_value::<K>(t2.state()),
        squeeze_chain::<K>(t1.state(), n) == squeeze_chain::<K>(t2.state(), n),
{
}

} // verus!
