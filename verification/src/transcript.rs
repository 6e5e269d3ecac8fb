//! The Fiat-Shamir transcript: a deterministic absorb/derive primitive.
//!
//! The state is the byte history absorbed so far.  Sampling hashes the whole
//! history with SHA-256, reduces the first half of the digest modulo the
//! field order, and absorbs the digest, so that every derived element is a
//! pure function of everything absorbed before it and successive samples
//! differ.  A transcript is created fresh for one proof session and never
//! shared across sessions.

use vstd::prelude::*;
use vstd::arithmetic::power2::{pow2, lemma_pow2_adds, lemma_pow2_strictly_increases, lemma2_to64};
use vstd::arithmetic::div_mod::lemma_small_mod;
use vstd::arithmetic::mul::{lemma_mul_inequality, lemma_mul_is_distributive_sub_other_way};
use sha2::Digest;
use crate::field::{Fp, FIELD_MODULUS, modulus};

verus! {

/// The SHA-256 digest of a byte sequence, a pure function of its input.
pub uninterp spec fn sha256_of(data: Seq<u8>) -> Seq<u8>;

/// Relies on sha2's `Sha256::digest`: the digest depends on the input bytes
/// alone and is exactly 32 bytes long.
#[verifier::external_body]
fn sha256(data: &Vec<u8>) -> (r: Vec<u8>)
    ensures
        r@ == sha256_of(data@),
        r@.len() == 32,
{
    sha2::Sha256::digest(data.as_slice()).to_vec()
}

/// A byte sequence read as a big-endian integer.
pub open spec fn be_bytes_to_nat(s: Seq<u8>) -> nat
    decreases s.len(),
{
    if s.len() == 0 {
        0
    } else {
        (be_bytes_to_nat(s.drop_last()) * 256 + s.last()) as nat
    }
}

/// The field element a digest reduces to: its first 16 bytes, read as a
/// big-endian integer, modulo the field order.
pub open spec fn challenge_of(digest: Seq<u8>) -> nat {
    be_bytes_to_nat(digest.take(16)) % modulus()
}

/// The uniform hash-to-field reduction applied to a digest.
fn reduce_digest(digest: &Vec<u8>) -> (r: u64)
    requires
        digest@.len() >= 16,
    ensures
        r as nat == challenge_of(digest@),
        r < FIELD_MODULUS,
{
    let mut acc: u128 = 0;
    let mut i: usize = 0;
    proof {
        assert(digest@.take(0) =~= Seq::<u8>::empty());
        lemma2_to64();
    }
    while i < 16
        invariant
            i <= 16,
            digest@.len() >= 16,
            acc as nat == be_bytes_to_nat(digest@.take(i as int)),
            acc < pow2(8 * i as nat),
        decreases 16 - i,
    {
        proof {
            lemma2_to64();
            lemma_pow2_adds(8 * i as nat, 8);
            lemma_pow2_adds(64, 64);
            if 8 * i as nat + 8 < 128 {
                lemma_pow2_strictly_increases(8 * i as nat + 8, 128);
            }
            lemma_mul_inequality(acc as int, (pow2(8 * i as nat) - 1) as int, 256);
            lemma_mul_is_distributive_sub_other_way(256, pow2(8 * i as nat) as int, 1);
            assert(digest@.take((i + 1) as int).drop_last() =~= digest@.take(i as int));
        }
        acc = acc * 256 + (digest[i] as u128);
        i = i + 1;
    }
    let r: u64 = (acc % (FIELD_MODULUS as u128)) as u64;
    r
}

/// A Fiat-Shamir transcript.  The view is the byte history absorbed so far.
#[derive(Debug)]
pub struct Transcript {
    data: Vec<u8>,
}

impl View for Transcript {
    type V = Seq<u8>;

    closed spec fn view(&self) -> Seq<u8> {
        self.data@
    }
}

impl Transcript {
    /// A fresh transcript with an empty absorbed history.
    pub fn new() -> (r: Transcript)
        ensures
            r@ == Seq::<u8>::empty(),
    {
        Transcript { data: Vec::new() }
    }

    /// Absorbs a byte sequence into the transcript state.
    pub fn append(&mut self, bytes: &Vec<u8>)
        ensures
            final(self)@ == old(self)@ + bytes@,
    {
        let mut i: usize = 0;
        proof {
            assert(self@ =~= old(self)@ + bytes@.take(0));
        }
        while i < bytes.len()
            invariant
                i <= bytes@.len(),
                self@ == old(self)@ + bytes@.take(i as int),
            decreases bytes@.len() - i,
        {
            self.data.push(bytes[i]);
            proof {
                assert(self@ =~= old(self)@ + bytes@.take((i + 1) as int));
            }
            i = i + 1;
        }
        proof {
            assert(old(self)@ + bytes@.take(bytes@.len() as int) =~= old(self)@ + bytes@);
        }
    }

    /// Derives the next field element deterministically from the absorbed
    /// history, and absorbs the digest it came from.
    pub fn sample_field_element(&mut self) -> (r: Fp)
        ensures
            final(self)@ == old(self)@ + sha256_of(old(self)@),
            r@ == challenge_of(sha256_of(old(self)@)),
    {
        let digest = sha256(&self.data);
        let c: u64 = reduce_digest(&digest);
        self.append(&digest);
        proof {
            lemma_small_mod(c as nat, modulus());
        }
        Fp::from_u64(c)
    }
}

} // verus!
