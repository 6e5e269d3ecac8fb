//! Exact arithmetic in a prime field, the coefficient domain of every
//! polynomial in this crate.
//!
//! An element is a residue modulo `FIELD_MODULUS`, a 31-bit prime, so every
//! operation fits comfortably in machine integers.  Each operation's contract
//! states the result as a residue (`fadd`, `fsub`, `fmul`), and the canonical
//! encoding is fixed-width big-endian, as wide as the modulus itself.

use vstd::prelude::*;
use vstd::arithmetic::div_mod::{lemma_small_mod, lemma_mod_multiples_vanish};

verus! {

/// The field modulus: `2^31 - 2^27 + 1`, a prime.
pub const FIELD_MODULUS: u64 = 2013265921;

/// Byte width of the canonical big-endian encoding of a field element
/// (the byte length of the modulus).
pub const ENCODED_LEN: usize = 4;

/// The modulus as a mathematical value.
pub open spec fn modulus() -> nat {
    FIELD_MODULUS as nat
}

/// Addition of residues.
pub open spec fn fadd(a: nat, b: nat) -> nat {
    (a + b) % modulus()
}

/// Subtraction of residues.
pub open spec fn fsub(a: nat, b: nat) -> nat {
    (((a + modulus()) - b) % (modulus() as int)) as nat
}

/// Multiplication of residues.
pub open spec fn fmul(a: nat, b: nat) -> nat {
    (a * b) % modulus()
}

/// An element of the prime field.  The view of an element is its residue,
/// always below `FIELD_MODULUS`.
#[derive(Clone, Copy, PartialEq, Eq, Structural, Debug)]
pub struct Fp {
    val: u64,
}

impl View for Fp {
    type V = nat;

    closed spec fn view(&self) -> nat {
        (self.val % FIELD_MODULUS) as nat
    }
}

/// Every field element's residue lies below the modulus.
pub broadcast proof fn lemma_fp_bounded(f: Fp)
    ensures
        #[trigger] f@ < modulus(),
{
}

impl Fp {
    /// The additive identity.
    pub fn zero() -> (r: Fp)
        ensures
            r@ == 0,
    {
        Fp { val: 0 }
    }

    /// The multiplicative identity.
    pub fn one() -> (r: Fp)
        ensures
            r@ == 1,
    {
        Fp { val: 1 }
    }

    /// The residue of an arbitrary machine integer.
    pub fn from_u64(v: u64) -> (r: Fp)
        ensures
            r@ == v % FIELD_MODULUS,
    {
        let r: u64 = v % FIELD_MODULUS;
        proof {
            lemma_small_mod(r as nat, modulus());
        }
        Fp { val: r }
    }

    /// Field addition.
    pub fn add(self, other: Fp) -> (r: Fp)
        ensures
            r@ == fadd(self@, other@),
    {
        let a: u64 = self.val % FIELD_MODULUS;
        let b: u64 = other.val % FIELD_MODULUS;
        let r: u64 = (a + b) % FIELD_MODULUS;
        proof {
            lemma_small_mod(r as nat, modulus());
        }
        Fp { val: r }
    }

    /// Field subtraction.
    pub fn sub(self, other: Fp) -> (r: Fp)
        ensures
            r@ == fsub(self@, other@),
    {
        let a: u64 = self.val % FIELD_MODULUS;
        let b: u64 = other.val % FIELD_MODULUS;
        let r: u64 = ((a + FIELD_MODULUS) - b) % FIELD_MODULUS;
        proof {
            lemma_small_mod(r as nat, modulus());
        }
        Fp { val: r }
    }

    /// Field multiplication.
    pub fn mul(self, other: Fp) -> (r: Fp)
        ensures
            r@ == fmul(self@, other@),
    {
        let a: u64 = self.val % FIELD_MODULUS;
        let b: u64 = other.val % FIELD_MODULUS;
        proof {
            assert(a * b <= 2013265920u64 * 2013265920u64) by (nonlinear_arith)
                requires
                    a <= 2013265920,
                    b <= 2013265920,
            ;
        }
        let r: u64 = (a * b) % FIELD_MODULUS;
        proof {
            lemma_small_mod(r as nat, modulus());
        }
        Fp { val: r }
    }

    /// Residue equality.
    pub fn equals(&self, other: &Fp) -> (r: bool)
        ensures
            r == (self@ == other@),
    {
        self.val % FIELD_MODULUS == other.val % FIELD_MODULUS
    }

    /// The canonical fixed-width big-endian encoding of an element.
    pub fn to_bytes_be(&self) -> (r: Vec<u8>)
        ensures
            r@ == encode_fp(self@),
    {
        let v: u64 = self.val % FIELD_MODULUS;
        let mut bytes: Vec<u8> = Vec::new();
        bytes.push(((v / 0x1000000) % 256) as u8);
        bytes.push(((v / 0x10000) % 256) as u8);
        bytes.push(((v / 0x100) % 256) as u8);
        bytes.push((v % 256) as u8);
        proof {
            assert(bytes@ =~= encode_fp(self@));
        }
        bytes
    }
}

/// The canonical encoding of a residue: four big-endian bytes.
pub open spec fn encode_fp(v: nat) -> Seq<u8> {
    seq![
        ((v / 0x1000000) % 256) as u8,
        ((v / 0x10000) % 256) as u8,
        ((v / 0x100) % 256) as u8,
        (v % 256) as u8,
    ]
}

/// A value below twice the modulus reduces either to itself or by one
/// subtraction of the modulus.
pub proof fn lemma_mod_below_twice_modulus(x: nat)
    requires
        x < 2 * modulus(),
    ensures
        x < modulus() ==> x % modulus() == x,
        x >= modulus() ==> x % modulus() == x - modulus(),
{
    if x < modulus() {
        lemma_small_mod(x, modulus());
    } else {
        lemma_mod_multiples_vanish(1, x - modulus(), modulus() as int);
        lemma_small_mod((x - modulus()) as nat, modulus());
    }
}

/// Adding back a subtracted residue restores the original residue.
pub proof fn lemma_fadd_fsub(a: nat, b: nat)
    requires
        a < modulus(),
        b < modulus(),
    ensures
        fadd(a, fsub(b, a)) == b,
{
    lemma_mod_below_twice_modulus((b + modulus() - a) as nat);
    let d = fsub(b, a);
    lemma_mod_below_twice_modulus((a + d) as nat);
}

/// Field addition is injective in its left operand.
pub proof fn lemma_fadd_injective(a1: nat, a2: nat, b: nat)
    requires
        a1 < modulus(),
        a2 < modulus(),
        b < modulus(),
        a1 != a2,
    ensures
        fadd(a1, b) != fadd(a2, b),
{
    lemma_mod_below_twice_modulus((a1 + b) as nat);
    lemma_mod_below_twice_modulus((a2 + b) as nat);
}

} // verus!
