//! Field elements of the BN254 base field.
//!
//! An [`Fe`] holds the canonical 32-byte big-endian encoding of a residue
//! modulo [`p`].  Its mathematical view is that residue, so contracts speak
//! of plain integers; the arithmetic itself is carried out by `ark-bn254`
//! behind trusted wrappers from bytes to bytes.

use vstd::prelude::*;
use vstd::arithmetic::div_mod::{lemma_fundamental_div_mod, lemma_fundamental_div_mod_converse};
use vstd::arithmetic::mul::lemma_mul_inequality;
use vstd::arithmetic::power2::{lemma2_to64, lemma_pow2_adds, pow2};
use ark_ff::{BigInteger, Field, PrimeField};
use crate::modp::{addp, in_field, mulp, p, subp};

verus! {

broadcast use vstd::array::group_array_axioms;

/// The integer a byte string denotes in big-endian order.
pub open spec fn be_of(s: Seq<u8>) -> int
    decreases s.len(),
{
    if s.len() == 0 {
        0
    } else {
        be_of(s.drop_last()) * 256 + s.last()
    }
}

/// The `n`-byte big-endian encoding of `v` (modulo `2^(8n)`).
pub open spec fn be_enc(v: int, n: nat) -> Seq<u8>
    decreases n,
{
    if n == 0 {
        Seq::empty()
    } else {
        be_enc(v / 256, (n - 1) as nat).push((v % 256) as u8)
    }
}

/// The canonical 32-byte encoding of a residue.
pub open spec fn enc32(v: int) -> Seq<u8> {
    be_enc(v, 32)
}

pub proof fn lemma_be_of_bound(s: Seq<u8>)
    ensures
        0 <= be_of(s) < pow2(8 * s.len()),
    decreases s.len(),
{
    if s.len() == 0 {
        assert(pow2(0) == 1) by {
            vstd::arithmetic::power2::lemma_pow2_unfold(1);
            vstd::arithmetic::power2::lemma_pow2_pos(1);
            lemma2_to64();
        };
    } else {
        let pre = s.drop_last();
        lemma_be_of_bound(pre);
        assert(pow2(8) == 256) by {
            lemma2_to64();
        };
        lemma_pow2_adds(8 * pre.len(), 8);
        assert(be_of(pre) * 256 <= (pow2(8 * pre.len()) - 1) * 256) by {
            lemma_mul_inequality(be_of(pre), pow2(8 * pre.len()) - 1, 256);
        };
        assert((pow2(8 * pre.len()) - 1) * 256 == pow2(8 * pre.len()) * 256 - 256) by {
            vstd::arithmetic::mul::lemma_mul_is_distributive_sub_other_way(
                256,
                pow2(8 * pre.len()) as int,
                1,
            );
        };
    }
}

pub proof fn lemma_be_enc_len(v: int, n: nat)
    ensures
        be_enc(v, n).len() == n,
    decreases n,
{
    if n > 0 {
        lemma_be_enc_len(v / 256, (n - 1) as nat);
    }
}

/// Every byte string is the encoding of its own value: the big-endian
/// encoding at a fixed width is canonical.
pub proof fn lemma_be_canonical(s: Seq<u8>)
    ensures
        s =~= be_enc(be_of(s), s.len()),
    decreases s.len(),
{
    if s.len() > 0 {
        let pre = s.drop_last();
        let v = be_of(s);
        lemma_be_of_bound(pre);
        assert(v == 256 * be_of(pre) + s.last());
        assert(v / 256 == be_of(pre) && v % 256 == s.last()) by {
            lemma_fundamental_div_mod_converse(v, 256, be_of(pre), s.last() as int);
        };
        lemma_be_canonical(pre);
        lemma_be_enc_len(v / 256, (s.len() - 1) as nat);
    }
}

/// Byte strings of one length with the same value are the same string.
pub proof fn lemma_be_of_injective(s1: Seq<u8>, s2: Seq<u8>)
    requires
        s1.len() == s2.len(),
        be_of(s1) == be_of(s2),
    ensures
        s1 =~= s2,
{
    lemma_be_canonical(s1);
    lemma_be_canonical(s2);
}

/// An element of the BN254 base field, held as the canonical 32-byte
/// big-endian encoding of its residue.
#[derive(Clone, Copy, Debug, PartialEq, Eq)]
pub struct Fe {
    bytes: [u8; 32],
}

impl View for Fe {
    type V = int;

    closed spec fn view(&self) -> int {
        be_of(self.bytes@)
    }
}

impl Fe {
    /// A well-formed element: its bytes encode a residue in `[0, p)`.
    pub open spec fn inv(self) -> bool {
        in_field(self@)
    }

    /// The raw encoding, as specifications see it.
    pub closed spec fn byte_seq(self) -> Seq<u8> {
        self.bytes@
    }

    /// A well-formed element's bytes are the canonical encoding of its value.
    pub proof fn lemma_canonical(self)
        ensures
            self.byte_seq() == enc32(self@),
    {
        lemma_be_canonical(self.bytes@);
    }

    /// The residue of a machine integer.
    pub fn from_u64(v: u64) -> (r: Fe)
        ensures
            r.inv(),
            r@ == v as int,
    {
        fq_from_u64(v)
    }

    /// The zero of the field.
    pub fn zero() -> (r: Fe)
        ensures
            r.inv(),
            r@ == 0,
    {
        Fe::from_u64(0)
    }

    /// The one of the field.
    pub fn one() -> (r: Fe)
        ensures
            r.inv(),
            r@ == 1,
    {
        Fe::from_u64(1)
    }

    /// The residue of the big-endian value of an arbitrary byte string.
    pub fn from_be_bytes(bytes: &[u8]) -> (r: Fe)
        ensures
            r.inv(),
            r@ == be_of(bytes@) % p(),
    {
        fq_from_be_bytes(bytes)
    }

    /// Field addition.
    pub fn add(&self, other: &Fe) -> (r: Fe)
        requires
            self.inv(),
            other.inv(),
        ensures
            r.inv(),
            r@ == addp(self@, other@),
    {
        fq_add(self, other)
    }

    /// Field subtraction.
    pub fn sub(&self, other: &Fe) -> (r: Fe)
        requires
            self.inv(),
            other.inv(),
        ensures
            r.inv(),
            r@ == subp(self@, other@),
    {
        fq_sub(self, other)
    }

    /// Field multiplication.
    pub fn mul(&self, other: &Fe) -> (r: Fe)
        requires
            self.inv(),
            other.inv(),
        ensures
            r.inv(),
            r@ == mulp(self@, other@),
    {
        fq_mul(self, other)
    }

    /// The multiplicative inverse; `None` exactly on zero.
    pub fn inverse(&self) -> (r: Option<Fe>)
        requires
            self.inv(),
        ensures
            (r is Some) <==> self@ != 0,
            r is Some ==> (r->0).inv() && mulp(self@, (r->0)@) == 1,
    {
        fq_inverse(self)
    }

    /// The canonical 32-byte big-endian encoding.
    pub fn to_bytes(&self) -> (r: Vec<u8>)
        ensures
            r@ == self.byte_seq(),
    {
        let mut out: Vec<u8> = Vec::new();
        let mut i: usize = 0;
        while i < 32
            invariant
                0 <= i <= 32,
                out@ =~= self.bytes@.subrange(0, i as int),
            decreases 32 - i,
        {
            out.push(self.bytes[i]);
            i += 1;
        }
        proof {
            assert(out@ =~= self.bytes@);
        }
        out
    }

    /// Field equality, decided on the canonical encodings.
    pub fn equals(&self, other: &Fe) -> (r: bool)
        ensures
            r == (self@ == other@),
    {
        let mut i: usize = 0;
        while i < 32
            invariant
                0 <= i <= 32,
                forall|j: int| 0 <= j < i ==> self.bytes@[j] == other.bytes@[j],
            decreases 32 - i,
        {
            if self.bytes[i] != other.bytes[i] {
                proof {
                    if self@ == other@ {
                        lemma_be_of_injective(self.bytes@, other.bytes@);
                    }
                }
                return false;
            }
            i += 1;
        }
        proof {
            assert(self.bytes@ =~= other.bytes@);
        }
        true
    }
}

/// Relies on `ark_bn254::Fq::from(u64)` and the canonical big-endian encoding
/// `into_bigint().to_bytes_be()` of `ark-ff`, which is always 32 bytes and
/// holds the residue of the input.
#[verifier::external_body]
fn fq_from_u64(v: u64) -> (r: Fe)
    ensures
        r.inv(),
        r@ == v as int,
{
    let e = ark_bn254::Fq::from(v);
    Fe { bytes: e.into_bigint().to_bytes_be().try_into().unwrap() }
}

/// Relies on `ark_ff::PrimeField::from_be_bytes_mod_order`: the big-endian
/// value of the input, reduced modulo the field order.
#[verifier::external_body]
fn fq_from_be_bytes(bytes: &[u8]) -> (r: Fe)
    ensures
        r.inv(),
        r@ == be_of(bytes@) % p(),
{
    let e = ark_bn254::Fq::from_be_bytes_mod_order(bytes);
    Fe { bytes: e.into_bigint().to_bytes_be().try_into().unwrap() }
}

/// Relies on field addition of `ark_bn254::Fq`: addition modulo the prime,
/// with decode and encode through the canonical big-endian form.
#[verifier::external_body]
fn fq_add(a: &Fe, b: &Fe) -> (r: Fe)
    requires
        a.inv(),
        b.inv(),
    ensures
        r.inv(),
        r@ == addp(a@, b@),
{
    let x = ark_bn254::Fq::from_be_bytes_mod_order(&a.bytes);
    let y = ark_bn254::Fq::from_be_bytes_mod_order(&b.bytes);
    Fe { bytes: (x + y).into_bigint().to_bytes_be().try_into().unwrap() }
}

/// Relies on field subtraction of `ark_bn254::Fq`: subtraction modulo the
/// prime, with decode and encode through the canonical big-endian form.
#[verifier::external_body]
fn fq_sub(a: &Fe, b: &Fe) -> (r: Fe)
    requires
        a.inv(),
        b.inv(),
    ensures
        r.inv(),
        r@ == subp(a@, b@),
{
    let x = ark_bn254::Fq::from_be_bytes_mod_order(&a.bytes);
    let y = ark_bn254::Fq::from_be_bytes_mod_order(&b.bytes);
    Fe { bytes: (x - y).into_bigint().to_bytes_be().try_into().unwrap() }
}

/// Relies on field multiplication of `ark_bn254::Fq`: multiplication modulo
/// the prime, with decode and encode through the canonical big-endian form.
#[verifier::external_body]
fn fq_mul(a: &Fe, b: &Fe) -> (r: Fe)
    requires
        a.inv(),
        b.inv(),
    ensures
        r.inv(),
        r@ == mulp(a@, b@),
{
    let x = ark_bn254::Fq::from_be_bytes_mod_order(&a.bytes);
    let y = ark_bn254::Fq::from_be_bytes_mod_order(&b.bytes);
    Fe { bytes: (x * y).into_bigint().to_bytes_be().try_into().unwrap() }
}

/// Relies on `ark_ff::Field::inverse`: the multiplicative inverse of a
/// non-zero element, `None` on zero.
#[verifier::external_body]
fn fq_inverse(a: &Fe) -> (r: Option<Fe>)
    requires
        a.inv(),
    ensures
        (r is Some) <==> a@ != 0,
        r is Some ==> (r->0).inv() && mulp(a@, (r->0)@) == 1,
{
    let x = ark_bn254::Fq::from_be_bytes_mod_order(&a.bytes);
    x.inverse().map(|y| Fe { bytes: y.into_bigint().to_bytes_be().try_into().unwrap() })
}

/// The integer views of a sequence of field elements.
pub open spec fn vals(s: Seq<Fe>) -> Seq<int> {
    s.map_values(|e: Fe| e@)
}

/// Every element of the sequence is well formed.
pub open spec fn all_inv(s: Seq<Fe>) -> bool {
    forall|i: int| 0 <= i < s.len() ==> (#[trigger] s[i]).inv()
}

/// The concatenated canonical encodings of a sequence of field elements.
pub open spec fn fes_bytes(s: Seq<Fe>) -> Seq<u8>
    decreases s.len(),
{
    if s.len() == 0 {
        Seq::empty()
    } else {
        fes_bytes(s.drop_last()) + s.last().byte_seq()
    }
}

/// The concatenated canonical encodings of a sequence of residues.
pub open spec fn vals_bytes(vs: Seq<int>) -> Seq<u8>
    decreases vs.len(),
{
    if vs.len() == 0 {
        Seq::empty()
    } else {
        vals_bytes(vs.drop_last()) + enc32(vs.last())
    }
}

/// The bytes of a sequence of elements are determined by their values alone.
pub proof fn lemma_fes_bytes_canonical(s: Seq<Fe>)
    ensures
        fes_bytes(s) == vals_bytes(vals(s)),
    decreases s.len(),
{
    if s.len() == 0 {
        assert(vals(s).len() == 0);
    } else {
        assert(vals(s).drop_last() =~= vals(s.drop_last()));
        assert(vals(s).last() == s.last()@);
        lemma_fes_bytes_canonical(s.drop_last());
        s.last().lemma_canonical();
    }
}

} // verus!
