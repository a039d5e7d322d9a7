//! Arithmetic of residues modulo the BN254 base-field prime.
//!
//! Every quantity the protocol manipulates is an integer in `[0, p)`.  The
//! spec functions here define the field operations on those residues, and the
//! lemmas establish the algebraic identities the sum-check argument rests on.

use vstd::prelude::*;
use vstd::arithmetic::div_mod::{
    lemma_add_mod_noop, lemma_add_mod_noop_right, lemma_mod_add_multiples_vanish,
    lemma_mod_bound, lemma_mod_multiples_vanish, lemma_mod_self_0, lemma_mul_mod_noop_general,
    lemma_small_mod,
};
use vstd::arithmetic::mul::{lemma_mul_is_distributive_add, lemma_mul_is_distributive_sub};

verus! {

/// The BN254 base-field modulus; all protocol arithmetic is modulo this prime.
pub open spec fn p() -> int {
    21888242871839275222246405745257275088696311157297823662689037894645226208583int
}

/// A residue: an integer already reduced modulo `p`.
pub open spec fn in_field(a: int) -> bool {
    0 <= a < p()
}

/// Addition modulo `p`.
pub open spec fn addp(a: int, b: int) -> int {
    (a + b) % p()
}

/// Subtraction modulo `p`, stated over an offset that keeps the numerator
/// non-negative for residue arguments.
pub open spec fn subp(a: int, b: int) -> int {
    (a + p() - b) % p()
}

/// Multiplication modulo `p`.
pub open spec fn mulp(a: int, b: int) -> int {
    (a * b) % p()
}

/// The affine combination `(1 - v) * a + v * b` modulo `p`: the value at `v`
/// of the line through `(0, a)` and `(1, b)`.
pub open spec fn aff(v: int, a: int, b: int) -> int {
    addp(mulp(subp(1, v), a), mulp(v, b))
}

/// Sum of a sequence of residues, modulo `p`.
pub open spec fn sump(s: Seq<int>) -> int
    decreases s.len(),
{
    if s.len() == 0 {
        0
    } else {
        addp(sump(s.drop_last()), s.last())
    }
}

/// Every residue sequence: each entry lies in `[0, p)`.
pub open spec fn all_in_field(s: Seq<int>) -> bool {
    forall|i: int| 0 <= i < s.len() ==> in_field(#[trigger] s[i])
}

pub proof fn lemma_addp_in_field(a: int, b: int)
    ensures
        in_field(addp(a, b)),
{
    lemma_mod_bound(a + b, p());
}

pub proof fn lemma_subp_in_field(a: int, b: int)
    ensures
        in_field(subp(a, b)),
{
    lemma_mod_bound(a + p() - b, p());
}

pub proof fn lemma_mulp_in_field(a: int, b: int)
    ensures
        in_field(mulp(a, b)),
{
    lemma_mod_bound(a * b, p());
}

pub proof fn lemma_sump_in_field(s: Seq<int>)
    ensures
        in_field(sump(s)),
    decreases s.len(),
{
    if s.len() == 0 {
    } else {
        lemma_addp_in_field(sump(s.drop_last()), s.last());
    }
}

/// A residue is its own remainder.
pub proof fn lemma_mod_noop_small(a: int)
    requires
        in_field(a),
    ensures
        a % p() == a,
{
    lemma_small_mod(a as nat, p() as nat);
}

/// Adding zero leaves a residue unchanged.
pub proof fn lemma_addp_zero(a: int)
    requires
        in_field(a),
    ensures
        addp(a, 0) == a,
        addp(0, a) == a,
{
    lemma_mod_noop_small(a);
}

pub proof fn lemma_addp_assoc(a: int, b: int, c: int)
    ensures
        addp(addp(a, b), c) == addp(a, addp(b, c)),
{
    lemma_add_mod_noop(a + b, c, p());
    lemma_mod_noop_small(addp(b, c) % p());
    lemma_mod_bound(b + c, p());
    lemma_small_mod(((b + c) % p()) as nat, p() as nat);
    lemma_add_mod_noop_right(a, b + c, p());
    assert(((a + b) % p() + c) % p() == ((a + b) + c) % p()) by {
        lemma_add_mod_noop(a + b, c, p());
        lemma_mod_bound(c, p());
        lemma_add_mod_noop_right((a + b) % p(), c, p());
    };
}

/// Rearranging four summands grouped two ways gives the same residue.
pub proof fn lemma_addp_four(a: int, b: int, c: int, d: int)
    ensures
        addp(addp(a, b), addp(c, d)) == addp(addp(a, c), addp(b, d)),
{
    lemma_add_mod_noop(a + b, c + d, p());
    lemma_add_mod_noop(a + c, b + d, p());
}

/// `1 - 0` and `1 - 1` as residues.
pub proof fn lemma_subp_units()
    ensures
        subp(1, 0) == 1,
        subp(1, 1) == 0,
{
    lemma_mod_add_multiples_vanish(1, p());
    lemma_small_mod(1nat, p() as nat);
    lemma_mod_self_0(p());
}

/// Multiplying by the units `0` and `1`.
pub proof fn lemma_mulp_units(a: int)
    requires
        in_field(a),
    ensures
        mulp(0, a) == 0,
        mulp(1, a) == a,
        mulp(a, 0) == 0,
        mulp(a, 1) == a,
{
    lemma_mod_noop_small(a);
    lemma_small_mod(0nat, p() as nat);
}

/// The line through `(0, a)` and `(1, b)` passes through both points.
pub proof fn lemma_aff_units(a: int, b: int)
    requires
        in_field(a),
        in_field(b),
    ensures
        aff(0, a, b) == a,
        aff(1, a, b) == b,
{
    lemma_subp_units();
    lemma_mulp_units(a);
    lemma_mulp_units(b);
    lemma_addp_zero(a);
    lemma_addp_zero(b);
}

/// Multiplication distributes over residue addition.
pub proof fn lemma_mulp_distributes(k: int, x: int, y: int)
    ensures
        mulp(k, addp(x, y)) == addp(mulp(k, x), mulp(k, y)),
{
    lemma_mul_mod_noop_general(k, x + y, p());
    lemma_mul_is_distributive_add(k, x, y);
    lemma_add_mod_noop(k * x, k * y, p());
}

/// The sum-check round update `s0 + c * (s1 - s0)` equals the affine
/// combination `(1 - c) * s0 + c * s1`, modulo `p`.
pub proof fn lemma_round_update_is_aff(c: int, s0: int, s1: int)
    requires
        in_field(c),
        in_field(s0),
        in_field(s1),
    ensures
        addp(s0, mulp(c, subp(s1, s0))) == aff(c, s0, s1),
{
    // Left side: reduce c * ((s1 + p - s0) % p) to (c*s1 - c*s0) % p.
    assert(mulp(c, subp(s1, s0)) == (c * s1 - c * s0) % p()) by {
        lemma_mul_mod_noop_general(c, s1 + p() - s0, p());
        assert(c * (s1 + p() - s0) == c * p() + (c * s1 - c * s0)) by {
            lemma_mul_is_distributive_add(c, s1 + p() - s0 - s0, s0);
            lemma_mul_is_distributive_sub(c, s1 + p(), s0);
            lemma_mul_is_distributive_add(c, s1, p());
        };
        lemma_mod_multiples_vanish(c, c * s1 - c * s0, p());
    };
    assert(addp(s0, (c * s1 - c * s0) % p()) == (s0 + c * s1 - c * s0) % p()) by {
        lemma_add_mod_noop_right(s0, c * s1 - c * s0, p());
    };
    // Right side: reduce ((1 + p - c) % p) * s0 to (s0 - c*s0) % p.
    assert(mulp(subp(1, c), s0) == (s0 - c * s0) % p()) by {
        lemma_mul_mod_noop_general(1 + p() - c, s0, p());
        assert((1 + p() - c) * s0 == p() * s0 + (s0 - c * s0)) by {
            lemma_mul_is_distributive_sub(s0, 1 + p(), c);
            lemma_mul_is_distributive_add(s0, 1, p());
        };
        lemma_mod_multiples_vanish(s0, s0 - c * s0, p());
    };
    assert(addp((s0 - c * s0) % p(), mulp(c, s1)) == (s0 - c * s0 + c * s1) % p()) by {
        lemma_add_mod_noop(s0 - c * s0, c * s1, p());
    };
}

/// The affine combination of two sums is the sum of the pointwise affine
/// combinations: summing commutes with the round's table collapse.
pub proof fn lemma_aff_adds(v: int, x1: int, y1: int, x2: int, y2: int)
    ensures
        addp(aff(v, x1, y1), aff(v, x2, y2)) == aff(v, addp(x1, x2), addp(y1, y2)),
{
    let w = subp(1, v);
    lemma_mulp_distributes(w, x1, x2);
    lemma_mulp_distributes(v, y1, y2);
    lemma_addp_four(mulp(w, x1), mulp(v, y1), mulp(w, x2), mulp(v, y2));
}

/// `aff(v, 0, 0) == 0`: the collapse of an all-zero pair vanishes.
pub proof fn lemma_aff_zero(v: int)
    ensures
        aff(v, 0, 0) == 0,
{
    lemma_mulp_units(0);
    assert(mulp(subp(1, v), 0) == 0) by {
        lemma_small_mod(0nat, p() as nat);
    };
    assert(mulp(v, 0) == 0) by {
        lemma_small_mod(0nat, p() as nat);
    };
    lemma_small_mod(0nat, p() as nat);
}

pub proof fn lemma_mulp_comm(a: int, b: int)
    ensures
        mulp(a, b) == mulp(b, a),
{
    vstd::arithmetic::mul::lemma_mul_is_commutative(a, b);
}

pub proof fn lemma_mulp_assoc(a: int, b: int, c: int)
    ensures
        mulp(a, mulp(b, c)) == mulp(mulp(a, b), c),
{
    lemma_mul_mod_noop_general(a, b * c, p());
    vstd::arithmetic::mul::lemma_mul_is_associative(a, b, c);
    lemma_mul_mod_noop_general(a * b, c, p());
}

/// The outer factor of a nested product can be swapped with the inner one.
pub proof fn lemma_mulp_left_comm(k: int, m: int, n: int)
    ensures
        mulp(k, mulp(m, n)) == mulp(m, mulp(k, n)),
{
    lemma_mulp_assoc(k, m, n);
    lemma_mulp_comm(k, m);
    lemma_mulp_assoc(m, k, n);
}

/// Affine combinations in two directions commute: collapsing first by `b`
/// across one pairing and then by `a` across the other gives the same value
/// as the opposite order.
pub proof fn lemma_aff_interchange(a: int, b: int, x: int, y: int, z: int, w: int)
    ensures
        aff(a, aff(b, x, z), aff(b, y, w)) == aff(b, aff(a, x, y), aff(a, z, w)),
{
    let ca = subp(1, a);
    let cb = subp(1, b);
    assert(mulp(ca, aff(b, x, z)) == addp(mulp(ca, mulp(cb, x)), mulp(ca, mulp(b, z)))) by {
        lemma_mulp_distributes(ca, mulp(cb, x), mulp(b, z));
    };
    assert(mulp(a, aff(b, y, w)) == addp(mulp(a, mulp(cb, y)), mulp(a, mulp(b, w)))) by {
        lemma_mulp_distributes(a, mulp(cb, y), mulp(b, w));
    };
    assert(mulp(cb, aff(a, x, y)) == addp(mulp(cb, mulp(ca, x)), mulp(cb, mulp(a, y)))) by {
        lemma_mulp_distributes(cb, mulp(ca, x), mulp(a, y));
    };
    assert(mulp(b, aff(a, z, w)) == addp(mulp(b, mulp(ca, z)), mulp(b, mulp(a, w)))) by {
        lemma_mulp_distributes(b, mulp(ca, z), mulp(a, w));
    };
    lemma_mulp_left_comm(ca, cb, x);
    lemma_mulp_left_comm(ca, b, z);
    lemma_mulp_left_comm(a, cb, y);
    lemma_mulp_left_comm(a, b, w);
    lemma_addp_four(mulp(cb, mulp(ca, x)), mulp(b, mulp(ca, z)), mulp(cb, mulp(a, y)), mulp(b, mulp(a, w)));
}

/// Summing commutes with a pointwise affine collapse: the sum of the
/// combined entries is the affine combination of the two sums.
pub proof fn lemma_sump_aff_pointwise(v: int, a: Seq<int>, b: Seq<int>)
    requires
        a.len() == b.len(),
    ensures
        sump(Seq::new(a.len(), |i: int| aff(v, a[i], b[i]))) == aff(v, sump(a), sump(b)),
    decreases a.len(),
{
    let c = Seq::new(a.len(), |i: int| aff(v, a[i], b[i]));
    if a.len() == 0 {
        assert(aff(v, 0, 0) == 0) by {
            lemma_aff_zero(v);
        };
    } else {
        let a1 = a.drop_last();
        let b1 = b.drop_last();
        lemma_sump_aff_pointwise(v, a1, b1);
        assert(c.drop_last() =~= Seq::new(a1.len(), |i: int| aff(v, a1[i], b1[i])));
        assert(c.last() == aff(v, a.last(), b.last()));
        lemma_aff_adds(v, sump(a1), sump(b1), a.last(), b.last());
    }
}

/// The residue of one half: the inverse of `2` modulo the odd prime `p`.
pub open spec fn inv2() -> int {
    (p() + 1) / 2
}

pub proof fn lemma_inv2()
    ensures
        in_field(inv2()),
        mulp(2, inv2()) == 1,
{
    vstd::arithmetic::div_mod::lemma_fundamental_div_mod(p() + 1, 2);
    assert((p() + 1) % 2 == 0);
    assert(2 * inv2() == p() + 1);
    lemma_mod_add_multiples_vanish(1, p());
    lemma_small_mod(1nat, p() as nat);
}

/// The inverse of `2` is unique among residues.
pub proof fn lemma_inv2_unique(x: int)
    requires
        in_field(x),
        mulp(2, x) == 1,
    ensures
        x == inv2(),
{
    lemma_inv2();
    lemma_mulp_units(x);
    lemma_mulp_assoc(x, 2, inv2());
    lemma_mulp_comm(x, 2);
    lemma_mulp_comm(mulp(2, x), inv2());
    lemma_mulp_units(inv2());
    assert(x == mulp(x, 1));
    assert(mulp(x, mulp(2, inv2())) == mulp(mulp(x, 2), inv2()));
    assert(mulp(mulp(2, x), inv2()) == mulp(inv2(), mulp(2, x)));
}

/// Multiplication distributes over residue subtraction.
pub proof fn lemma_mulp_distributes_sub(k: int, x: int, y: int)
    ensures
        mulp(k, subp(x, y)) == subp(mulp(k, x), mulp(k, y)),
{
    assert(mulp(k, subp(x, y)) == (k * x - k * y) % p()) by {
        lemma_mul_mod_noop_general(k, x + p() - y, p());
        assert(k * (x + p() - y) == k * p() + (k * x - k * y)) by {
            lemma_mul_is_distributive_add(k, x - y, p());
            lemma_mul_is_distributive_sub(k, x, y);
        };
        lemma_mod_multiples_vanish(k, k * x - k * y, p());
    };
    assert(subp(mulp(k, x), mulp(k, y)) == (k * x - k * y) % p()) by {
        lemma_mod_add_multiples_vanish((k * x) % p() - (k * y) % p(), p());
        vstd::arithmetic::div_mod::lemma_sub_mod_noop(k * x, k * y, p());
    };
}

/// Multiplying a residue by `p - 1` negates it.
pub proof fn lemma_mulp_negate(x: int)
    requires
        in_field(x),
    ensures
        mulp(p() - 1, x) == subp(0, x),
{
    assert((p() - 1) * x == x * p() - x) by {
        vstd::arithmetic::mul::lemma_mul_is_distributive_sub_other_way(x, p(), 1);
        vstd::arithmetic::mul::lemma_mul_is_commutative(p(), x);
    };
    lemma_mod_multiples_vanish(x, -x, p());
    assert(subp(0, x) == (p() - x) % p());
    lemma_mod_add_multiples_vanish(-x, p());
}

/// Splitting a sum at a concatenation point.
pub proof fn lemma_sump_concat(x: Seq<int>, y: Seq<int>)
    ensures
        sump(x + y) == addp(sump(x), sump(y)),
    decreases y.len(),
{
    if y.len() == 0 {
        assert(x + y =~= x);
        lemma_sump_in_field(x);
        lemma_addp_zero(sump(x));
    } else {
        assert((x + y).drop_last() =~= x + y.drop_last());
        lemma_sump_concat(x, y.drop_last());
        lemma_addp_assoc(sump(x), sump(y.drop_last()), y.last());
    }
}

} // verus!
