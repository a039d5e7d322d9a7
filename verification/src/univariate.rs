//! Evaluation and degree of univariate polynomials over machine integers,
//! in the two common representations: sparse `(coefficient, exponent)`
//! pairs and dense coefficient lists (index = exponent).

use vstd::prelude::*;
use vstd::arithmetic::power::{
    lemma0_pow, lemma_pow0, lemma_pow1, lemma_pow_adds, lemma_pow_increases, pow,
};

verus! {

/// The value of a sparse polynomial at `x`: the sum of `c * x^e` over its
/// `(c, e)` terms.
pub open spec fn sparse_value(terms: Seq<(u32, u32)>, x: int) -> int
    decreases terms.len(),
{
    if terms.len() == 0 {
        0
    } else {
        sparse_value(terms.drop_last(), x) + terms.last().0 * pow(x, terms.last().1 as nat)
    }
}

/// The value of a dense polynomial at `x`: coefficient `i` multiplies `x^i`.
pub open spec fn dense_value(coeffs: Seq<u32>, x: int) -> int
    decreases coeffs.len(),
{
    if coeffs.len() == 0 {
        0
    } else {
        dense_value(coeffs.drop_last(), x) + coeffs.last() * pow(x, (coeffs.len() - 1) as nat)
    }
}

/// The largest exponent of a sparse polynomial; `0` when there are no terms.
pub open spec fn max_exponent(terms: Seq<(u32, u32)>) -> int
    decreases terms.len(),
{
    if terms.len() == 0 {
        0
    } else {
        let m = max_exponent(terms.drop_last());
        if terms.last().1 > m {
            terms.last().1 as int
        } else {
            m
        }
    }
}

/// Powers of a non-negative base are non-negative.
proof fn lemma_pow_nonneg(x: int, e: nat)
    requires
        x >= 0,
    ensures
        pow(x, e) >= 0,
    decreases e,
{
    reveal(vstd::arithmetic::power::pow);
    if e == 0 {
        lemma_pow0(x);
    } else {
        lemma_pow_nonneg(x, (e - 1) as nat);
        vstd::arithmetic::mul::lemma_mul_nonnegative(x, pow(x, (e - 1) as nat));
        vstd::arithmetic::mul::lemma_mul_is_commutative(x, pow(x, (e - 1) as nat));
    }
}

/// Every prefix sum of a sparse polynomial's terms is between `0` and the
/// whole value: terms are never negative.
proof fn lemma_sparse_prefix_bounds(terms: Seq<(u32, u32)>, x: int, i: int)
    requires
        x >= 0,
        0 <= i <= terms.len(),
    ensures
        0 <= sparse_value(terms.take(i), x) <= sparse_value(terms, x),
    decreases terms.len(),
{
    if i == terms.len() {
        assert(terms.take(i) =~= terms);
        lemma_sparse_prefix_bounds_nonneg(terms, x);
    } else {
        assert(terms.take(i) =~= terms.drop_last().take(i));
        lemma_sparse_prefix_bounds(terms.drop_last(), x, i);
        lemma_pow_nonneg(x, terms.last().1 as nat);
        vstd::arithmetic::mul::lemma_mul_nonnegative(
            terms.last().0 as int,
            pow(x, terms.last().1 as nat),
        );
    }
}

/// A sparse polynomial's value at a non-negative point is non-negative.
proof fn lemma_sparse_prefix_bounds_nonneg(terms: Seq<(u32, u32)>, x: int)
    requires
        x >= 0,
    ensures
        sparse_value(terms, x) >= 0,
    decreases terms.len(),
{
    if terms.len() > 0 {
        lemma_sparse_prefix_bounds_nonneg(terms.drop_last(), x);
        lemma_pow_nonneg(x, terms.last().1 as nat);
        vstd::arithmetic::mul::lemma_mul_nonnegative(
            terms.last().0 as int,
            pow(x, terms.last().1 as nat),
        );
    }
}

/// Every prefix sum of a dense polynomial is between `0` and the whole
/// value.
proof fn lemma_dense_prefix_bounds(coeffs: Seq<u32>, x: int, i: int)
    requires
        x >= 0,
        0 <= i <= coeffs.len(),
    ensures
        0 <= dense_value(coeffs.take(i), x) <= dense_value(coeffs, x),
    decreases coeffs.len(),
{
    if i == coeffs.len() {
        assert(coeffs.take(i) =~= coeffs);
        lemma_dense_nonneg(coeffs, x);
    } else {
        assert(coeffs.take(i) =~= coeffs.drop_last().take(i));
        lemma_dense_prefix_bounds(coeffs.drop_last(), x, i);
        lemma_pow_nonneg(x, (coeffs.len() - 1) as nat);
        vstd::arithmetic::mul::lemma_mul_nonnegative(
            coeffs.last() as int,
            pow(x, (coeffs.len() - 1) as nat),
        );
    }
}

/// A dense polynomial's value at a non-negative point is non-negative.
proof fn lemma_dense_nonneg(coeffs: Seq<u32>, x: int)
    requires
        x >= 0,
    ensures
        dense_value(coeffs, x) >= 0,
    decreases coeffs.len(),
{
    if coeffs.len() > 0 {
        lemma_dense_nonneg(coeffs.drop_last(), x);
        lemma_pow_nonneg(x, (coeffs.len() - 1) as nat);
        vstd::arithmetic::mul::lemma_mul_nonnegative(
            coeffs.last() as int,
            pow(x, (coeffs.len() - 1) as nat),
        );
    }
}

/// `x^e` as a machine integer.
fn pow_u32(x: u32, e: u32) -> (r: u32)
    requires
        pow(x as int, e as nat) <= u32::MAX,
    ensures
        r == pow(x as int, e as nat),
{
    let mut r: u32 = 1;
    let mut i: u32 = 0;
    proof {
        lemma_pow0(x as int);
    }
    while i < e
        invariant
            0 <= i <= e,
            r == pow(x as int, i as nat),
            pow(x as int, e as nat) <= u32::MAX,
        decreases e - i,
    {
        proof {
            assert(pow(x as int, (i + 1) as nat) == pow(x as int, i as nat) * x) by {
                lemma_pow_adds(x as int, i as nat, 1);
                lemma_pow1(x as int);
            };
            if x == 0 {
                assert(pow(0int, (i + 1) as nat) == 0) by {
                    lemma0_pow((i + 1) as nat);
                };
                assert(r * x == 0) by {
                    vstd::arithmetic::mul::lemma_mul_by_zero_is_zero(r as int);
                };
            } else {
                if i + 1 < e {
                    lemma_pow_increases(x as nat, (i + 1) as nat, e as nat);
                }
            }
        }
        r = r * x;
        i = i + 1;
    }
    r
}

/// The value of a sparse polynomial at `x`, summing `c * x^e` term by term.
/// Every intermediate power and the final value must fit a machine word.
pub fn evaluate_sparse(vec: &Vec<(u32, u32)>, x: u32) -> (answer: u32)
    requires
        sparse_value(vec@, x as int) <= u32::MAX,
        forall|i: int| 0 <= i < vec@.len() ==> pow(x as int, (#[trigger] vec@[i]).1 as nat)
            <= u32::MAX,
    ensures
        answer == sparse_value(vec@, x as int),
{
    let mut answer: u32 = 0;
    let mut i: usize = 0;
    proof {
        assert(vec@.take(0) =~= Seq::<(u32, u32)>::empty());
    }
    while i < vec.len()
        invariant
            0 <= i <= vec@.len(),
            sparse_value(vec@, x as int) <= u32::MAX,
            forall|l: int| 0 <= l < vec@.len() ==> pow(x as int, (#[trigger] vec@[l]).1 as nat)
                <= u32::MAX,
            answer == sparse_value(vec@.take(i as int), x as int),
        decreases vec@.len() - i,
    {
        let (c, e) = vec[i];
        proof {
            lemma_sparse_prefix_bounds(vec@, x as int, i as int + 1);
            assert(vec@.take(i as int + 1).drop_last() =~= vec@.take(i as int));
            assert(vec@.take(i as int + 1).last() == vec@[i as int]);
            lemma_sparse_prefix_bounds(vec@, x as int, i as int);
            lemma_pow_nonneg(x as int, e as nat);
            vstd::arithmetic::mul::lemma_mul_nonnegative(c as int, pow(x as int, e as nat));
        }
        let xp = pow_u32(x, e);
        answer = answer + c * xp;
        i += 1;
    }
    proof {
        assert(vec@.take(vec@.len() as int) =~= vec@);
    }
    answer
}

/// The value of a dense polynomial at `x`: coefficient `i` multiplies `x^i`.
/// Every intermediate power and the final value must fit a machine word.
pub fn evaluate_dense(vec: &Vec<u32>, x: u32) -> (result: u32)
    requires
        vec@.len() <= u32::MAX,
        dense_value(vec@, x as int) <= u32::MAX,
        forall|i: nat| i < vec@.len() ==> #[trigger] pow(x as int, i) <= u32::MAX,
    ensures
        result == dense_value(vec@, x as int),
{
    let mut result: u32 = 0;
    let mut i: usize = 0;
    proof {
        assert(vec@.take(0) =~= Seq::<u32>::empty());
    }
    while i < vec.len()
        invariant
            0 <= i <= vec@.len(),
            vec@.len() <= u32::MAX,
            dense_value(vec@, x as int) <= u32::MAX,
            forall|l: nat| l < vec@.len() ==> #[trigger] pow(x as int, l) <= u32::MAX,
            result == dense_value(vec@.take(i as int), x as int),
        decreases vec@.len() - i,
    {
        let c = vec[i];
        proof {
            lemma_dense_prefix_bounds(vec@, x as int, i as int + 1);
            assert(vec@.take(i as int + 1).drop_last() =~= vec@.take(i as int));
            assert(vec@.take(i as int + 1).last() == vec@[i as int]);
            lemma_dense_prefix_bounds(vec@, x as int, i as int);
            lemma_pow_nonneg(x as int, i as nat);
            vstd::arithmetic::mul::lemma_mul_nonnegative(c as int, pow(x as int, i as nat));
        }
        let xp = pow_u32(x, i as u32);
        result = result + c * xp;
        i += 1;
    }
    proof {
        assert(vec@.take(vec@.len() as int) =~= vec@);
    }
    result
}

/// The degree of a sparse polynomial: its largest exponent, `0` when empty.
pub fn degree_sparse(vec: &Vec<(u32, u32)>) -> (deg: u32)
    ensures
        deg == max_exponent(vec@),
{
    let mut deg: u32 = 0;
    let mut i: usize = 0;
    proof {
        assert(vec@.take(0) =~= Seq::<(u32, u32)>::empty());
    }
    while i < vec.len()
        invariant
            0 <= i <= vec@.len(),
            deg == max_exponent(vec@.take(i as int)),
        decreases vec@.len() - i,
    {
        proof {
            assert(vec@.take(i as int + 1).drop_last() =~= vec@.take(i as int));
            assert(vec@.take(i as int + 1).last() == vec@[i as int]);
        }
        let (_, e) = vec[i];
        if e > deg {
            deg = e;
        }
        i += 1;
    }
    proof {
        assert(vec@.take(vec@.len() as int) =~= vec@);
    }
    deg
}

/// The degree of a dense polynomial: one less than its length.  The list
/// must name at least the constant coefficient.
pub fn degree_dense(vec: &Vec<u32>) -> (deg: usize)
    requires
        vec@.len() >= 1,
    ensures
        deg == vec@.len() - 1,
{
    vec.len() - 1
}

} // verus!
