//! Pieces of a Shamir-style secret-sharing scheme over the prime `65537`:
//! input validation, dense polynomial evaluation, and Lagrange
//! interpolation at zero, all modulo that prime.

use vstd::prelude::*;
use vstd::arithmetic::div_mod::{lemma_mod_bound, lemma_mul_mod_noop_left, lemma_small_mod};
use vstd::arithmetic::power::{lemma_pow0, lemma_pow1, lemma_pow_adds, pow};

verus! {

/// The scheme's prime modulus.
pub open spec fn prime() -> int {
    65537
}

/// Why a sharing request was rejected.
#[derive(Clone, Copy, Debug, PartialEq, Eq, Structural)]
pub enum ShamirError {
    /// At least as many shares as the reconstruction threshold are needed.
    InvalidThreshold,
    /// The secret must be a residue modulo the prime.
    InvalidSecret,
}

/// Whether a secret can be split with the given threshold and share count:
/// the threshold must stay below the number of shares, and the secret below
/// the prime.
pub fn validate_inputs(secret: usize, threshold: usize, num_shares: usize) -> (r: Result<
    (),
    ShamirError,
>)
    ensures
        threshold >= num_shares ==> r == Result::<(), ShamirError>::Err(
            ShamirError::InvalidThreshold,
        ),
        threshold < num_shares && secret >= 65537 ==> r == Result::<(), ShamirError>::Err(
            ShamirError::InvalidSecret,
        ),
        (r is Ok) <==> (threshold < num_shares && secret < 65537),
{
    if threshold >= num_shares {
        return Err(ShamirError::InvalidThreshold);
    }
    if secret >= 65537 {
        return Err(ShamirError::InvalidSecret);
    }
    Ok(())
}

/// The dense polynomial's value at `x` modulo the prime, by Horner's rule:
/// coefficient `0` is the constant term.
pub open spec fn horner_mod(coeffs: Seq<usize>, x: int) -> int
    decreases coeffs.len(),
{
    if coeffs.len() == 0 {
        0
    } else {
        (coeffs.first() + x * horner_mod(coeffs.drop_first(), x)) % prime()
    }
}

/// Evaluate a share polynomial at `x`, modulo the prime.
pub fn evaluate_polynomial(coefficients: &[usize], x: usize) -> (r: usize)
    requires
        x < 65537,
        forall|i: int| 0 <= i < coefficients@.len() ==> #[trigger] coefficients@[i] < 65537,
    ensures
        r == horner_mod(coefficients@, x as int),
        r < 65537,
{
    let mut acc: u64 = 0;
    let mut i: usize = coefficients.len();
    proof {
        assert(coefficients@.skip(coefficients@.len() as int) =~= Seq::<usize>::empty());
    }
    while i > 0
        invariant
            0 <= i <= coefficients@.len(),
            x < 65537,
            forall|l: int| 0 <= l < coefficients@.len() ==> #[trigger] coefficients@[l] < 65537,
            acc < 65537,
            acc == horner_mod(coefficients@.skip(i as int), x as int),
        decreases i,
    {
        i -= 1;
        let c = coefficients[i];
        proof {
            assert(coefficients@.skip(i as int).first() == coefficients@[i as int]);
            assert(coefficients@.skip(i as int).drop_first() =~= coefficients@.skip(i as int + 1));
            lemma_mod_bound(c + (x as int) * (acc as int), prime());
            assert((x as int) * (acc as int) <= 65536 * 65536) by (nonlinear_arith)
                requires
                    0 <= x < 65537,
                    0 <= acc < 65537,
            ;
        }
        acc = (c as u64 + (x as u64) * acc) % 65537;
    }
    proof {
        assert(coefficients@.skip(0) =~= coefficients@);
    }
    acc as usize
}

/// The inverse modulo the prime by Fermat's little theorem; zero maps to
/// zero.
pub open spec fn inv_mod(a: int) -> int {
    pow(a, 65535) % prime()
}

/// The Lagrange numerator at zero for share `i`, over the first `j` shares:
/// the product of `(0 - x_l)` for `l != i`, modulo the prime.
pub open spec fn lag_num(pts: Seq<(usize, usize)>, i: int, j: int) -> int
    decreases j,
{
    if j <= 0 {
        1
    } else {
        let rest = lag_num(pts, i, j - 1);
        if j - 1 == i {
            rest
        } else {
            (rest * ((prime() - pts[j - 1].0) % prime())) % prime()
        }
    }
}

/// The matching denominator: the product of `(x_i - x_l)` for `l != i`,
/// modulo the prime.
pub open spec fn lag_den(pts: Seq<(usize, usize)>, i: int, j: int) -> int
    decreases j,
{
    if j <= 0 {
        1
    } else {
        let rest = lag_den(pts, i, j - 1);
        if j - 1 == i {
            rest
        } else {
            (rest * ((pts[i].0 + prime() - pts[j - 1].0) % prime())) % prime()
        }
    }
}

/// Share `i`'s contribution at zero: `y_i` times its Lagrange basis value.
pub open spec fn lag_term(pts: Seq<(usize, usize)>, i: int) -> int {
    ((pts[i].1 * lag_num(pts, i, pts.len() as int)) % prime() * inv_mod(
        lag_den(pts, i, pts.len() as int),
    )) % prime()
}

/// The contributions of the first `i` shares, summed modulo the prime.
pub open spec fn lag_sum(pts: Seq<(usize, usize)>, i: int) -> int
    decreases i,
{
    if i <= 0 {
        0
    } else {
        (lag_sum(pts, i - 1) + lag_term(pts, i - 1)) % prime()
    }
}

/// The value at zero of the Lagrange interpolation through the given
/// `(x, y)` shares, modulo the prime; inverses are taken by Fermat's little
/// theorem, so a vanishing denominator (a repeated `x`) contributes zero.
pub fn interpolate_at_zero(points: &[(usize, usize)]) -> (r: usize)
    requires
        forall|i: int|
            0 <= i < points@.len() ==> (#[trigger] points@[i]).0 < 65537 && points@[i].1 < 65537,
    ensures
        r == lag_sum(points@, points@.len() as int),
        r < 65537,
{
    let mut total: u64 = 0;
    let mut i: usize = 0;
    while i < points.len()
        invariant
            0 <= i <= points@.len(),
            forall|l: int|
                0 <= l < points@.len() ==> (#[trigger] points@[l]).0 < 65537 && points@[l].1
                    < 65537,
            total < 65537,
            total == lag_sum(points@, i as int),
        decreases points@.len() - i,
    {
        let (xi, yi) = points[i];
        let mut num: u64 = 1;
        let mut den: u64 = 1;
        let mut j: usize = 0;
        while j < points.len()
            invariant
                0 <= j <= points@.len(),
                0 <= i < points@.len(),
                forall|l: int|
                    0 <= l < points@.len() ==> (#[trigger] points@[l]).0 < 65537 && points@[l].1
                        < 65537,
                xi == points@[i as int].0,
                num < 65537,
                den < 65537,
                num == lag_num(points@, i as int, j as int),
                den == lag_den(points@, i as int, j as int),
            decreases points@.len() - j,
        {
            if j != i {
                let xj = points[j].0;
                proof {
                    lemma_mod_bound((num as int) * ((prime() - xj) % prime()), prime());
                    lemma_mod_bound((den as int) * ((xi + prime() - xj) % prime()), prime());
                    lemma_mod_bound(prime() - xj, prime());
                    lemma_mod_bound(xi + prime() - xj, prime());
                    assert((num as int) * (((prime() - xj) % prime())) <= 65536 * 65536)
                        by (nonlinear_arith)
                        requires
                            0 <= num < 65537,
                            0 <= (prime() - xj) % prime() < 65537,
                    ;
                    assert((den as int) * (((xi + prime() - xj) % prime())) <= 65536 * 65536)
                        by (nonlinear_arith)
                        requires
                            0 <= den < 65537,
                            0 <= (xi + prime() - xj) % prime() < 65537,
                    ;
                }
                num = (num * ((65537 - xj as u64) % 65537)) % 65537;
                den = (den * ((xi as u64 + 65537 - xj as u64) % 65537)) % 65537;
            }
            j += 1;
        }
        // Invert the denominator: raise it to `prime - 2`.
        let mut inv: u64 = 1;
        let mut it: u32 = 0;
        proof {
            lemma_pow0(den as int);
            lemma_small_mod(1nat, 65537nat);
        }
        while it < 65535
            invariant
                0 <= it <= 65535,
                den < 65537,
                inv < 65537,
                inv == pow(den as int, it as nat) % prime(),
            decreases 65535 - it,
        {
            proof {
                assert(pow(den as int, (it + 1) as nat) == pow(den as int, it as nat) * den) by {
                    lemma_pow_adds(den as int, it as nat, 1);
                    lemma_pow1(den as int);
                };
                lemma_mul_mod_noop_left(pow(den as int, it as nat), den as int, prime());
                lemma_mod_bound((inv as int) * (den as int), prime());
                assert((inv as int) * (den as int) <= 65536 * 65536) by (nonlinear_arith)
                    requires
                        0 <= inv < 65537,
                        0 <= den < 65537,
                ;
            }
            inv = (inv * den) % 65537;
            it += 1;
        }
        proof {
            assert(inv == inv_mod(lag_den(points@, i as int, points@.len() as int)));
            lemma_mod_bound((yi as int) * lag_num(points@, i as int, points@.len() as int), prime());
            assert((yi as int) * (num as int) <= 65536 * 65536) by (nonlinear_arith)
                requires
                    0 <= yi < 65537,
                    0 <= num < 65537,
            ;
            assert(((yi as int) * (num as int) % 65537) * (inv as int) <= 65536 * 65536)
                by (nonlinear_arith)
                requires
                    0 <= (yi as int) * (num as int) % 65537 < 65537,
                    0 <= inv < 65537,
            ;
            lemma_mod_bound((yi as int) * (num as int), 65537);
        }
        let term = ((yi as u64 * num) % 65537 * inv) % 65537;
        proof {
            lemma_mod_bound(
                ((points@[i as int].1 * lag_num(points@, i as int, points@.len() as int)) % prime())
                    * inv_mod(lag_den(points@, i as int, points@.len() as int)),
                prime(),
            );
            assert(term == lag_term(points@, i as int));
            lemma_mod_bound(total + lag_term(points@, i as int), prime());
        }
        total = (total + term) % 65537;
        i += 1;
    }
    total as usize
}

} // verus!
