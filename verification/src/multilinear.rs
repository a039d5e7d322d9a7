//! Multilinear polynomials over the Boolean hypercube.
//!
//! A polynomial in `n` Boolean variables is stored as its table of `2^n`
//! evaluations; entry `i` is the value at the point whose bits are the binary
//! digits of `i`, variable `0` being the least-significant bit.  Fixing one
//! variable collapses paired entries by the multilinear-extension formula
//! `(1 - v) * low + v * high` and halves the table.

use vstd::prelude::*;
use vstd::arithmetic::div_mod::{
    lemma_fundamental_div_mod, lemma_mod_bound, lemma_multiply_divide_lt,
};
use vstd::arithmetic::mul::lemma_mul_inequality;
use vstd::arithmetic::power2::{
    lemma2_to64, lemma_pow2_adds, lemma_pow2_pos, lemma_pow2_strictly_increases, pow2,
};
use crate::field::{all_inv, vals, Fe};
use crate::modp::{aff, all_in_field, in_field, lemma_addp_in_field, lemma_aff_units, p};

verus! {

/// Why a polynomial operation was rejected.
#[derive(Clone, Copy, Debug, PartialEq, Eq, Structural)]
pub enum PolyError {
    /// The table handed to the constructor does not have length `2^n`.
    InvalidTableLength,
    /// The variable to fix does not exist.
    PositionOutOfRange,
    /// A full evaluation got a number of values different from the number of
    /// variables.
    AssignmentLengthMismatch,
}

/// The table index whose bit pattern at the `stride = 2^pos` position is `0`
/// and whose remaining bits are those of `i`: the `i`-th index of the
/// sub-table where variable `pos` is `0`.  Its partner, where that bit is
/// `1`, is `lo_index(i, stride) + stride`.
pub open spec fn lo_index(i: int, stride: int) -> int {
    (i / stride) * (2 * stride) + i % stride
}

/// The table of the polynomial with variable `pos` fixed to `v`: paired
/// entries collapse to `(1 - v) * low + v * high`, modulo `p`.
pub open spec fn fold_at(t: Seq<int>, pos: nat, v: int) -> Seq<int> {
    Seq::new(
        (t.len() / 2) as nat,
        |i: int|
            aff(
                v,
                t[lo_index(i, pow2(pos) as int)],
                t[lo_index(i, pow2(pos) as int) + pow2(pos)],
            ),
    )
}

/// Full evaluation: repeatedly fix the current variable `0` to the next
/// value of the point; the surviving entry is the polynomial's value there.
pub open spec fn eval_lsb(t: Seq<int>, point: Seq<int>) -> int
    decreases point.len(),
{
    if point.len() == 0 {
        if t.len() >= 1 {
            t[0]
        } else {
            0
        }
    } else {
        eval_lsb(fold_at(t, 0, point.first()), point.drop_first())
    }
}

/// A point of the Boolean hypercube: every coordinate is `0` or `1`.
pub open spec fn boolean_point(point: Seq<int>) -> bool {
    forall|i: int| 0 <= i < point.len() ==> point[i] == 0 || point[i] == 1
}

/// The table index whose bits are the coordinates of a Boolean point,
/// coordinate `0` the least-significant bit.
pub open spec fn index_of(point: Seq<int>) -> int
    decreases point.len(),
{
    if point.len() == 0 {
        0
    } else {
        point.first() + 2 * index_of(point.drop_first())
    }
}

/// Entries produced by a collapse are residues.
pub proof fn lemma_fold_at_in_field(t: Seq<int>, pos: nat, v: int)
    ensures
        all_in_field(fold_at(t, pos, v)),
{
    assert forall|i: int| 0 <= i < fold_at(t, pos, v).len() implies in_field(
        #[trigger] fold_at(t, pos, v)[i],
    ) by {
        let stride = pow2(pos) as int;
        lemma_addp_in_field(
            crate::modp::mulp(crate::modp::subp(1, v), t[lo_index(i, stride)]),
            crate::modp::mulp(v, t[lo_index(i, stride) + stride]),
        );
    };
}

/// For a table of length `2^k` and a variable below `k`, the paired indices
/// stay inside the table.
pub proof fn lemma_lo_index_bounds(i: int, k: nat, pos: nat)
    requires
        pos < k,
        0 <= i < pow2((k - 1) as nat),
    ensures
        0 <= lo_index(i, pow2(pos) as int),
        lo_index(i, pow2(pos) as int) + pow2(pos) < pow2(k),
        2 * pow2(pos) == pow2((pos + 1) as nat),
        pow2((pos + 1) as nat) <= pow2(k),
{
    let stride = pow2(pos) as int;
    lemma_pow2_pos(pos);
    let q = i / stride;
    let r = i % stride;
    lemma_fundamental_div_mod(i, stride);
    lemma_mod_bound(i, stride);
    assert(q >= 0) by {
        vstd::arithmetic::div_mod::lemma_div_pos_is_pos(i, stride);
    };
    let h = (k - 1) as nat;
    let m = (h - pos) as nat;
    assert(pow2(h) == pow2(m) * pow2(pos)) by {
        lemma_pow2_adds(m, pos);
    };
    assert(q < pow2(m)) by {
        assert(i < stride * pow2(m)) by {
            vstd::arithmetic::mul::lemma_mul_is_commutative(stride, pow2(m) as int);
        };
        lemma_multiply_divide_lt(i, stride, pow2(m) as int);
    };
    assert(q * (2 * stride) <= (pow2(m) - 1) * (2 * stride)) by {
        lemma_mul_inequality(q, pow2(m) - 1, 2 * stride);
    };
    assert((pow2(m) - 1) * (2 * stride) == pow2(m) * (2 * stride) - 2 * stride) by {
        vstd::arithmetic::mul::lemma_mul_is_distributive_sub_other_way(
            2 * stride,
            pow2(m) as int,
            1,
        );
    };
    assert(pow2(m) * (2 * stride) == 2 * (pow2(m) * stride)) by {
        vstd::arithmetic::mul::lemma_mul_is_associative(2, pow2(m) as int, stride);
        vstd::arithmetic::mul::lemma_mul_is_commutative(pow2(m) as int, 2 * stride);
        vstd::arithmetic::mul::lemma_mul_is_commutative(pow2(m) as int, stride);
        vstd::arithmetic::mul::lemma_mul_is_associative(2, stride, pow2(m) as int);
        vstd::arithmetic::mul::lemma_mul_is_commutative(stride, pow2(m) as int);
    };
    assert(pow2(k) == 2 * pow2(h)) by {
        lemma_pow2_adds(h, 1);
        lemma2_to64();
    };
    assert(2 * pow2(pos) == pow2((pos + 1) as nat)) by {
        lemma_pow2_adds(pos, 1);
        lemma2_to64();
    };
    assert(pow2((pos + 1) as nat) <= pow2(k)) by {
        if pos + 1 < k {
            lemma_pow2_strictly_increases((pos + 1) as nat, k);
        }
    };
}

/// The bit pattern of a Boolean point is an index into the table.
pub proof fn lemma_index_of_bounds(point: Seq<int>)
    requires
        boolean_point(point),
    ensures
        0 <= index_of(point) < pow2(point.len()),
    decreases point.len(),
{
    if point.len() == 0 {
        lemma2_to64();
    } else {
        assert(boolean_point(point.drop_first()));
        lemma_index_of_bounds(point.drop_first());
        assert(pow2(point.len()) == 2 * pow2((point.len() - 1) as nat)) by {
            lemma_pow2_adds((point.len() - 1) as nat, 1);
            lemma2_to64();
        };
    }
}

/// Hypercube indexing: evaluating at a Boolean point reproduces the table
/// entry whose index has exactly those bits, variable `0` being the
/// least-significant bit.
pub proof fn lemma_hypercube_indexing(t: Seq<int>, point: Seq<int>)
    requires
        all_in_field(t),
        t.len() == pow2(point.len()),
        boolean_point(point),
    ensures
        eval_lsb(t, point) == t[index_of(point)],
    decreases point.len(),
{
    lemma_index_of_bounds(point);
    if point.len() == 0 {
        lemma2_to64();
    } else {
        let n = point.len();
        let b = point.first();
        let u = fold_at(t, 0, b);
        assert(pow2(n) == 2 * pow2((n - 1) as nat)) by {
            lemma_pow2_adds((n - 1) as nat, 1);
            lemma2_to64();
        };
        assert(pow2(0) == 1) by {
            lemma2_to64();
        };
        assert(u.len() == pow2((n - 1) as nat));
        assert forall|i: int| 0 <= i < u.len() implies #[trigger] u[i] == t[2 * i + b] by {
            assert(lo_index(i, 1) == 2 * i);
            assert(0 <= 2 * i && 2 * i + 1 < t.len()) by {
                lemma_lo_index_bounds(i, n, 0);
            };
            lemma_aff_units(t[2 * i], t[2 * i + 1]);
        };
        lemma_fold_at_in_field(t, 0, b);
        let rest = point.drop_first();
        assert(boolean_point(rest));
        lemma_hypercube_indexing(u, rest);
        lemma_index_of_bounds(rest);
        assert(u[index_of(rest)] == t[2 * index_of(rest) + b]);
        assert(index_of(point) == b + 2 * index_of(rest));
    }
}

/// Partial-evaluation linearity: fixing a variable to `0` keeps exactly the
/// sub-table where its bit is `0`, fixing it to `1` the sub-table where the
/// bit is `1`; for a general value each output entry is the affine
/// combination `(1 - v) * low + v * high`, which is the definition of
/// [`fold_at`].
pub proof fn lemma_partial_evaluation_linearity(t: Seq<int>, k: nat, pos: nat)
    requires
        all_in_field(t),
        t.len() == pow2(k),
        pos < k,
    ensures
        forall|i: int|
            0 <= i < t.len() / 2 ==> #[trigger] fold_at(t, pos, 0)[i] == t[lo_index(
                i,
                pow2(pos) as int,
            )],
        forall|i: int|
            0 <= i < t.len() / 2 ==> #[trigger] fold_at(t, pos, 1)[i] == t[lo_index(
                i,
                pow2(pos) as int,
            ) + pow2(pos)],
{
    assert(t.len() / 2 == pow2((k - 1) as nat)) by {
        lemma_pow2_adds((k - 1) as nat, 1);
        lemma2_to64();
    };
    assert forall|i: int| 0 <= i < t.len() / 2 implies #[trigger] fold_at(t, pos, 0)[i] == t[
        lo_index(i, pow2(pos) as int)
    ] by {
        lemma_lo_index_bounds(i, k, pos);
        let lo = lo_index(i, pow2(pos) as int);
        lemma_aff_units(t[lo], t[lo + pow2(pos)]);
    };
    assert forall|i: int| 0 <= i < t.len() / 2 implies #[trigger] fold_at(t, pos, 1)[i] == t[
        lo_index(i, pow2(pos) as int) + pow2(pos)
    ] by {
        lemma_lo_index_bounds(i, k, pos);
        let lo = lo_index(i, pow2(pos) as int);
        lemma_aff_units(t[lo], t[lo + pow2(pos)]);
    };
}

/// A multilinear polynomial, stored as its evaluations over the hypercube.
#[derive(Clone, Debug)]
pub struct MultilinearPoly {
    /// The number of Boolean variables.
    pub num_vars: usize,
    /// The `2^num_vars` evaluations, indexed by bit pattern.
    pub evaluations: Vec<Fe>,
}

/// Copy a table of field elements.
pub(crate) fn copy_fes(v: &Vec<Fe>) -> (r: Vec<Fe>)
    ensures
        r@ == v@,
{
    let mut out: Vec<Fe> = Vec::new();
    let mut i: usize = 0;
    while i < v.len()
        invariant
            0 <= i <= v.len(),
            out@ =~= v@.subrange(0, i as int),
        decreases v.len() - i,
    {
        out.push(v[i]);
        i += 1;
    }
    proof {
        assert(out@ =~= v@);
    }
    out
}

/// `2^e` as a machine integer.
fn exec_pow2(e: usize) -> (r: usize)
    requires
        pow2(e as nat) <= usize::MAX,
    ensures
        r == pow2(e as nat),
{
    let mut r: usize = 1;
    let mut i: usize = 0;
    proof {
        lemma2_to64();
    }
    while i < e
        invariant
            0 <= i <= e,
            r == pow2(i as nat),
            pow2(e as nat) <= usize::MAX,
        decreases e - i,
    {
        proof {
            lemma_pow2_adds(i as nat, 1);
            lemma2_to64();
            if i + 1 < e {
                lemma_pow2_strictly_increases((i + 1) as nat, e as nat);
            }
        }
        r = r * 2;
        i += 1;
    }
    r
}

impl MultilinearPoly {
    /// Well-formed: the table has length `2^num_vars` and every entry is a
    /// residue.
    pub open spec fn wf(self) -> bool {
        &&& self.evaluations@.len() == pow2(self.num_vars as nat)
        &&& all_inv(self.evaluations@)
    }

    /// The table as the integers it encodes.
    pub open spec fn table(self) -> Seq<int> {
        vals(self.evaluations@)
    }

    /// A well-formed table is a table of residues.
    pub proof fn lemma_table_in_field(self)
        requires
            self.wf(),
        ensures
            all_in_field(self.table()),
    {
        assert forall|i: int| 0 <= i < self.table().len() implies in_field(
            #[trigger] self.table()[i],
        ) by {
            assert(self.evaluations@[i].inv());
        };
    }

    /// A polynomial over the given table; rejected unless the table length
    /// is exactly `2^num_vars`.
    pub fn new(num_vars: usize, evaluations: Vec<Fe>) -> (r: Result<MultilinearPoly, PolyError>)
        requires
            all_inv(evaluations@),
        ensures
            match r {
                Ok(q) => {
                    &&& evaluations@.len() == pow2(num_vars as nat)
                    &&& q.num_vars == num_vars
                    &&& q.evaluations@ == evaluations@
                    &&& q.wf()
                },
                Err(e) => {
                    &&& e == PolyError::InvalidTableLength
                    &&& evaluations@.len() != pow2(num_vars as nat)
                },
            },
    {
        let n = evaluations.len();
        let mut size: usize = 1;
        let mut i: usize = 0;
        proof {
            lemma2_to64();
        }
        while i < num_vars
            invariant
                0 <= i <= num_vars,
                size == pow2(i as nat),
                n == evaluations@.len(),
            decreases num_vars - i,
        {
            proof {
                lemma_pow2_adds(i as nat, 1);
                lemma2_to64();
            }
            if size > n / 2 {
                proof {
                    lemma_fundamental_div_mod(n as int, 2);
                    lemma_mod_bound(n as int, 2);
                    assert(2 * size > n);
                    if i + 1 < num_vars {
                        lemma_pow2_strictly_increases((i + 1) as nat, num_vars as nat);
                    }
                    assert(pow2(num_vars as nat) >= pow2((i + 1) as nat));
                }
                return Err(PolyError::InvalidTableLength);
            }
            size = size * 2;
            i += 1;
        }
        if size != n {
            return Err(PolyError::InvalidTableLength);
        }
        Ok(MultilinearPoly { num_vars, evaluations })
    }

    /// Fix variable `position` of a table with `2^k` entries to `value`.
    pub(crate) fn fold_once(evals: &Vec<Fe>, position: usize, value: &Fe, Ghost(k): Ghost<nat>) -> (r: Vec<
        Fe,
    >)
        requires
            evals@.len() == pow2(k),
            (position as nat) < k,
            all_inv(evals@),
            value.inv(),
        ensures
            r@.len() == evals@.len() / 2,
            all_inv(r@),
            vals(r@) == fold_at(vals(evals@), position as nat, value@),
    {
        let ghost t = vals(evals@);
        let n = evals.len();
        proof {
            lemma_pow2_pos(position as nat);
            lemma_pow2_pos((k - 1) as nat);
            lemma_lo_index_bounds(0, k, position as nat);
            assert(pow2(k) == 2 * pow2((k - 1) as nat)) by {
                lemma_pow2_adds((k - 1) as nat, 1);
                lemma2_to64();
            };
        }
        let stride = exec_pow2(position);
        let half = n / 2;
        proof {
            assert(half == pow2((k - 1) as nat));
        }
        let one = Fe::one();
        let one_minus = one.sub(value);
        let mut out: Vec<Fe> = Vec::new();
        let mut j: usize = 0;
        while j < half
            invariant
                0 <= j <= half,
                n == evals@.len() == pow2(k),
                half == n / 2 == pow2((k - 1) as nat),
                stride == pow2(position as nat),
                stride >= 1,
                (position as nat) < k,
                all_inv(evals@),
                value.inv(),
                one_minus.inv(),
                one_minus@ == crate::modp::subp(1, value@),
                t == vals(evals@),
                out@.len() == j,
                all_inv(out@),
                vals(out@) =~= fold_at(t, position as nat, value@).subrange(0, j as int),
            decreases half - j,
        {
            proof {
                lemma_lo_index_bounds(j as int, k, position as nat);
            }
            let q = j / stride;
            let rem = j % stride;
            let idx = q * (2 * stride) + rem;
            proof {
                assert(idx == lo_index(j as int, stride as int));
            }
            let a = evals[idx];
            let b = evals[idx + stride];
            let folded = one_minus.mul(&a).add(&value.mul(&b));
            proof {
                assert(a@ == t[lo_index(j as int, stride as int)]);
                assert(b@ == t[lo_index(j as int, stride as int) + stride]);
                assert(folded@ == aff(value@, a@, b@));
            }
            out.push(folded);
            j += 1;
            proof {
                assert(vals(out@) =~= fold_at(t, position as nat, value@).subrange(0, j as int));
            }
        }
        proof {
            assert(vals(out@) =~= fold_at(t, position as nat, value@));
        }
        out
    }

    /// The two sub-tables of the evaluation table split on the bit at
    /// `var_index`: entries whose bit is `0`, then entries whose bit is `1`,
    /// each in ascending index order.
    fn get_paired_evals(evals: &Vec<Fe>, var_index: usize, Ghost(k): Ghost<nat>) -> (r: (
        Vec<Fe>,
        Vec<Fe>,
    ))
        requires
            evals@.len() == pow2(k),
            (var_index as nat) < k,
        ensures
            r.0@.len() == evals@.len() / 2,
            r.1@.len() == evals@.len() / 2,
            forall|j: int|
                0 <= j < evals@.len() / 2 ==> #[trigger] r.0@[j] == evals@[lo_index(
                    j,
                    pow2(var_index as nat) as int,
                )],
            forall|j: int|
                0 <= j < evals@.len() / 2 ==> #[trigger] r.1@[j] == evals@[lo_index(
                    j,
                    pow2(var_index as nat) as int,
                ) + pow2(var_index as nat)],
    {
        let n = evals.len();
        proof {
            lemma_pow2_pos(var_index as nat);
            lemma_pow2_pos((k - 1) as nat);
            lemma_lo_index_bounds(0, k, var_index as nat);
            assert(pow2(k) == 2 * pow2((k - 1) as nat)) by {
                lemma_pow2_adds((k - 1) as nat, 1);
                lemma2_to64();
            };
        }
        let stride = exec_pow2(var_index);
        let half = n / 2;
        let mut vec0: Vec<Fe> = Vec::new();
        let mut vec1: Vec<Fe> = Vec::new();
        let mut j: usize = 0;
        while j < half
            invariant
                0 <= j <= half,
                n == evals@.len() == pow2(k),
                half == n / 2 == pow2((k - 1) as nat),
                stride == pow2(var_index as nat),
                stride >= 1,
                (var_index as nat) < k,
                vec0@.len() == j,
                vec1@.len() == j,
                forall|l: int|
                    0 <= l < j ==> #[trigger] vec0@[l] == evals@[lo_index(l, stride as int)],
                forall|l: int|
                    0 <= l < j ==> #[trigger] vec1@[l] == evals@[lo_index(l, stride as int)
                        + stride],
            decreases half - j,
        {
            proof {
                lemma_lo_index_bounds(j as int, k, var_index as nat);
            }
            let q = j / stride;
            let rem = j % stride;
            let idx = q * (2 * stride) + rem;
            proof {
                assert(idx == lo_index(j as int, stride as int));
            }
            vec0.push(evals[idx]);
            vec1.push(evals[idx + stride]);
            j += 1;
        }
        (vec0, vec1)
    }

    /// A new polynomial with variable `position` fixed to `value`; the
    /// original is untouched.  Rejected when the variable does not exist.
    pub fn partial_evaluate(&self, args: (usize, Fe)) -> (r: Result<MultilinearPoly, PolyError>)
        requires
            self.wf(),
            args.1.inv(),
        ensures
            match r {
                Ok(q) => {
                    &&& args.0 < self.num_vars
                    &&& q.wf()
                    &&& q.num_vars + 1 == self.num_vars
                    &&& q.table() == fold_at(self.table(), args.0 as nat, args.1@)
                },
                Err(e) => {
                    &&& e == PolyError::PositionOutOfRange
                    &&& args.0 >= self.num_vars
                },
            },
    {
        let (position, value) = args;
        if position >= self.num_vars {
            return Err(PolyError::PositionOutOfRange);
        }
        let new_evaluations = Self::fold_once(
            &self.evaluations,
            position,
            &value,
            Ghost(self.num_vars as nat),
        );
        proof {
            assert(pow2(self.num_vars as nat) == 2 * pow2((self.num_vars - 1) as nat)) by {
                lemma_pow2_adds((self.num_vars - 1) as nat, 1);
                lemma2_to64();
            };
        }
        Ok(
            MultilinearPoly {
                num_vars: self.num_vars - 1,
                evaluations: new_evaluations,
            },
        )
    }

    /// The polynomial's value at a point, obtained by fixing the current
    /// variable `0` to each coordinate in turn.  Rejected when the point's
    /// dimension differs from the number of variables.
    pub fn evaluate(&self, assignments: &Vec<Fe>) -> (r: Result<Fe, PolyError>)
        requires
            self.wf(),
            all_inv(assignments@),
        ensures
            match r {
                Ok(v) => {
                    &&& assignments@.len() == self.num_vars
                    &&& v.inv()
                    &&& v@ == eval_lsb(self.table(), vals(assignments@))
                },
                Err(e) => {
                    &&& e == PolyError::AssignmentLengthMismatch
                    &&& assignments@.len() != self.num_vars
                },
            },
    {
        if assignments.len() != self.num_vars {
            return Err(PolyError::AssignmentLengthMismatch);
        }
        let ghost point = vals(assignments@);
        let mut cur = copy_fes(&self.evaluations);
        let mut k = self.num_vars;
        let mut idx: usize = 0;
        proof {
            assert(point.skip(0) =~= point);
        }
        while idx < assignments.len()
            invariant
                0 <= idx <= assignments@.len(),
                assignments@.len() == self.num_vars,
                all_inv(assignments@),
                point == vals(assignments@),
                k + idx == self.num_vars,
                cur@.len() == pow2(k as nat),
                all_inv(cur@),
                eval_lsb(self.table(), point) == eval_lsb(vals(cur@), point.skip(idx as int)),
            decreases assignments@.len() - idx,
        {
            let ghost rest = point.skip(idx as int);
            proof {
                assert(rest.first() == point[idx as int]);
                assert(rest.drop_first() =~= point.skip(idx as int + 1));
                assert(assignments@[idx as int].inv());
            }
            let value = assignments[idx];
            let next = Self::fold_once(&cur, 0, &value, Ghost(k as nat));
            proof {
                assert(pow2(k as nat) == 2 * pow2((k - 1) as nat)) by {
                    lemma_pow2_adds((k - 1) as nat, 1);
                    lemma2_to64();
                };
                assert(eval_lsb(vals(cur@), rest) == eval_lsb(
                    fold_at(vals(cur@), 0, value@),
                    rest.drop_first(),
                ));
            }
            cur = next;
            k = k - 1;
            idx += 1;
        }
        proof {
            assert(point.skip(point.len() as int) =~= Seq::<int>::empty());
            lemma2_to64();
            assert(cur@.len() == 1);
            assert(eval_lsb(vals(cur@), Seq::<int>::empty()) == vals(cur@)[0]);
            assert(cur@[0].inv());
        }
        Ok(cur[0])
    }
}

} // verus!
