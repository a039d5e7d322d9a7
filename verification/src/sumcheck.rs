//! The sum-check protocol, made non-interactive by a Keccak transcript.
//!
//! The prover claims that the evaluations of a multilinear polynomial over
//! the Boolean hypercube sum to `claimed_sum`.  Each round eliminates the
//! current top variable: the prover sends the round polynomial's values at
//! `0` and `1` (and `2` in the three-point variant), the challenge for the
//! round is squeezed from the transcript, and the table collapses at that
//! challenge.  The verifier replays the transcript, checks each round
//! against the running sum, and finally checks the collapsed value against
//! its own evaluation of the polynomial.

use vstd::prelude::*;
use vstd::arithmetic::power2::{lemma2_to64, lemma_pow2_adds, lemma_pow2_pos, pow2};
use vstd::pervasive::unreached;
use crate::field::{all_inv, enc32, vals, vals_bytes, Fe, lemma_fes_bytes_canonical};
use crate::modp::{addp, aff, all_in_field, in_field, mulp, p, subp, sump};
use crate::multilinear::{eval_lsb, fold_at, lo_index, MultilinearPoly};
use crate::transcript::{keccak256_of, KeccakHasher, Transcript};

verus! {

/// The challenge squeezed out of a transcript in state `s`.
pub open spec fn challenge_of(s: Seq<u8>) -> int {
    crate::field::be_of(keccak256_of(s)) % p()
}

/// The transcript state after a squeeze from state `s`.
pub open spec fn after_squeeze(s: Seq<u8>) -> Seq<u8> {
    s + keccak256_of(s)
}

/// The transcript state after the setup absorptions: the whole evaluation
/// table, then the claimed sum, both in canonical bytes.
pub open spec fn setup_state(t: Seq<int>, cs: int) -> Seq<u8> {
    vals_bytes(t) + enc32(cs)
}

/// The table with its current top variable fixed to `v`: entry `i` combines
/// the two halves as `(1 - v) * t[i] + v * t[i + half]`.
pub open spec fn fold_top(t: Seq<int>, v: int) -> Seq<int> {
    Seq::new((t.len() / 2) as nat, |i: int| aff(v, t[i], t[i + t.len() / 2]))
}

/// Iterated top-variable collapse, one challenge per round.
pub open spec fn fold_top_iter(t: Seq<int>, cs: Seq<int>) -> Seq<int>
    decreases cs.len(),
{
    if cs.len() == 0 {
        t
    } else {
        fold_top_iter(fold_top(t, cs.first()), cs.drop_first())
    }
}

/// The round polynomials an honest prover sends, as value pairs
/// `(g(0), g(1))`, one round per variable of the table.
pub open spec fn prove_rounds(t: Seq<int>, s: Seq<u8>) -> Seq<(int, int)>
    decreases t.len(),
{
    if t.len() < 2 {
        Seq::empty()
    } else {
        let s0 = sump(fold_top(t, 0));
        let s1 = sump(fold_top(t, 1));
        let s2 = s + enc32(s0) + enc32(s1);
        let c = challenge_of(s2);
        seq![(s0, s1)] + prove_rounds(fold_top(t, c), after_squeeze(s2))
    }
}

/// The challenges the transcript yields to an honest prover, in squeeze
/// order: the first challenge fixes the top variable.
pub open spec fn prove_challenges(t: Seq<int>, s: Seq<u8>) -> Seq<int>
    decreases t.len(),
{
    if t.len() < 2 {
        Seq::empty()
    } else {
        let s0 = sump(fold_top(t, 0));
        let s1 = sump(fold_top(t, 1));
        let s2 = s + enc32(s0) + enc32(s1);
        let c = challenge_of(s2);
        seq![c] + prove_challenges(fold_top(t, c), after_squeeze(s2))
    }
}

/// The verifier's replay over the round pairs: whether every round check
/// `g(0) + g(1) == running sum` passed, the challenges in squeeze order, and
/// the final running sum.
pub open spec fn run_rounds(rps: Seq<(int, int)>, rs: int, s: Seq<u8>) -> (bool, Seq<int>, int)
    decreases rps.len(),
{
    if rps.len() == 0 {
        (true, Seq::empty(), rs)
    } else {
        let g0 = rps.first().0;
        let g1 = rps.first().1;
        if addp(g0, g1) != rs {
            (false, Seq::empty(), 0)
        } else {
            let s2 = s + enc32(g0) + enc32(g1);
            let c = challenge_of(s2);
            let rs2 = addp(g0, mulp(c, subp(g1, g0)));
            let rec = run_rounds(rps.drop_first(), rs2, after_squeeze(s2));
            (rec.0, seq![c] + rec.1, rec.2)
        }
    }
}

/// What the verifier accepts: the proof has one round per variable, every
/// round check passes, and the final running sum equals the polynomial's
/// value at the challenge point (challenges feed the evaluation in reverse
/// squeeze order, because the first challenge fixed the top variable).
pub open spec fn verify_accepts(cs: int, rps: Seq<(int, int)>, t: Seq<int>, n: nat) -> bool {
    let run = run_rounds(rps, cs, setup_state(t, cs));
    &&& rps.len() == n
    &&& run.0
    &&& eval_lsb(t, run.1.reverse()) == run.2
}

/// One round's polynomial in the two-point protocol: its values at `0` and
/// `1`.
#[derive(Clone, Copy, Debug)]
pub struct RoundPoly {
    /// The round polynomial at `0`.
    pub g0: Fe,
    /// The round polynomial at `1`.
    pub g1: Fe,
}

/// A sum-check proof in the two-point protocol.
#[derive(Clone, Debug)]
pub struct Proof {
    /// The sum over the hypercube being claimed.
    pub claimed_sum: Fe,
    /// One round polynomial per variable, in elimination order.
    pub round_polys: Vec<RoundPoly>,
}

/// The value pairs of a round-polynomial sequence.
pub open spec fn pairs_of(rps: Seq<RoundPoly>) -> Seq<(int, int)> {
    rps.map_values(|rp: RoundPoly| (rp.g0@, rp.g1@))
}

/// Every entry of a round-polynomial sequence is well formed.
pub open spec fn rounds_inv(rps: Seq<RoundPoly>) -> bool {
    forall|i: int| 0 <= i < rps.len() ==> (#[trigger] rps[i]).g0.inv() && rps[i].g1.inv()
}

impl Proof {
    /// Well-formed: the claimed sum and every round value are residues.
    pub open spec fn wf(self) -> bool {
        &&& self.claimed_sum.inv()
        &&& rounds_inv(self.round_polys@)
    }
}

/// Append the contents of `add` to `out`.
fn push_all(out: &mut Vec<u8>, add: &Vec<u8>)
    ensures
        final(out)@ == old(out)@ + add@,
{
    let mut i: usize = 0;
    while i < add.len()
        invariant
            0 <= i <= add.len(),
            out@ =~= old(out)@ + add@.subrange(0, i as int),
        decreases add.len() - i,
    {
        out.push(add[i]);
        i += 1;
    }
    proof {
        assert(out@ =~= old(out)@ + add@);
    }
}

/// The canonical bytes of a whole table, in order.
fn fes_to_bytes(v: &Vec<Fe>) -> (r: Vec<u8>)
    ensures
        r@ == crate::field::fes_bytes(v@),
{
    let mut out: Vec<u8> = Vec::new();
    let mut i: usize = 0;
    while i < v.len()
        invariant
            0 <= i <= v.len(),
            out@ == crate::field::fes_bytes(v@.subrange(0, i as int)),
        decreases v.len() - i,
    {
        let b = v[i].to_bytes();
        push_all(&mut out, &b);
        i += 1;
        proof {
            let pre = v@.subrange(0, i - 1);
            let now = v@.subrange(0, i as int);
            assert(now.drop_last() =~= pre);
            assert(now.last() == v@[i - 1]);
        }
    }
    proof {
        assert(v@.subrange(0, v@.len() as int) =~= v@);
    }
    out
}

/// The canonical bytes of one round's pair, `g(0)` then `g(1)`.
fn pair_bytes(a: &Fe, b: &Fe) -> (r: Vec<u8>)
    ensures
        r@ == a.byte_seq() + b.byte_seq(),
{
    let mut out = a.to_bytes();
    let bb = b.to_bytes();
    push_all(&mut out, &bb);
    out
}

/// The sum of a table of field elements.
fn sum_evals(v: &Vec<Fe>) -> (r: Fe)
    requires
        all_inv(v@),
    ensures
        r.inv(),
        r@ == sump(vals(v@)),
{
    let mut acc = Fe::zero();
    let mut i: usize = 0;
    while i < v.len()
        invariant
            0 <= i <= v.len(),
            all_inv(v@),
            acc.inv(),
            acc@ == sump(vals(v@.subrange(0, i as int))),
        decreases v.len() - i,
    {
        proof {
            assert(v@.subrange(0, 0) =~= Seq::<Fe>::empty());
            assert(v@[i as int].inv());
            let pre = vals(v@.subrange(0, i as int));
            let now = vals(v@.subrange(0, i as int + 1));
            assert(now.drop_last() =~= pre);
            assert(now.last() == v@[i as int]@);
        }
        acc = acc.add(&v[i]);
        i += 1;
    }
    proof {
        assert(v@.subrange(0, 0) =~= Seq::<Fe>::empty());
        assert(v@.subrange(0, v@.len() as int) =~= v@);
    }
    acc
}

/// Collapsing the top variable of a `2^k` table is `fold_top`.
proof fn lemma_fold_at_top(t: Seq<int>, k: nat, v: int)
    requires
        k >= 1,
        t.len() == pow2(k),
    ensures
        fold_at(t, (k - 1) as nat, v) == fold_top(t, v),
{
    let h = (k - 1) as nat;
    let stride = pow2(h) as int;
    assert(pow2(k) == 2 * pow2(h)) by {
        lemma_pow2_adds(h, 1);
        lemma2_to64();
    };
    lemma_pow2_pos(h);
    assert forall|i: int| 0 <= i < t.len() / 2 implies lo_index(i, stride) == i by {
        vstd::arithmetic::div_mod::lemma_basic_div(i, stride);
        vstd::arithmetic::div_mod::lemma_small_mod(i as nat, stride as nat);
    };
    assert(fold_at(t, h, v) =~= fold_top(t, v));
}

/// Produce a sum-check proof: absorb the table and the claimed sum, then for
/// each round send the round polynomial's values at `0` and `1`, squeeze the
/// round's challenge, and collapse the table at it.  The proof is exactly
/// what the honest-prover recursion [`prove_rounds`] describes.
pub fn prove(poly: &MultilinearPoly, claimed_sum: Fe) -> (pf: Proof)
    requires
        poly.wf(),
        claimed_sum.inv(),
    ensures
        pf.wf(),
        pf.claimed_sum == claimed_sum,
        pf.round_polys@.len() == poly.num_vars,
        pairs_of(pf.round_polys@) == prove_rounds(
            poly.table(),
            setup_state(poly.table(), claimed_sum@),
        ),
{
    let ghost t0 = poly.table();
    let ghost s_init = setup_state(t0, claimed_sum@);
    let mut transcript = Transcript::new(KeccakHasher::new());
    let poly_bytes = fes_to_bytes(&poly.evaluations);
    transcript.absorb(poly_bytes.as_slice());
    let cs_bytes = claimed_sum.to_bytes();
    transcript.absorb(cs_bytes.as_slice());
    proof {
        lemma_fes_bytes_canonical(poly.evaluations@);
        claimed_sum.lemma_canonical();
        assert(transcript.state() =~= s_init);
    }
    let mut cur = crate::multilinear::copy_fes(&poly.evaluations);
    let mut k = poly.num_vars;
    let mut rounds: Vec<RoundPoly> = Vec::new();
    proof {
        assert(pairs_of(rounds@) =~= Seq::<(int, int)>::empty());
        assert(prove_rounds(t0, s_init) =~= pairs_of(rounds@) + prove_rounds(
            vals(cur@),
            transcript.state(),
        ));
    }
    while k > 0
        invariant
            poly.wf(),
            claimed_sum.inv(),
            t0 == poly.table(),
            s_init == setup_state(t0, claimed_sum@),
            k <= poly.num_vars,
            cur@.len() == pow2(k as nat),
            all_inv(cur@),
            rounds@.len() == poly.num_vars - k,
            rounds_inv(rounds@),
            prove_rounds(t0, s_init) == pairs_of(rounds@) + prove_rounds(
                vals(cur@),
                transcript.state(),
            ),
        decreases k,
    {
        let ghost t = vals(cur@);
        let ghost st = transcript.state();
        proof {
            assert(pow2(k as nat) == 2 * pow2((k - 1) as nat)) by {
                lemma_pow2_adds((k - 1) as nat, 1);
                lemma2_to64();
            };
            lemma_pow2_pos((k - 1) as nat);
        }
        let zero = Fe::zero();
        let one = Fe::one();
        let evals0 = MultilinearPoly::fold_once(&cur, k - 1, &zero, Ghost(k as nat));
        let s0 = sum_evals(&evals0);
        let evals1 = MultilinearPoly::fold_once(&cur, k - 1, &one, Ghost(k as nat));
        let s1 = sum_evals(&evals1);
        proof {
            lemma_fold_at_top(t, k as nat, 0);
            lemma_fold_at_top(t, k as nat, 1);
            assert(s0@ == sump(fold_top(t, 0)));
            assert(s1@ == sump(fold_top(t, 1)));
        }
        let rb = pair_bytes(&s0, &s1);
        transcript.absorb(rb.as_slice());
        let ghost s2 = st + enc32(s0@) + enc32(s1@);
        proof {
            s0.lemma_canonical();
            s1.lemma_canonical();
            assert(transcript.state() =~= s2);
        }
        rounds.push(RoundPoly { g0: s0, g1: s1 });
        let challenge = transcript.squeeze();
        proof {
            assert(challenge@ == challenge_of(s2));
            assert(transcript.state() == after_squeeze(s2));
        }
        let next = MultilinearPoly::fold_once(&cur, k - 1, &challenge, Ghost(k as nat));
        proof {
            lemma_fold_at_top(t, k as nat, challenge@);
            assert(vals(next@) == fold_top(t, challenge@));
            // One unfolding of the honest-prover recursion.
            assert(prove_rounds(t, st) == seq![(s0@, s1@)] + prove_rounds(
                fold_top(t, challenge@),
                after_squeeze(s2),
            ));
            assert(pairs_of(rounds@) =~= pairs_of(rounds@.drop_last()).push((s0@, s1@)));
            assert(pairs_of(rounds@.drop_last()) + prove_rounds(t, st) =~= pairs_of(rounds@)
                + prove_rounds(fold_top(t, challenge@), after_squeeze(s2)));
        }
        cur = next;
        k = k - 1;
    }
    proof {
        lemma2_to64();
        assert(prove_rounds(vals(cur@), transcript.state()) =~= Seq::<(int, int)>::empty());
        assert(pairs_of(rounds@) + Seq::<(int, int)>::empty() =~= pairs_of(rounds@));
    }
    Proof { claimed_sum, round_polys: rounds }
}


/// One verifier round: check the pair against the running sum; if it holds,
/// absorb the pair, squeeze the round's challenge, and fold the running sum
/// to the round polynomial's value at the challenge.
fn verify_round(transcript: &mut Transcript<KeccakHasher>, computed_sum: &Fe, rp: &RoundPoly) -> (r:
    Option<(Fe, Fe)>)
    requires
        computed_sum.inv(),
        rp.g0.inv(),
        rp.g1.inv(),
    ensures
        match r {
            None => {
                &&& addp(rp.g0@, rp.g1@) != computed_sum@
                &&& final(transcript).state() == old(transcript).state()
            },
            Some(cn) => {
                let s2 = old(transcript).state() + enc32(rp.g0@) + enc32(rp.g1@);
                &&& addp(rp.g0@, rp.g1@) == computed_sum@
                &&& cn.0.inv()
                &&& cn.1.inv()
                &&& cn.0@ == challenge_of(s2)
                &&& cn.1@ == addp(rp.g0@, mulp(cn.0@, subp(rp.g1@, rp.g0@)))
                &&& final(transcript).state() == after_squeeze(s2)
            },
        },
{
    let round_total = rp.g0.add(&rp.g1);
    if !round_total.equals(computed_sum) {
        return None;
    }
    let rb = pair_bytes(&rp.g0, &rp.g1);
    let ghost st = transcript.state();
    transcript.absorb(rb.as_slice());
    proof {
        rp.g0.lemma_canonical();
        rp.g1.lemma_canonical();
        assert(transcript.state() =~= st + enc32(rp.g0@) + enc32(rp.g1@));
    }
    let challenge = transcript.squeeze();
    let new_sum = rp.g0.add(&challenge.mul(&rp.g1.sub(&rp.g0)));
    Some((challenge, new_sum))
}

/// Check a sum-check proof against the polynomial itself: replay the
/// prover's transcript, check each round against the running sum, and check
/// the final running sum against the polynomial's value at the recovered
/// challenge point.  The outcome is exactly [`verify_accepts`].
#[verifier::rlimit(60)]
#[verifier::spinoff_prover]
pub fn verify(pf: &Proof, poly: &MultilinearPoly) -> (ok: bool)
    requires
        poly.wf(),
        pf.wf(),
    ensures
        ok == verify_accepts(
            pf.claimed_sum@,
            pairs_of(pf.round_polys@),
            poly.table(),
            poly.num_vars as nat,
        ),
{
    let ghost t0 = poly.table();
    let ghost rps = pairs_of(pf.round_polys@);
    let ghost s_init = setup_state(t0, pf.claimed_sum@);
    if pf.round_polys.len() != poly.num_vars {
        return false;
    }
    let mut transcript = Transcript::new(KeccakHasher::new());
    let poly_bytes = fes_to_bytes(&poly.evaluations);
    transcript.absorb(poly_bytes.as_slice());
    let cs_bytes = pf.claimed_sum.to_bytes();
    transcript.absorb(cs_bytes.as_slice());
    proof {
        lemma_fes_bytes_canonical(poly.evaluations@);
        pf.claimed_sum.lemma_canonical();
        assert(transcript.state() =~= s_init);
    }
    let ghost total = run_rounds(rps, pf.claimed_sum@, s_init);
    let mut computed_sum = pf.claimed_sum;
    let mut challenges: Vec<Fe> = Vec::new();
    let mut i: usize = 0;
    proof {
        assert(rps.skip(0) =~= rps);
        assert(vals(challenges@) =~= Seq::<int>::empty());
    }
    while i < pf.round_polys.len()
        invariant
            pf.wf(),
            poly.wf(),
            0 <= i <= pf.round_polys@.len(),
            t0 == poly.table(),
            s_init == setup_state(t0, pf.claimed_sum@),
            rps == pairs_of(pf.round_polys@),
            rps.len() == pf.round_polys@.len(),
            rps.len() == poly.num_vars,
            computed_sum.inv(),
            challenges@.len() == i,
            all_inv(challenges@),
            total == run_rounds(rps, pf.claimed_sum@, s_init),
            ({
                let rec = run_rounds(rps.skip(i as int), computed_sum@, transcript.state());
                &&& total.0 == rec.0
                &&& total.1 == vals(challenges@) + rec.1
                &&& total.2 == rec.2
            }),
        decreases pf.round_polys@.len() - i,
    {
        let ghost rest = rps.skip(i as int);
        let ghost st = transcript.state();
        proof {
            assert(rest.first() == rps[i as int]);
            assert(rest.drop_first() =~= rps.skip(i as int + 1));
            assert(pf.round_polys@[i as int].g0.inv());
            assert(rps[i as int] == (pf.round_polys@[i as int].g0@, pf.round_polys@[i as int].g1@));
        }
        let rp = pf.round_polys[i];
        match verify_round(&mut transcript, &computed_sum, &rp) {
            None => {
                // This round's pair does not reconstitute the running claim.
                proof {
                    assert(run_rounds(rest, computed_sum@, st) == (
                        false,
                        Seq::<int>::empty(),
                        0int,
                    ));
                    assert(!total.0);
                    assert(!verify_accepts(
                        pf.claimed_sum@,
                        rps,
                        t0,
                        poly.num_vars as nat,
                    ));
                }
                return false;
            },
            Some(cn) => {
                let (challenge, new_sum) = cn;
                challenges.push(challenge);
                computed_sum = new_sum;
                i += 1;
                proof {
                    let s2 = st + enc32(rp.g0@) + enc32(rp.g1@);
                    let rec = run_rounds(rps.skip(i as int), computed_sum@, transcript.state());
                    assert(run_rounds(rest, addp(rp.g0@, rp.g1@), st) == (
                        rec.0,
                        seq![challenge_of(s2)] + rec.1,
                        rec.2,
                    ));
                    assert(vals(challenges@) =~= vals(challenges@.drop_last()).push(challenge@));
                    assert(vals(challenges@.drop_last()) + (seq![challenge@] + rec.1) =~= vals(
                        challenges@,
                    ) + rec.1);
                }
            },
        }
    }
    proof {
        assert(rps.skip(rps.len() as int) =~= Seq::<(int, int)>::empty());
        assert(total.0);
        assert(total.1 =~= vals(challenges@));
        assert(total.2 == computed_sum@);
    }
    // The first challenge fixed the top variable, so the evaluation point
    // lists the challenges in reverse squeeze order.
    let mut rev: Vec<Fe> = Vec::new();
    let mut j = challenges.len();
    while j > 0
        invariant
            0 <= j <= challenges@.len(),
            all_inv(challenges@),
            rev@.len() == challenges@.len() - j,
            forall|l: int|
                0 <= l < rev@.len() ==> #[trigger] rev@[l] == challenges@[challenges@.len() - 1
                    - l],
        decreases j,
    {
        j -= 1;
        rev.push(challenges[j]);
    }
    proof {
        assert(all_inv(rev@));
        assert(vals(rev@) =~= total.1.reverse());
    }
    match poly.evaluate(&rev) {
        Ok(value) => value.equals(&computed_sum),
        Err(_) => {
            proof {
                assert(rev@.len() == poly.num_vars);
                assert(false);
            }
            unreached()
        },
    }
}

/// Entries produced by a top collapse are residues.
proof fn lemma_fold_top_in_field(t: Seq<int>, v: int)
    ensures
        all_in_field(fold_top(t, v)),
{
    assert forall|i: int| 0 <= i < fold_top(t, v).len() implies in_field(
        #[trigger] fold_top(t, v)[i],
    ) by {
        crate::modp::lemma_addp_in_field(
            mulp(subp(1, v), t[i]),
            mulp(v, t[i + t.len() / 2]),
        );
    };
}

/// Entries after any number of top collapses are residues.
proof fn lemma_fold_top_iter_in_field(t: Seq<int>, cs: Seq<int>)
    requires
        all_in_field(t),
    ensures
        all_in_field(fold_top_iter(t, cs)),
    decreases cs.len(),
{
    if cs.len() > 0 {
        lemma_fold_top_in_field(t, cs.first());
        lemma_fold_top_iter_in_field(fold_top(t, cs.first()), cs.drop_first());
    }
}

/// Fixing the top variable to `0` keeps the low half of the table, fixing it
/// to `1` the high half; so the two round values reconstitute the sum.
proof fn lemma_fold_top_halves(t: Seq<int>)
    requires
        all_in_field(t),
        t.len() % 2 == 0,
    ensures
        fold_top(t, 0) == t.take(t.len() as int / 2),
        fold_top(t, 1) == t.skip(t.len() as int / 2),
        addp(sump(fold_top(t, 0)), sump(fold_top(t, 1))) == sump(t),
{
    let h = t.len() as int / 2;
    assert forall|i: int| 0 <= i < h implies #[trigger] fold_top(t, 0)[i] == t[i] by {
        crate::modp::lemma_aff_units(t[i], t[i + h]);
    };
    assert forall|i: int| 0 <= i < h implies #[trigger] fold_top(t, 1)[i] == t[i + h] by {
        crate::modp::lemma_aff_units(t[i], t[i + h]);
    };
    assert(fold_top(t, 0) =~= t.take(h));
    assert(fold_top(t, 1) =~= t.skip(h));
    crate::modp::lemma_sump_concat(t.take(h), t.skip(h));
    assert(t.take(h) + t.skip(h) =~= t);
}

/// The verifier's linear round update `g(0) + c * (g(1) - g(0))` is the sum
/// of the table collapsed at the challenge.
proof fn lemma_round_sum(t: Seq<int>, c: int)
    requires
        all_in_field(t),
        t.len() % 2 == 0,
        in_field(c),
    ensures
        addp(
            sump(fold_top(t, 0)),
            mulp(c, subp(sump(fold_top(t, 1)), sump(fold_top(t, 0)))),
        ) == sump(fold_top(t, c)),
{
    let h = t.len() as int / 2;
    let a = t.take(h);
    let b = t.skip(h);
    lemma_fold_top_halves(t);
    assert(fold_top(t, c) =~= Seq::new(a.len(), |i: int| aff(c, a[i], b[i])));
    crate::modp::lemma_sump_aff_pointwise(c, a, b);
    crate::modp::lemma_sump_in_field(a);
    crate::modp::lemma_sump_in_field(b);
    crate::modp::lemma_round_update_is_aff(c, sump(a), sump(b));
}

/// The honest prover sends one round per variable.
proof fn lemma_prove_rounds_len(t: Seq<int>, s: Seq<u8>, n: nat)
    requires
        t.len() == pow2(n),
    ensures
        prove_rounds(t, s).len() == n,
        prove_challenges(t, s).len() == n,
    decreases n,
{
    lemma2_to64();
    if n == 0 {
    } else {
        assert(pow2(n) == 2 * pow2((n - 1) as nat)) by {
            lemma_pow2_adds((n - 1) as nat, 1);
        };
        lemma_pow2_pos((n - 1) as nat);
        let s0 = sump(fold_top(t, 0));
        let s1 = sump(fold_top(t, 1));
        let s2 = s + enc32(s0) + enc32(s1);
        let c = challenge_of(s2);
        lemma_prove_rounds_len(fold_top(t, c), after_squeeze(s2), (n - 1) as nat);
    }
}

/// Replaying an honest proof: every round check passes, the verifier
/// recovers exactly the prover's challenges, and the final running sum is
/// the fully collapsed table's sum.
proof fn lemma_run_of_prove(t: Seq<int>, s: Seq<u8>, n: nat)
    requires
        all_in_field(t),
        t.len() == pow2(n),
    ensures
        ({
            let run = run_rounds(prove_rounds(t, s), sump(t), s);
            &&& run.0
            &&& run.1 == prove_challenges(t, s)
            &&& run.2 == sump(fold_top_iter(t, prove_challenges(t, s)))
        }),
    decreases n,
{
    lemma2_to64();
    if n == 0 {
        assert(prove_rounds(t, s) =~= Seq::<(int, int)>::empty());
        assert(fold_top_iter(t, prove_challenges(t, s)) == t);
    } else {
        assert(pow2(n) == 2 * pow2((n - 1) as nat)) by {
            lemma_pow2_adds((n - 1) as nat, 1);
        };
        lemma_pow2_pos((n - 1) as nat);
        let s0 = sump(fold_top(t, 0));
        let s1 = sump(fold_top(t, 1));
        let s2 = s + enc32(s0) + enc32(s1);
        let c = challenge_of(s2);
        let s3 = after_squeeze(s2);
        let t2 = fold_top(t, c);
        lemma_fold_top_halves(t);
        assert(in_field(c)) by {
            vstd::arithmetic::div_mod::lemma_mod_bound(
                crate::field::be_of(keccak256_of(s2)),
                p(),
            );
        };
        lemma_round_sum(t, c);
        lemma_fold_top_in_field(t, c);
        lemma_run_of_prove(t2, s3, (n - 1) as nat);
        let rps = prove_rounds(t, s);
        let chals = prove_challenges(t, s);
        assert(rps == seq![(s0, s1)] + prove_rounds(t2, s3));
        assert(rps.first() == (s0, s1));
        assert(rps.drop_first() =~= prove_rounds(t2, s3));
        assert(chals == seq![c] + prove_challenges(t2, s3));
        assert(chals.first() == c);
        assert(chals.drop_first() =~= prove_challenges(t2, s3));
        assert(fold_top_iter(t, chals) == fold_top_iter(t2, prove_challenges(t2, s3)));
        let run = run_rounds(rps, sump(t), s);
        let rec = run_rounds(prove_rounds(t2, s3), sump(t2), s3);
        assert(run == (rec.0, seq![c] + rec.1, rec.2));
        assert(run.1 =~= chals);
    }
}

/// Collapsing the top variable and then the bottom one is the same as the
/// other way around: the two directions act on different bits.
proof fn lemma_fold_commute(t: Seq<int>, a: int, b: int, k: nat)
    requires
        k >= 2,
        t.len() == pow2(k),
    ensures
        fold_at(fold_top(t, b), 0, a) == fold_top(fold_at(t, 0, a), b),
{
    lemma2_to64();
    assert(pow2(k) == 2 * pow2((k - 1) as nat)) by {
        lemma_pow2_adds((k - 1) as nat, 1);
    };
    assert(pow2((k - 1) as nat) == 2 * pow2((k - 2) as nat)) by {
        lemma_pow2_adds((k - 2) as nat, 1);
    };
    lemma_pow2_pos((k - 2) as nat);
    let hh = t.len() / 2;
    let u = fold_top(t, b);
    let w = fold_at(t, 0, a);
    assert(u.len() == hh);
    assert(w.len() == hh);
    let lhs = fold_at(u, 0, a);
    let rhs = fold_top(w, b);
    assert(lhs.len() == hh / 2);
    assert(rhs.len() == hh / 2);
    assert forall|i: int| 0 <= i < hh / 2 implies #[trigger] lhs[i] == rhs[i] by {
        vstd::arithmetic::div_mod::lemma_div_basics(i);
        vstd::arithmetic::div_mod::lemma_div_basics(i + hh / 2);
        assert(lo_index(i, 1) == 2 * i);
        assert(lo_index(i + hh / 2, 1) == 2 * i + hh);
        assert(u[2 * i] == aff(b, t[2 * i], t[2 * i + hh]));
        assert(u[2 * i + 1] == aff(b, t[2 * i + 1], t[2 * i + 1 + hh]));
        assert(lhs[i] == aff(a, u[2 * i], u[2 * i + 1]));
        assert(w[i] == aff(a, t[2 * i], t[2 * i + 1]));
        assert(w[i + hh / 2] == aff(a, t[2 * i + hh], t[2 * i + hh + 1]));
        assert(rhs[i] == aff(b, w[i], w[i + hh / 2]));
        crate::modp::lemma_aff_interchange(
            a,
            b,
            t[2 * i],
            t[2 * i + 1],
            t[2 * i + hh],
            t[2 * i + 1 + hh],
        );
    };
    assert(lhs =~= rhs);
}

/// Collapsing top-first under all the challenges equals first fixing the
/// bottom variable to the last challenge and then collapsing top-first under
/// the rest.
proof fn lemma_fold_iter_last(t: Seq<int>, cs: Seq<int>, k: nat)
    requires
        k >= 1,
        cs.len() == k,
        t.len() == pow2(k),
    ensures
        fold_top_iter(t, cs) == fold_top_iter(fold_at(t, 0, cs.last()), cs.drop_last()),
    decreases k,
{
    lemma2_to64();
    assert(pow2(k) == 2 * pow2((k - 1) as nat)) by {
        lemma_pow2_adds((k - 1) as nat, 1);
    };
    lemma_pow2_pos((k - 1) as nat);
    if k == 1 {
        assert(cs.first() == cs.last());
        assert(fold_top_iter(t, cs) == fold_top_iter(fold_top(t, cs.first()), cs.drop_first()));
        assert(cs.drop_first() =~= Seq::<int>::empty());
        assert(fold_top_iter(fold_top(t, cs.first()), cs.drop_first()) == fold_top(t, cs.first()));
        let w = fold_at(t, 0, cs.last());
        assert(cs.drop_last() =~= Seq::<int>::empty());
        vstd::arithmetic::div_mod::lemma_div_basics(0);
        assert(lo_index(0, 1) == 0);
        assert(w.len() == 1 && fold_top(t, cs.first()).len() == 1);
        assert(w[0] == aff(cs.last(), t[0], t[1]));
        assert(fold_top(t, cs.first())[0] == aff(cs.first(), t[0], t[1]));
        assert(fold_top(t, cs.first()) =~= w);
    } else {
        let c0 = cs.first();
        let u = fold_top(t, c0);
        let cs1 = cs.drop_first();
        assert(cs1.last() == cs.last());
        assert(u.len() == pow2((k - 1) as nat));
        lemma_fold_iter_last(u, cs1, (k - 1) as nat);
        lemma_fold_commute(t, cs.last(), c0, k);
        let w = fold_at(t, 0, cs.last());
        assert(w.len() == pow2((k - 1) as nat));
        assert(fold_top_iter(t, cs) == fold_top_iter(
            fold_top(w, c0),
            cs1.drop_last(),
        ));
        assert(cs.drop_last().first() == c0);
        assert(cs.drop_last().drop_first() =~= cs1.drop_last());
        assert(fold_top_iter(w, cs.drop_last()) == fold_top_iter(
            fold_top(w, c0),
            cs1.drop_last(),
        ));
    }
}

/// Evaluating at the challenges in reverse squeeze order reproduces the
/// prover's fully collapsed table: the first squeeze fixed the top variable,
/// the evaluation fixes the bottom one first.
proof fn lemma_eval_reverse(t: Seq<int>, cs: Seq<int>, k: nat)
    requires
        cs.len() == k,
        t.len() == pow2(k),
    ensures
        fold_top_iter(t, cs).len() == 1,
        eval_lsb(t, cs.reverse()) == fold_top_iter(t, cs)[0],
    decreases k,
{
    lemma2_to64();
    if k == 0 {
        assert(cs.reverse() =~= Seq::<int>::empty());
    } else {
        assert(pow2(k) == 2 * pow2((k - 1) as nat)) by {
            lemma_pow2_adds((k - 1) as nat, 1);
        };
        lemma_pow2_pos((k - 1) as nat);
        let cl = cs.last();
        let w = fold_at(t, 0, cl);
        assert(w.len() == pow2((k - 1) as nat));
        lemma_fold_iter_last(t, cs, k);
        let rev = cs.reverse();
        assert(rev.first() == cl);
        assert(rev.drop_first() =~= cs.drop_last().reverse());
        assert(eval_lsb(t, rev) == eval_lsb(w, cs.drop_last().reverse()));
        lemma_eval_reverse(w, cs.drop_last(), (k - 1) as nat);
    }
}

/// Sum-check completeness: when the claimed sum is the true sum of the
/// table, the verifier accepts the honest prover's proof, for every number
/// of variables.
pub proof fn lemma_sumcheck_completeness(t: Seq<int>, n: nat)
    requires
        all_in_field(t),
        t.len() == pow2(n),
    ensures
        verify_accepts(sump(t), prove_rounds(t, setup_state(t, sump(t))), t, n),
{
    let s = setup_state(t, sump(t));
    lemma_prove_rounds_len(t, s, n);
    lemma_run_of_prove(t, s, n);
    let cs = prove_challenges(t, s);
    lemma_eval_reverse(t, cs, n);
    let itr = fold_top_iter(t, cs);
    lemma_fold_top_iter_in_field(t, cs);
    assert(itr.drop_last() =~= Seq::<int>::empty());
    assert(sump(Seq::<int>::empty()) == 0);
    assert(sump(itr.drop_last()) == 0);
    assert(itr.last() == itr[0]);
    assert(sump(itr) == addp(0, itr[0]));
    assert(in_field(itr[0]));
    crate::modp::lemma_addp_zero(itr[0]);
    let run = run_rounds(prove_rounds(t, s), sump(t), s);
    assert(run.1 == cs);
    assert(eval_lsb(t, run.1.reverse()) == run.2);
}


/// The value at `c` of the quadratic through `(0, y0)`, `(1, y1)` and
/// `(2, y2)`, by Lagrange interpolation modulo `p`.
pub open spec fn quad_at(c: int, y0: int, y1: int, y2: int) -> int {
    let l0 = mulp(mulp(subp(c, 1), subp(c, 2)), crate::modp::inv2());
    let l1 = mulp(c, subp(2, c));
    let l2 = mulp(mulp(c, subp(c, 1)), crate::modp::inv2());
    addp(addp(mulp(y0, l0), mulp(y1, l1)), mulp(y2, l2))
}

/// The round triples an honest prover sends in the three-point protocol:
/// the round polynomial's values at `0`, `1` and `2`.
pub open spec fn prove_rounds3(t: Seq<int>, s: Seq<u8>) -> Seq<(int, int, int)>
    decreases t.len(),
{
    if t.len() < 2 {
        Seq::empty()
    } else {
        let s0 = sump(fold_top(t, 0));
        let s1 = sump(fold_top(t, 1));
        let s2 = sump(fold_top(t, 2));
        let sa = s + enc32(s0) + enc32(s1) + enc32(s2);
        let c = challenge_of(sa);
        seq![(s0, s1, s2)] + prove_rounds3(fold_top(t, c), after_squeeze(sa))
    }
}

/// The transcript state an honest three-point prover leaves behind.
pub open spec fn prove_state3(t: Seq<int>, s: Seq<u8>) -> Seq<u8>
    decreases t.len(),
{
    if t.len() < 2 {
        s
    } else {
        let s0 = sump(fold_top(t, 0));
        let s1 = sump(fold_top(t, 1));
        let s2 = sump(fold_top(t, 2));
        let sa = s + enc32(s0) + enc32(s1) + enc32(s2);
        let c = challenge_of(sa);
        prove_state3(fold_top(t, c), after_squeeze(sa))
    }
}

/// The verifier's replay over round triples: whether every round check
/// passed, the challenges in squeeze order, the final running sum, and the
/// transcript state where the replay stopped.
pub open spec fn run_rounds3(rps: Seq<(int, int, int)>, rs: int, s: Seq<u8>) -> (
    bool,
    Seq<int>,
    int,
    Seq<u8>,
)
    decreases rps.len(),
{
    if rps.len() == 0 {
        (true, Seq::empty(), rs, s)
    } else {
        let g0 = rps.first().0;
        let g1 = rps.first().1;
        let g2 = rps.first().2;
        if addp(g0, g1) != rs {
            (false, Seq::empty(), 0, s)
        } else {
            let sa = s + enc32(g0) + enc32(g1) + enc32(g2);
            let c = challenge_of(sa);
            let rs2 = quad_at(c, g0, g1, g2);
            let rec = run_rounds3(rps.drop_first(), rs2, after_squeeze(sa));
            (rec.0, seq![c] + rec.1, rec.2, rec.3)
        }
    }
}

/// One round's polynomial in the three-point protocol: its values at `0`,
/// `1` and `2`, as needed for degree-2 rounds.
#[derive(Clone, Copy, Debug)]
pub struct RoundPoly3 {
    /// The round polynomial at `0`.
    pub g0: Fe,
    /// The round polynomial at `1`.
    pub g1: Fe,
    /// The round polynomial at `2`.
    pub g2: Fe,
}

/// A sum-check proof in the three-point protocol.
#[derive(Clone, Debug)]
pub struct PartialProof {
    /// The sum over the hypercube being claimed.
    pub claimed_sum: Fe,
    /// One round polynomial per variable, in elimination order.
    pub round_polys: Vec<RoundPoly3>,
}

/// The value triples of a round-polynomial sequence.
pub open spec fn triples_of(rps: Seq<RoundPoly3>) -> Seq<(int, int, int)> {
    rps.map_values(|rp: RoundPoly3| (rp.g0@, rp.g1@, rp.g2@))
}

/// Every entry of a round-polynomial sequence is well formed.
pub open spec fn triples_inv(rps: Seq<RoundPoly3>) -> bool {
    forall|i: int|
        0 <= i < rps.len() ==> (#[trigger] rps[i]).g0.inv() && rps[i].g1.inv() && rps[i].g2.inv()
}

impl PartialProof {
    /// Well-formed: the claimed sum and every round value are residues.
    pub open spec fn wf(self) -> bool {
        &&& self.claimed_sum.inv()
        &&& triples_inv(self.round_polys@)
    }
}

/// The canonical bytes of one round's triple.
fn triple_bytes(a: &Fe, b: &Fe, c: &Fe) -> (r: Vec<u8>)
    ensures
        r@ == a.byte_seq() + b.byte_seq() + c.byte_seq(),
{
    let mut out = a.to_bytes();
    let bb = b.to_bytes();
    push_all(&mut out, &bb);
    let cc = c.to_bytes();
    push_all(&mut out, &cc);
    out
}

/// The residue of one half, as a field element.
fn fe_half() -> (r: Fe)
    ensures
        r.inv(),
        r@ == crate::modp::inv2(),
{
    let two = Fe::from_u64(2);
    match two.inverse() {
        Some(h) => {
            proof {
                crate::modp::lemma_inv2_unique(h@);
            }
            h
        },
        None => {
            proof {
                assert(false);
            }
            unreached()
        },
    }
}

/// The round polynomial reconstructed from its three samples, at `c`.
fn quad_eval(c: &Fe, g0: &Fe, g1: &Fe, g2: &Fe, half: &Fe) -> (r: Fe)
    requires
        c.inv(),
        g0.inv(),
        g1.inv(),
        g2.inv(),
        half.inv(),
        half@ == crate::modp::inv2(),
    ensures
        r.inv(),
        r@ == quad_at(c@, g0@, g1@, g2@),
{
    let one = Fe::one();
    let two = Fe::from_u64(2);
    let l0 = c.sub(&one).mul(&c.sub(&two)).mul(half);
    let l1 = c.mul(&two.sub(c));
    let l2 = c.mul(&c.sub(&one)).mul(half);
    g0.mul(&l0).add(&g1.mul(&l1)).add(&g2.mul(&l2))
}

/// Produce a three-point sum-check proof over a caller-supplied transcript:
/// absorb the table and the claimed sum, then per round send the round
/// polynomial's values at `0`, `1` and `2`, squeeze the challenge, and
/// collapse the table at it.
pub fn partial_prove(
    poly: &MultilinearPoly,
    claimed_sum: Fe,
    transcript: &mut Transcript<KeccakHasher>,
) -> (pf: PartialProof)
    requires
        poly.wf(),
        claimed_sum.inv(),
    ensures
        pf.wf(),
        pf.claimed_sum == claimed_sum,
        pf.round_polys@.len() == poly.num_vars,
        triples_of(pf.round_polys@) == prove_rounds3(
            poly.table(),
            old(transcript).state() + setup_state(poly.table(), claimed_sum@),
        ),
        final(transcript).state() == prove_state3(
            poly.table(),
            old(transcript).state() + setup_state(poly.table(), claimed_sum@),
        ),
{
    let ghost t0 = poly.table();
    let ghost s_init = old(transcript).state() + setup_state(t0, claimed_sum@);
    let poly_bytes = fes_to_bytes(&poly.evaluations);
    transcript.absorb(poly_bytes.as_slice());
    let cs_bytes = claimed_sum.to_bytes();
    transcript.absorb(cs_bytes.as_slice());
    proof {
        lemma_fes_bytes_canonical(poly.evaluations@);
        claimed_sum.lemma_canonical();
        assert(transcript.state() =~= s_init);
    }
    let mut cur = crate::multilinear::copy_fes(&poly.evaluations);
    let mut k = poly.num_vars;
    let mut rounds: Vec<RoundPoly3> = Vec::new();
    proof {
        assert(triples_of(rounds@) =~= Seq::<(int, int, int)>::empty());
        assert(prove_rounds3(t0, s_init) =~= triples_of(rounds@) + prove_rounds3(
            vals(cur@),
            transcript.state(),
        ));
    }
    while k > 0
        invariant
            poly.wf(),
            claimed_sum.inv(),
            t0 == poly.table(),
            k <= poly.num_vars,
            cur@.len() == pow2(k as nat),
            all_inv(cur@),
            rounds@.len() == poly.num_vars - k,
            triples_inv(rounds@),
            prove_rounds3(t0, s_init) == triples_of(rounds@) + prove_rounds3(
                vals(cur@),
                transcript.state(),
            ),
            prove_state3(t0, s_init) == prove_state3(vals(cur@), transcript.state()),
        decreases k,
    {
        let ghost t = vals(cur@);
        let ghost st = transcript.state();
        proof {
            assert(pow2(k as nat) == 2 * pow2((k - 1) as nat)) by {
                lemma_pow2_adds((k - 1) as nat, 1);
                lemma2_to64();
            };
            lemma_pow2_pos((k - 1) as nat);
        }
        let zero = Fe::zero();
        let one = Fe::one();
        let two = Fe::from_u64(2);
        let evals0 = MultilinearPoly::fold_once(&cur, k - 1, &zero, Ghost(k as nat));
        let s0 = sum_evals(&evals0);
        let evals1 = MultilinearPoly::fold_once(&cur, k - 1, &one, Ghost(k as nat));
        let s1 = sum_evals(&evals1);
        let evals2 = MultilinearPoly::fold_once(&cur, k - 1, &two, Ghost(k as nat));
        let s2 = sum_evals(&evals2);
        proof {
            lemma_fold_at_top(t, k as nat, 0);
            lemma_fold_at_top(t, k as nat, 1);
            lemma_fold_at_top(t, k as nat, 2);
        }
        let rb = triple_bytes(&s0, &s1, &s2);
        transcript.absorb(rb.as_slice());
        let ghost sa = st + enc32(s0@) + enc32(s1@) + enc32(s2@);
        proof {
            s0.lemma_canonical();
            s1.lemma_canonical();
            s2.lemma_canonical();
            assert(transcript.state() =~= sa);
        }
        rounds.push(RoundPoly3 { g0: s0, g1: s1, g2: s2 });
        let challenge = transcript.squeeze();
        proof {
            assert(challenge@ == challenge_of(sa));
            assert(transcript.state() == after_squeeze(sa));
        }
        let next = MultilinearPoly::fold_once(&cur, k - 1, &challenge, Ghost(k as nat));
        proof {
            lemma_fold_at_top(t, k as nat, challenge@);
            assert(vals(next@) == fold_top(t, challenge@));
            assert(prove_rounds3(t, st) == seq![(s0@, s1@, s2@)] + prove_rounds3(
                fold_top(t, challenge@),
                after_squeeze(sa),
            ));
            assert(prove_state3(t, st) == prove_state3(
                fold_top(t, challenge@),
                after_squeeze(sa),
            ));
            assert(triples_of(rounds@) =~= triples_of(rounds@.drop_last()).push(
                (s0@, s1@, s2@),
            ));
            assert(triples_of(rounds@.drop_last()) + prove_rounds3(t, st) =~= triples_of(rounds@)
                + prove_rounds3(fold_top(t, challenge@), after_squeeze(sa)));
        }
        cur = next;
        k = k - 1;
    }
    proof {
        lemma2_to64();
        assert(prove_rounds3(vals(cur@), transcript.state()) =~= Seq::<(int, int, int)>::empty());
        assert(triples_of(rounds@) + Seq::<(int, int, int)>::empty() =~= triples_of(rounds@));
    }
    PartialProof { claimed_sum, round_polys: rounds }
}

/// One three-point verifier round: check the triple's first two values
/// against the running sum; if they hold, absorb the triple, squeeze the
/// challenge, and move the running sum to the quadratic's value there.
fn verify_round3(
    transcript: &mut Transcript<KeccakHasher>,
    computed_sum: &Fe,
    rp: &RoundPoly3,
    half: &Fe,
) -> (r: Option<(Fe, Fe)>)
    requires
        computed_sum.inv(),
        rp.g0.inv(),
        rp.g1.inv(),
        rp.g2.inv(),
        half.inv(),
        half@ == crate::modp::inv2(),
    ensures
        match r {
            None => {
                &&& addp(rp.g0@, rp.g1@) != computed_sum@
                &&& final(transcript).state() == old(transcript).state()
            },
            Some(cn) => {
                let sa = old(transcript).state() + enc32(rp.g0@) + enc32(rp.g1@) + enc32(rp.g2@);
                &&& addp(rp.g0@, rp.g1@) == computed_sum@
                &&& cn.0.inv()
                &&& cn.1.inv()
                &&& cn.0@ == challenge_of(sa)
                &&& cn.1@ == quad_at(cn.0@, rp.g0@, rp.g1@, rp.g2@)
                &&& final(transcript).state() == after_squeeze(sa)
            },
        },
{
    let round_total = rp.g0.add(&rp.g1);
    if !round_total.equals(computed_sum) {
        return None;
    }
    let rb = triple_bytes(&rp.g0, &rp.g1, &rp.g2);
    let ghost st = transcript.state();
    transcript.absorb(rb.as_slice());
    proof {
        rp.g0.lemma_canonical();
        rp.g1.lemma_canonical();
        rp.g2.lemma_canonical();
        assert(transcript.state() =~= st + enc32(rp.g0@) + enc32(rp.g1@) + enc32(rp.g2@));
    }
    let challenge = transcript.squeeze();
    let new_sum = quad_eval(&challenge, &rp.g0, &rp.g1, &rp.g2, half);
    Some((challenge, new_sum))
}

/// Check a three-point proof over a caller-supplied transcript.  Instead of
/// a verdict it hands back the recovered challenges, in the order the
/// polynomial's `evaluate` expects, and the final running sum, so the caller
/// can make the final oracle check itself; a failed round or a wrong round
/// count yields no challenges and a zero sum.
#[verifier::rlimit(60)]
#[verifier::spinoff_prover]
pub fn partial_verify(
    pf: &PartialProof,
    poly: &MultilinearPoly,
    transcript: &mut Transcript<KeccakHasher>,
) -> (r: (Vec<Fe>, Fe))
    requires
        poly.wf(),
        pf.wf(),
    ensures
        ({
            let rps = triples_of(pf.round_polys@);
            let s0 = old(transcript).state() + setup_state(poly.table(), pf.claimed_sum@);
            let run = run_rounds3(rps, pf.claimed_sum@, s0);
            &&& r.1.inv()
            &&& all_inv(r.0@)
            &&& (rps.len() != poly.num_vars ==> final(transcript).state() == old(
                transcript,
            ).state() && r.0@.len() == 0 && r.1@ == 0)
            &&& (rps.len() == poly.num_vars ==> final(transcript).state() == run.3)
            &&& (rps.len() == poly.num_vars && run.0 ==> vals(r.0@) == run.1.reverse() && r.1@
                == run.2)
            &&& (rps.len() == poly.num_vars && !run.0 ==> r.0@.len() == 0 && r.1@ == 0)
        }),
{
    let ghost t0 = poly.table();
    let ghost rps = triples_of(pf.round_polys@);
    let ghost s_init = old(transcript).state() + setup_state(t0, pf.claimed_sum@);
    if pf.round_polys.len() != poly.num_vars {
        return (Vec::new(), Fe::zero());
    }
    let poly_bytes = fes_to_bytes(&poly.evaluations);
    transcript.absorb(poly_bytes.as_slice());
    let cs_bytes = pf.claimed_sum.to_bytes();
    transcript.absorb(cs_bytes.as_slice());
    proof {
        lemma_fes_bytes_canonical(poly.evaluations@);
        pf.claimed_sum.lemma_canonical();
        assert(transcript.state() =~= s_init);
    }
    let ghost total = run_rounds3(rps, pf.claimed_sum@, s_init);
    let half = fe_half();
    let mut computed_sum = pf.claimed_sum;
    let mut challenges: Vec<Fe> = Vec::new();
    let mut i: usize = 0;
    proof {
        assert(rps.skip(0) =~= rps);
        assert(vals(challenges@) =~= Seq::<int>::empty());
    }
    while i < pf.round_polys.len()
        invariant
            pf.wf(),
            poly.wf(),
            0 <= i <= pf.round_polys@.len(),
            t0 == poly.table(),
            s_init == old(transcript).state() + setup_state(t0, pf.claimed_sum@),
            rps == triples_of(pf.round_polys@),
            rps.len() == pf.round_polys@.len(),
            rps.len() == poly.num_vars,
            half.inv(),
            half@ == crate::modp::inv2(),
            computed_sum.inv(),
            challenges@.len() == i,
            all_inv(challenges@),
            total == run_rounds3(rps, pf.claimed_sum@, s_init),
            ({
                let rec = run_rounds3(rps.skip(i as int), computed_sum@, transcript.state());
                &&& total.0 == rec.0
                &&& total.1 == vals(challenges@) + rec.1
                &&& total.2 == rec.2
                &&& total.3 == rec.3
            }),
        decreases pf.round_polys@.len() - i,
    {
        let ghost rest = rps.skip(i as int);
        let ghost st = transcript.state();
        proof {
            assert(rest.first() == rps[i as int]);
            assert(rest.drop_first() =~= rps.skip(i as int + 1));
            assert(pf.round_polys@[i as int].g0.inv());
            assert(rps[i as int] == (
                pf.round_polys@[i as int].g0@,
                pf.round_polys@[i as int].g1@,
                pf.round_polys@[i as int].g2@,
            ));
        }
        let rp = pf.round_polys[i];
        match verify_round3(transcript, &computed_sum, &rp, &half) {
            None => {
                proof {
                    assert(run_rounds3(rest, computed_sum@, st) == (
                        false,
                        Seq::<int>::empty(),
                        0int,
                        st,
                    ));
                    assert(!total.0);
                    assert(total.3 == st);
                }
                return (Vec::new(), Fe::zero());
            },
            Some(cn) => {
                let (challenge, new_sum) = cn;
                challenges.push(challenge);
                computed_sum = new_sum;
                i += 1;
                proof {
                    let sa = st + enc32(rp.g0@) + enc32(rp.g1@) + enc32(rp.g2@);
                    let rec = run_rounds3(rps.skip(i as int), computed_sum@, transcript.state());
                    assert(run_rounds3(rest, addp(rp.g0@, rp.g1@), st) == (
                        rec.0,
                        seq![challenge_of(sa)] + rec.1,
                        rec.2,
                        rec.3,
                    ));
                    assert(vals(challenges@) =~= vals(challenges@.drop_last()).push(challenge@));
                    assert(vals(challenges@.drop_last()) + (seq![challenge@] + rec.1) =~= vals(
                        challenges@,
                    ) + rec.1);
                }
            },
        }
    }
    proof {
        assert(rps.skip(rps.len() as int) =~= Seq::<(int, int, int)>::empty());
        assert(total.0);
        assert(total.1 =~= vals(challenges@));
        assert(total.2 == computed_sum@);
        assert(total.3 == transcript.state());
    }
    // Hand the challenges back in the order `evaluate` expects: the first
    // squeeze fixed the top variable.
    let mut rev: Vec<Fe> = Vec::new();
    let mut j = challenges.len();
    while j > 0
        invariant
            0 <= j <= challenges@.len(),
            all_inv(challenges@),
            rev@.len() == challenges@.len() - j,
            forall|l: int|
                0 <= l < rev@.len() ==> #[trigger] rev@[l] == challenges@[challenges@.len() - 1
                    - l],
        decreases j,
    {
        j -= 1;
        rev.push(challenges[j]);
    }
    proof {
        assert(all_inv(rev@));
        assert(vals(rev@) =~= total.1.reverse());
    }
    (rev, computed_sum)
}

/// Three collinear samples interpolate back to their line: when the sample
/// at `2` lies on the line through the samples at `0` and `1`, the quadratic
/// reconstruction agrees with the line everywhere.
proof fn lemma_quad_collinear(c: int, y0: int, y1: int)
    requires
        in_field(c),
        in_field(y0),
        in_field(y1),
    ensures
        quad_at(c, y0, y1, aff(2, y0, y1)) == aff(c, y0, y1),
{
    let i2 = crate::modp::inv2();
    let w = subp(c, 1);
    let l0 = mulp(mulp(subp(c, 1), subp(c, 2)), i2);
    let l1 = mulp(c, subp(2, c));
    let l2 = mulp(mulp(c, subp(c, 1)), i2);
    let pm1 = subp(1, 2);
    let y2c = aff(2, y0, y1);
    crate::modp::lemma_inv2();
    crate::modp::lemma_mulp_in_field(mulp(c, w), i2);
    crate::modp::lemma_subp_in_field(c, 1);

    assert(pm1 == p() - 1) by {
        vstd::arithmetic::div_mod::lemma_small_mod((p() - 1) as nat, p() as nat);
    };

    // Split the third term into its y0 and y1 parts.
    assert(mulp(y2c, l2) == addp(mulp(y0, mulp(pm1, l2)), mulp(y1, mulp(2, l2)))) by {
        crate::modp::lemma_mulp_distributes(l2, mulp(pm1, y0), mulp(2, y1));
        crate::modp::lemma_mulp_comm(y2c, l2);
        crate::modp::lemma_mulp_left_comm(l2, pm1, y0);
        crate::modp::lemma_mulp_comm(l2, y0);
        crate::modp::lemma_mulp_left_comm(pm1, y0, l2);
        crate::modp::lemma_mulp_left_comm(l2, 2, y1);
        crate::modp::lemma_mulp_comm(l2, y1);
        crate::modp::lemma_mulp_left_comm(2, y1, l2);
    };

    // Coefficient of y1: l1 + 2 * l2 is c.
    assert(mulp(2, l2) == mulp(c, w)) by {
        crate::modp::lemma_mulp_left_comm(2, mulp(c, w), i2);
        crate::modp::lemma_mulp_comm(mulp(c, w), mulp(2, i2));
        crate::modp::lemma_mulp_units(mulp(c, w));
    };
    assert(addp(l1, mulp(c, w)) == c) by {
        crate::modp::lemma_mulp_distributes(c, subp(2, c), w);
        assert(addp(subp(2, c), w) == 1) by {
            vstd::arithmetic::div_mod::lemma_add_mod_noop(2 + p() - c, c + p() - 1, p());
            assert((2 + p() - c) + (c + p() - 1) == 2 * p() + 1);
            vstd::arithmetic::div_mod::lemma_mod_multiples_vanish(2, 1, p());
            vstd::arithmetic::div_mod::lemma_small_mod(1nat, p() as nat);
        };
        crate::modp::lemma_mulp_units(c);
    };

    // Coefficient of y0: l0 + (p - 1) * l2 is 1 - c.
    assert(mulp(pm1, l2) == subp(0, l2)) by {
        crate::modp::lemma_mulp_negate(l2);
    };
    assert(addp(l0, subp(0, l2)) == subp(l0, l2)) by {
        vstd::arithmetic::div_mod::lemma_add_mod_noop_right(l0, p() - l2, p());
    };
    let m = mulp(subp(c, 1), subp(c, 2));
    let n = mulp(c, subp(c, 1));
    assert(subp(l0, l2) == mulp(i2, subp(m, n))) by {
        crate::modp::lemma_mulp_distributes_sub(i2, m, n);
        crate::modp::lemma_mulp_comm(m, i2);
        crate::modp::lemma_mulp_comm(n, i2);
    };
    assert(subp(m, n) == mulp(w, p() - 2)) by {
        crate::modp::lemma_mulp_distributes_sub(w, subp(c, 2), c);
        crate::modp::lemma_mulp_comm(w, subp(c, 2));
        crate::modp::lemma_mulp_comm(c, w);
        assert(subp(subp(c, 2), c) == p() - 2) by {
            vstd::arithmetic::div_mod::lemma_mod_add_multiples_vanish(
                (c + p() - 2) % p() - c,
                p(),
            );
            vstd::arithmetic::div_mod::lemma_sub_mod_noop(c + p() - 2, c, p());
            vstd::arithmetic::div_mod::lemma_small_mod(c as nat, p() as nat);
            vstd::arithmetic::div_mod::lemma_small_mod((p() - 2) as nat, p() as nat);
        };
    };
    assert(mulp(p() - 2, i2) == p() - 1) by {
        assert(2 * i2 == p() + 1);
        assert((p() - 2) * i2 == i2 * p() + (-(p() + 1))) by {
            vstd::arithmetic::mul::lemma_mul_is_distributive_sub_other_way(i2, p(), 2);
            vstd::arithmetic::mul::lemma_mul_is_commutative(p(), i2);
            vstd::arithmetic::mul::lemma_mul_is_commutative(2, i2);
        };
        vstd::arithmetic::div_mod::lemma_mod_multiples_vanish(i2, -(p() + 1), p());
        vstd::arithmetic::div_mod::lemma_mod_multiples_vanish(-1, -1, p());
        assert((-1) % p() == p() - 1) by {
            vstd::arithmetic::div_mod::lemma_mod_add_multiples_vanish(-1, p());
            vstd::arithmetic::div_mod::lemma_small_mod((p() - 1) as nat, p() as nat);
        };
    };
    assert(subp(l0, l2) == mulp(w, p() - 1)) by {
        crate::modp::lemma_mulp_left_comm(i2, w, p() - 2);
        crate::modp::lemma_mulp_comm(i2, p() - 2);
        crate::modp::lemma_mulp_comm(w, mulp(p() - 2, i2));
        crate::modp::lemma_mulp_comm(p() - 1, w);
    };
    assert(mulp(w, p() - 1) == subp(0, w)) by {
        crate::modp::lemma_mulp_comm(w, p() - 1);
        crate::modp::lemma_mulp_negate(w);
    };
    assert(subp(0, w) == subp(1, c)) by {
        vstd::arithmetic::div_mod::lemma_sub_mod_noop_right(p(), c + p() - 1, p());
        vstd::arithmetic::div_mod::lemma_mod_add_multiples_vanish(1 - c, p());
    };

    // Assemble: regroup the four products and pull the coefficients out.
    crate::modp::lemma_addp_four(
        mulp(y0, l0),
        mulp(y1, l1),
        mulp(y0, mulp(pm1, l2)),
        mulp(y1, mulp(2, l2)),
    );
    crate::modp::lemma_mulp_distributes(y0, l0, mulp(pm1, l2));
    crate::modp::lemma_mulp_distributes(y1, l1, mulp(2, l2));
    crate::modp::lemma_mulp_comm(subp(1, c), y0);
    crate::modp::lemma_mulp_comm(c, y1);
}

/// Replaying an honest three-point proof: every round check passes, the
/// final running sum is the fully collapsed table's sum, and the transcript
/// ends in the honest prover's state.
proof fn lemma_run3_of_prove3(t: Seq<int>, s: Seq<u8>, n: nat)
    requires
        all_in_field(t),
        t.len() == pow2(n),
    ensures
        ({
            let run = run_rounds3(prove_rounds3(t, s), sump(t), s);
            &&& run.0
            &&& run.1.len() == n
            &&& run.2 == sump(fold_top_iter(t, run.1))
            &&& run.3 == prove_state3(t, s)
        }),
    decreases n,
{
    lemma2_to64();
    if n == 0 {
        assert(prove_rounds3(t, s) =~= Seq::<(int, int, int)>::empty());
        let run = run_rounds3(prove_rounds3(t, s), sump(t), s);
        assert(fold_top_iter(t, run.1) == t);
    } else {
        assert(pow2(n) == 2 * pow2((n - 1) as nat)) by {
            lemma_pow2_adds((n - 1) as nat, 1);
        };
        lemma_pow2_pos((n - 1) as nat);
        let h = t.len() as int / 2;
        let a = t.take(h);
        let b = t.skip(h);
        let s0 = sump(fold_top(t, 0));
        let s1 = sump(fold_top(t, 1));
        let s2v = sump(fold_top(t, 2));
        let sa = s + enc32(s0) + enc32(s1) + enc32(s2v);
        let c = challenge_of(sa);
        let s3 = after_squeeze(sa);
        let t2 = fold_top(t, c);
        lemma_fold_top_halves(t);
        assert(in_field(c)) by {
            vstd::arithmetic::div_mod::lemma_mod_bound(
                crate::field::be_of(keccak256_of(sa)),
                p(),
            );
        };
        crate::modp::lemma_sump_in_field(a);
        crate::modp::lemma_sump_in_field(b);
        // The sample at 2 is collinear with the samples at 0 and 1.
        assert(fold_top(t, 2) =~= Seq::new(a.len() as nat, |i: int| aff(2, a[i], b[i])));
        crate::modp::lemma_sump_aff_pointwise(2, a, b);
        assert(s2v == aff(2, s0, s1));
        // The quadratic update lands on the collapsed table's sum.
        lemma_quad_collinear(c, s0, s1);
        assert(fold_top(t, c) =~= Seq::new(a.len() as nat, |i: int| aff(c, a[i], b[i])));
        crate::modp::lemma_sump_aff_pointwise(c, a, b);
        assert(quad_at(c, s0, s1, s2v) == sump(t2));
        lemma_fold_top_in_field(t, c);
        lemma_run3_of_prove3(t2, s3, (n - 1) as nat);
        let rps = prove_rounds3(t, s);
        assert(rps == seq![(s0, s1, s2v)] + prove_rounds3(t2, s3));
        assert(rps.first() == (s0, s1, s2v));
        assert(rps.drop_first() =~= prove_rounds3(t2, s3));
        let run = run_rounds3(rps, sump(t), s);
        let rec = run_rounds3(prove_rounds3(t2, s3), sump(t2), s3);
        assert(run == (rec.0, seq![c] + rec.1, rec.2, rec.3));
        assert((seq![c] + rec.1).first() == c);
        assert((seq![c] + rec.1).drop_first() =~= rec.1);
        assert(fold_top_iter(t, seq![c] + rec.1) == fold_top_iter(t2, rec.1));
        assert(prove_state3(t, s) == prove_state3(t2, s3));
    }
}

/// Three-point sum-check completeness: when the claimed sum is the true sum
/// of the table, the verifier's replay of the honest prover's proof passes
/// every round check, recovers challenges at which the polynomial evaluates
/// to the final running sum, and leaves the transcript exactly where the
/// prover left it.
pub proof fn lemma_partial_sumcheck_completeness(t: Seq<int>, s: Seq<u8>, n: nat)
    requires
        all_in_field(t),
        t.len() == pow2(n),
    ensures
        ({
            let run = run_rounds3(prove_rounds3(t, s), sump(t), s);
            &&& run.0
            &&& run.1.len() == n
            &&& eval_lsb(t, run.1.reverse()) == run.2
            &&& run.3 == prove_state3(t, s)
        }),
{
    lemma_run3_of_prove3(t, s, n);
    let run = run_rounds3(prove_rounds3(t, s), sump(t), s);
    lemma_eval_reverse(t, run.1, n);
    let itr = fold_top_iter(t, run.1);
    lemma_fold_top_iter_in_field(t, run.1);
    assert(itr.drop_last() =~= Seq::<int>::empty());
    assert(sump(Seq::<int>::empty()) == 0);
    assert(sump(itr.drop_last()) == 0);
    assert(itr.last() == itr[0]);
    assert(sump(itr) == addp(0, itr[0]));
    assert(in_field(itr[0]));
    crate::modp::lemma_addp_zero(itr[0]);
}

} // verus!
