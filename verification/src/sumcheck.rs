//! The non-interactive sum-check protocol: prover and verifier.
//!
//! The prover claims that a multilinear polynomial sums to `claimed_sum` over
//! the boolean hypercube.  Each round it emits the two endpoint sums of the
//! leading variable, absorbs them, draws the round challenge from the
//! transcript, and folds the polynomial at that challenge.  The verifier
//! replays the identical transcript, checks the additive decomposition of
//! every round, and finishes with a direct evaluation of the original
//! polynomial at the drawn challenge point.  Both sides' transcripts are
//! pinned byte for byte, so the whole exchange is a pure function of the
//! polynomial and the claim.

use vstd::prelude::*;
use crate::field::{Fp, fadd, fsub, fmul, modulus, encode_fp, lemma_fadd_injective};
use crate::multilinear::{MultilinearPoly, fold, eval_spec};
use crate::transcript::{Transcript, sha256_of, challenge_of};

verus! {

/// One round message: the live polynomial's endpoint evaluations `(g(0), g(1))`,
/// enough to describe it because it is affine in the leading variable.
#[derive(Clone, Copy, PartialEq, Eq, Structural, Debug)]
pub struct RoundMessage {
    pub eval_at_0: Fp,
    pub eval_at_1: Fp,
}

impl View for RoundMessage {
    type V = (nat, nat);

    open spec fn view(&self) -> (nat, nat) {
        (self.eval_at_0@, self.eval_at_1@)
    }
}

/// A non-interactive sum-check proof: the claim and one message per round.
#[derive(Debug)]
pub struct Proof {
    pub claimed_sum: Fp,
    pub round_polys: Vec<RoundMessage>,
}

/// The residue pairs of a message sequence.
pub open spec fn messages_view(msgs: Seq<RoundMessage>) -> Seq<(nat, nat)> {
    msgs.map_values(|m: RoundMessage| m@)
}

/// The field sum of a table of residues.
pub open spec fn sum_seq(s: Seq<nat>) -> nat
    decreases s.len(),
{
    if s.len() == 0 {
        0
    } else {
        fadd(sum_seq(s.drop_last()), s.last())
    }
}

/// The canonical byte encoding of a whole table, entry by entry.
pub open spec fn encode_table(s: Seq<nat>) -> Seq<u8>
    decreases s.len(),
{
    if s.len() == 0 {
        Seq::empty()
    } else {
        encode_table(s.drop_last()) + encode_fp(s.last())
    }
}

/// The bytes both parties absorb before the first round: the full table,
/// then the claimed sum.
pub open spec fn init_history(evals: Seq<nat>, claimed: nat) -> Seq<u8> {
    encode_table(evals) + encode_fp(claimed)
}

/// The message a prover emits on a live table: the sums of the table with
/// its leading variable fixed to 0 and to 1.
pub open spec fn round_message(evals: Seq<nat>, n: nat) -> (nat, nat) {
    (sum_seq(fold(evals, n, 0, 0)), sum_seq(fold(evals, n, 0, 1)))
}

/// The prover's live table and transcript history after `i` rounds.
pub open spec fn prover_state(evals: Seq<nat>, n: nat, h: Seq<u8>, i: nat) -> (Seq<nat>, Seq<u8>)
    decreases i,
{
    if i == 0 {
        (evals, h)
    } else {
        let prev = prover_state(evals, n, h, (i - 1) as nat);
        let live_n = (n - (i - 1)) as nat;
        let g = round_message(prev.0, live_n);
        let h1 = prev.1 + encode_fp(g.0) + encode_fp(g.1);
        (fold(prev.0, live_n, 0, challenge_of(sha256_of(h1))), h1 + sha256_of(h1))
    }
}

/// Every round message of a prover run, a pure function of the polynomial
/// and the absorbed prefix.
pub open spec fn prove_rounds(evals: Seq<nat>, n: nat, h: Seq<u8>) -> Seq<(nat, nat)> {
    Seq::new(n, |i: int| round_message(prover_state(evals, n, h, i as nat).0, (n - i) as nat))
}

/// The verifier's running sum, transcript history, and drawn challenges
/// after `i` rounds.
pub open spec fn verifier_state(msgs: Seq<(nat, nat)>, s0: nat, h0: Seq<u8>, i: nat) -> (
    nat,
    Seq<u8>,
    Seq<nat>,
)
    decreases i,
{
    if i == 0 {
        (s0, h0, Seq::empty())
    } else {
        let prev = verifier_state(msgs, s0, h0, (i - 1) as nat);
        let g = msgs[i - 1];
        let h1 = prev.1 + encode_fp(g.0) + encode_fp(g.1);
        let r = challenge_of(sha256_of(h1));
        (fadd(g.0, fmul(r, fsub(g.1, g.0))), h1 + sha256_of(h1), prev.2.push(r))
    }
}

/// The additive decomposition checks of the first `i` rounds: each round's
/// running sum must split into that round's two endpoint sums.
pub open spec fn rounds_ok(msgs: Seq<(nat, nat)>, s0: nat, h0: Seq<u8>, i: nat) -> bool
    decreases i,
{
    if i == 0 {
        true
    } else {
        rounds_ok(msgs, s0, h0, (i - 1) as nat) && verifier_state(msgs, s0, h0, (i - 1) as nat).0
            == fadd(msgs[i - 1].0, msgs[i - 1].1)
    }
}

/// The verifier's acceptance predicate: the round count matches, every
/// round's decomposition check passes, and the final running sum equals the
/// polynomial evaluated at the drawn challenge point.
pub open spec fn verify_accepts(evals: Seq<nat>, n: nat, claimed: nat, msgs: Seq<(nat, nat)>) -> bool {
    let h0 = init_history(evals, claimed);
    &&& msgs.len() == n
    &&& rounds_ok(msgs, claimed, h0, n)
    &&& verifier_state(msgs, claimed, h0, n).0 == eval_spec(
        evals,
        n,
        verifier_state(msgs, claimed, h0, n).2,
    )
}

/// The field sum of a table.
fn sum_evals(evals: &Vec<Fp>) -> (r: Fp)
    ensures
        r@ == sum_seq(evals@.map_values(|e: Fp| e@)),
{
    let ghost s = evals@.map_values(|e: Fp| e@);
    let mut acc = Fp::zero();
    let mut i: usize = 0;
    proof {
        assert(s.take(0) =~= Seq::<nat>::empty());
    }
    while i < evals.len()
        invariant
            i <= evals@.len(),
            s == evals@.map_values(|e: Fp| e@),
            acc@ == sum_seq(s.take(i as int)),
        decreases evals@.len() - i,
    {
        proof {
            assert(s.take((i + 1) as int).drop_last() =~= s.take(i as int));
            assert(s.take((i + 1) as int).last() == s[i as int]);
        }
        acc = acc.add(evals[i]);
        i = i + 1;
    }
    proof {
        assert(s.take(s.len() as int) =~= s);
    }
    acc
}

/// Absorbs the full table, entry by entry, in canonical encoding.
fn absorb_table(t: &mut Transcript, evals: &Vec<Fp>)
    ensures
        final(t)@ == old(t)@ + encode_table(evals@.map_values(|e: Fp| e@)),
{
    let ghost s = evals@.map_values(|e: Fp| e@);
    let mut i: usize = 0;
    proof {
        assert(encode_table(s.take(0)) =~= Seq::<u8>::empty());
        assert(t@ =~= old(t)@ + encode_table(s.take(0)));
    }
    while i < evals.len()
        invariant
            i <= evals@.len(),
            s == evals@.map_values(|e: Fp| e@),
            t@ == old(t)@ + encode_table(s.take(i as int)),
        decreases evals@.len() - i,
    {
        let bytes = evals[i].to_bytes_be();
        t.append(&bytes);
        proof {
            assert(s.take((i + 1) as int).drop_last() =~= s.take(i as int));
            assert(s.take((i + 1) as int).last() == s[i as int]);
            assert(t@ =~= old(t)@ + encode_table(s.take((i + 1) as int)));
        }
        i = i + 1;
    }
    proof {
        assert(s.take(s.len() as int) =~= s);
    }
}

/// Runs the prover: absorbs the table and the claim, then per round emits
/// the round message, absorbs it, draws the challenge, and folds the live
/// polynomial at it.  The whole output is a pure function of the inputs.
pub fn prove(poly: &MultilinearPoly, claimed_sum: Fp) -> (pf: Proof)
    requires
        poly.wf(),
    ensures
        pf.claimed_sum == claimed_sum,
        pf.round_polys@.len() == poly.n_vars,
        messages_view(pf.round_polys@) == prove_rounds(
            poly@,
            poly.n_vars as nat,
            init_history(poly@, claimed_sum@),
        ),
{
    let ghost n: nat = poly.n_vars as nat;
    let ghost h0 = init_history(poly@, claimed_sum@);
    let ghost target = prove_rounds(poly@, n, h0);
    let mut round_polys: Vec<RoundMessage> = Vec::new();
    let mut transcript = Transcript::new();
    absorb_table(&mut transcript, &poly.evals);
    let cs_bytes = claimed_sum.to_bytes_be();
    transcript.append(&cs_bytes);
    proof {
        assert(transcript@ =~= h0);
    }
    let mut live = poly.duplicate();
    let mut i: usize = 0;
    while i < poly.n_vars
        invariant
            i <= poly.n_vars,
            poly.wf(),
            n == poly.n_vars as nat,
            h0 == init_history(poly@, claimed_sum@),
            target == prove_rounds(poly@, n, h0),
            live.wf(),
            live.n_vars == poly.n_vars - i,
            live@ == prover_state(poly@, n, h0, i as nat).0,
            transcript@ == prover_state(poly@, n, h0, i as nat).1,
            round_polys@.len() == i,
            forall|k: int| 0 <= k < i ==> (#[trigger] round_polys@[k])@ == target[k],
        decreases poly.n_vars - i,
    {
        let ghost st = prover_state(poly@, n, h0, i as nat);
        let zero_fold = live.partial_evaluate(0, Fp::zero());
        let one_fold = live.partial_evaluate(0, Fp::one());
        let g0 = sum_evals(&zero_fold.evals);
        let g1 = sum_evals(&one_fold.evals);
        proof {
            assert((g0@, g1@) == round_message(st.0, (n - i) as nat));
        }
        let b0 = g0.to_bytes_be();
        transcript.append(&b0);
        let b1 = g1.to_bytes_be();
        transcript.append(&b1);
        round_polys.push(RoundMessage { eval_at_0: g0, eval_at_1: g1 });
        let challenge = transcript.sample_field_element();
        live = live.partial_evaluate(0, challenge);
        proof {
            assert(prover_state(poly@, n, h0, (i + 1) as nat).0 == live@);
            assert(prover_state(poly@, n, h0, (i + 1) as nat).1 == transcript@);
            assert(target[i as int] == round_message(st.0, (n - i) as nat));
        }
        i = i + 1;
    }
    proof {
        assert(messages_view(round_polys@) =~= target);
    }
    Proof { claimed_sum, round_polys }
}

/// Runs the verifier: rejects on a wrong round count, on any broken additive
/// decomposition, and on a failed final evaluation check; accepts otherwise.
pub fn verify(poly: &MultilinearPoly, pf: &Proof) -> (r: bool)
    requires
        poly.wf(),
    ensures
        r == verify_accepts(
            poly@,
            poly.n_vars as nat,
            pf.claimed_sum@,
            messages_view(pf.round_polys@),
        ),
{
    let ghost n: nat = poly.n_vars as nat;
    let ghost s0: nat = pf.claimed_sum@;
    let ghost msgs = messages_view(pf.round_polys@);
    let ghost h0 = init_history(poly@, pf.claimed_sum@);
    if pf.round_polys.len() != poly.n_vars {
        return false;
    }
    let mut transcript = Transcript::new();
    absorb_table(&mut transcript, &poly.evals);
    let cs_bytes = pf.claimed_sum.to_bytes_be();
    transcript.append(&cs_bytes);
    proof {
        assert(transcript@ =~= h0);
    }
    let mut challenges: Vec<Fp> = Vec::new();
    let mut claimed = pf.claimed_sum;
    let mut i: usize = 0;
    proof {
        assert(challenges@.map_values(|x: Fp| x@) =~= Seq::<nat>::empty());
    }
    while i < pf.round_polys.len()
        invariant
            i <= msgs.len(),
            poly.wf(),
            n == poly.n_vars as nat,
            msgs.len() == n,
            s0 == pf.claimed_sum@,
            msgs == messages_view(pf.round_polys@),
            h0 == init_history(poly@, pf.claimed_sum@),
            rounds_ok(msgs, s0, h0, i as nat),
            claimed@ == verifier_state(msgs, s0, h0, i as nat).0,
            transcript@ == verifier_state(msgs, s0, h0, i as nat).1,
            challenges@.len() == i,
            challenges@.map_values(|x: Fp| x@) == verifier_state(msgs, s0, h0, i as nat).2,
        decreases msgs.len() - i,
    {
        let ghost st = verifier_state(msgs, s0, h0, i as nat);
        let m = pf.round_polys[i];
        proof {
            assert(m@ == msgs[i as int]);
        }
        let g_sum = m.eval_at_0.add(m.eval_at_1);
        if !claimed.equals(&g_sum) {
            proof {
                if rounds_ok(msgs, s0, h0, n) {
                    lemma_rounds_ok_monotone(msgs, s0, h0, (i + 1) as nat, n);
                }
            }
            return false;
        }
        let b0 = m.eval_at_0.to_bytes_be();
        transcript.append(&b0);
        let b1 = m.eval_at_1.to_bytes_be();
        transcript.append(&b1);
        let challenge = transcript.sample_field_element();
        challenges.push(challenge);
        claimed = m.eval_at_0.add(challenge.mul(m.eval_at_1.sub(m.eval_at_0)));
        proof {
            assert(verifier_state(msgs, s0, h0, (i + 1) as nat).0 == claimed@);
            assert(verifier_state(msgs, s0, h0, (i + 1) as nat).1 == transcript@);
            assert(challenges@.map_values(|x: Fp| x@) =~= st.2.push(
                challenge_of(sha256_of(st.1 + encode_fp(msgs[i as int].0) + encode_fp(
                    msgs[i as int].1,
                ))),
            ));
        }
        i = i + 1;
    }
    let result = poly.evaluate(&challenges);
    match result {
        Ok(expected) => claimed.equals(&expected),
        Err(_) => {
            proof {
                assert(false);
            }
            false
        },
    }
}

/// Determinism: the round messages of a prover run are a pure function of
/// the polynomial and the claimed sum, so two independent runs on identical
/// inputs, each from a fresh transcript, emit identical round messages.
pub proof fn lemma_prove_deterministic(
    evals: Seq<nat>,
    n: nat,
    claimed: nat,
    m1: Seq<(nat, nat)>,
    m2: Seq<(nat, nat)>,
)
    requires
        m1 == prove_rounds(evals, n, init_history(evals, claimed)),
        m2 == prove_rounds(evals, n, init_history(evals, claimed)),
    ensures
        m1 == m2,
{
}

/// A passed round-check prefix passes every shorter prefix.
pub proof fn lemma_rounds_ok_monotone(
    msgs: Seq<(nat, nat)>,
    s0: nat,
    h0: Seq<u8>,
    i: nat,
    j: nat,
)
    requires
        i <= j,
        rounds_ok(msgs, s0, h0, j),
    ensures
        rounds_ok(msgs, s0, h0, i),
    decreases j,
{
    if i < j {
        lemma_rounds_ok_monotone(msgs, s0, h0, i, (j - 1) as nat);
    }
}

/// The verifier's state after `i` rounds depends only on the first `i`
/// messages.
pub proof fn lemma_verifier_state_prefix(
    m1: Seq<(nat, nat)>,
    m2: Seq<(nat, nat)>,
    s0: nat,
    h0: Seq<u8>,
    i: nat,
)
    requires
        forall|j: int| 0 <= j < i ==> m1[j] == m2[j],
    ensures
        verifier_state(m1, s0, h0, i) == verifier_state(m2, s0, h0, i),
        rounds_ok(m1, s0, h0, i) == rounds_ok(m2, s0, h0, i),
    decreases i,
{
    if i > 0 {
        lemma_verifier_state_prefix(m1, m2, s0, h0, (i - 1) as nat);
    }
}

/// Tamper detection: flipping a single field element inside a single round
/// message of an accepted proof makes the verifier reject, whatever the
/// transcript hash does afterwards: the tampered round's own additive
/// decomposition check already fails.
pub proof fn lemma_verify_rejects_tampered(
    evals: Seq<nat>,
    n: nat,
    claimed: nat,
    msgs: Seq<(nat, nat)>,
    tampered: Seq<(nat, nat)>,
    i: int,
)
    requires
        verify_accepts(evals, n, claimed, msgs),
        tampered.len() == msgs.len(),
        0 <= i < msgs.len(),
        forall|j: int| 0 <= j < msgs.len() && j != i ==> tampered[j] == msgs[j],
        (tampered[i].0 != msgs[i].0 && tampered[i].1 == msgs[i].1) || (tampered[i].0 == msgs[i].0
            && tampered[i].1 != msgs[i].1),
        forall|j: int| 0 <= j < msgs.len() ==> msgs[j].0 < modulus() && msgs[j].1 < modulus(),
        forall|j: int|
            0 <= j < tampered.len() ==> tampered[j].0 < modulus() && tampered[j].1 < modulus(),
    ensures
        !verify_accepts(evals, n, claimed, tampered),
{
    let h0 = init_history(evals, claimed);
    if verify_accepts(evals, n, claimed, tampered) {
        lemma_rounds_ok_monotone(msgs, claimed, h0, (i + 1) as nat, n);
        lemma_rounds_ok_monotone(tampered, claimed, h0, (i + 1) as nat, n);
        lemma_verifier_state_prefix(msgs, tampered, claimed, h0, i as nat);
        assert(verifier_state(msgs, claimed, h0, i as nat).0 == fadd(msgs[i].0, msgs[i].1));
        assert(verifier_state(tampered, claimed, h0, i as nat).0 == fadd(
            tampered[i].0,
            tampered[i].1,
        ));
        if tampered[i].0 != msgs[i].0 {
            lemma_fadd_injective(tampered[i].0, msgs[i].0, msgs[i].1);
        } else {
            lemma_fadd_injective(tampered[i].1, msgs[i].1, msgs[i].0);
            assert(fadd(msgs[i].0, tampered[i].1) == fadd(tampered[i].1, msgs[i].0));
            assert(fadd(msgs[i].0, msgs[i].1) == fadd(msgs[i].1, msgs[i].0));
        }
        assert(false);
    }
}

} // verus!
