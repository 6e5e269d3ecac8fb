//! Multilinear polynomials in evaluation form over the boolean hypercube.
//!
//! A polynomial over `n_vars` variables is stored as the ordered table of its
//! `2^n_vars` evaluations.  The point with bit pattern `b_0 b_1 ... b_{n-1}`
//! (`b_0` most significant) sits at table index `b_0 * 2^(n-1) + ... + b_{n-1}`.
//! Partial evaluation fixes one variable by linear interpolation between the
//! two table halves that agree on every other bit, producing a strictly
//! smaller polynomial; full evaluation folds the leading variable repeatedly.

use vstd::prelude::*;
use vstd::arithmetic::power2::{
    pow2, lemma_pow2_pos, lemma_pow2_unfold, lemma_pow2_adds, lemma_pow2_strictly_increases,
    lemma2_to64,
};
use vstd::arithmetic::div_mod::{lemma_small_mod, lemma_basic_div, lemma_multiply_divide_lt};
use vstd::arithmetic::mul::{
    lemma_mul_inequality, lemma_mul_is_distributive_sub_other_way, lemma_mul_basics,
};
use crate::field::{Fp, fadd, fsub, fmul, modulus};

verus! {

/// Caller-input errors raised before any protocol computation runs.
#[derive(Clone, Copy, PartialEq, Eq, Structural, Debug)]
pub enum PolyError {
    /// The evaluation table's length is not `2^n_vars`.
    InvalidLength,
    /// The assignment vector's length is not `n_vars`.
    ArityMismatch,
}

/// `2^e` as a machine integer.
fn pow2_u64(e: u64) -> (r: u64)
    requires
        e < 64,
    ensures
        r as nat == pow2(e as nat),
{
    proof {
        lemma2_to64();
    }
    let mut r: u64 = 1;
    let mut i: u64 = 0;
    while i < e
        invariant
            i <= e,
            e < 64,
            r as nat == pow2(i as nat),
        decreases e - i,
    {
        proof {
            lemma_pow2_unfold((i + 1) as nat);
            lemma_pow2_strictly_increases((i + 1) as nat, 64);
            lemma2_to64();
        }
        r = r * 2;
        i = i + 1;
    }
    r
}

/// The result of inserting a 0 bit at position `p` of `v`: the bits of `v`
/// at or above `p` shift up by one, the bits below stay.
pub open spec fn insert_zero_at(v: nat, p: nat) -> nat {
    (v / pow2(p)) * pow2(p + 1) + (v % pow2(p))
}

/// A value whose insertion position lies within an `m`-bit index space stays,
/// together with its raised companion, within the `m + 1`-bit space.
pub proof fn lemma_insert_zero_at_bound(k: nat, p: nat, m: nat)
    requires
        k < pow2(m),
        p <= m,
    ensures
        insert_zero_at(k, p) + pow2(p) < pow2(m + 1),
{
    lemma_pow2_pos(p);
    lemma_pow2_pos((m - p) as nat);
    lemma_pow2_adds((m - p) as nat, p);
    let q = k / pow2(p);
    lemma_multiply_divide_lt(k as int, pow2(p) as int, pow2((m - p) as nat) as int);
    assert(q < pow2((m - p) as nat));
    lemma_mul_inequality(q as int, (pow2((m - p) as nat) - 1) as int, pow2(p + 1) as int);
    lemma_mul_is_distributive_sub_other_way(
        pow2(p + 1) as int,
        pow2((m - p) as nat) as int,
        1,
    );
    lemma_pow2_adds((m - p) as nat, p + 1);
    assert(pow2((m - p) as nat + (p + 1)) == pow2(m + 1)) by {
        lemma_pow2_unfold(m + 1);
        lemma_pow2_adds((m - p) as nat, p);
        lemma_pow2_unfold(p + 1);
        assert((m - p) as nat + (p + 1) == m + 1);
    }
    lemma_pow2_unfold(p + 1);
}

/// Insert a 0 bit at position `index` of `value`, shifting the bits at or
/// above `index` up by one.
pub fn insert_bit(value: usize, index: usize) -> (r: usize)
    requires
        index + 1 < 64,
        insert_zero_at(value as nat, index as nat) <= usize::MAX,
    ensures
        r as nat == insert_zero_at(value as nat, index as nat),
{
    let v: u64 = value as u64;
    let p: u64 = pow2_u64(index as u64);
    proof {
        lemma_pow2_pos(index as nat);
        lemma_pow2_unfold((index + 1) as nat);
        lemma_pow2_strictly_increases((index + 1) as nat, 64);
        lemma2_to64();
    }
    let high: u64 = v / p;
    let low: u64 = v % p;
    proof {
        assert((high as nat) * ((2 * p) as nat) == (v as nat / pow2(index as nat)) * pow2(
            (index + 1) as nat,
        ));
    }
    let r: u64 = high * (2 * p) + low;
    r as usize
}

/// For every index of the smaller table, the pair of indices of the larger
/// table that agree on every bit except position `n_vars - index - 1`.
pub fn pairs(index: usize, n_vars: usize) -> (r: Vec<(usize, usize)>)
    requires
        index < n_vars,
        pow2(n_vars as nat) <= usize::MAX,
    ensures
        r@.len() == pow2((n_vars - 1) as nat),
        forall|k: int|
            0 <= k < r@.len() ==> (#[trigger] r@[k]).0 as nat == insert_zero_at(
                k as nat,
                (n_vars - index - 1) as nat,
            ),
        forall|k: int|
            0 <= k < r@.len() ==> (#[trigger] r@[k]).1 as nat == insert_zero_at(
                k as nat,
                (n_vars - index - 1) as nat,
            ) + pow2((n_vars - index - 1) as nat),
{
    proof {
        lemma_pow2_le_u64_max_bound(n_vars as nat);
        lemma_pow2_strictly_increases((n_vars - 1) as nat, n_vars as nat);
    }
    let target_hc: usize = n_vars - 1;
    let count: usize = pow2_u64(target_hc as u64) as usize;
    let inverted_index: usize = n_vars - index - 1;
    proof {
        lemma_pow2_strictly_increases(inverted_index as nat, n_vars as nat);
    }
    let step: usize = pow2_u64(inverted_index as u64) as usize;
    let mut result: Vec<(usize, usize)> = Vec::new();
    let mut val: usize = 0;
    while val < count
        invariant
            val <= count,
            index < n_vars,
            n_vars < 64,
            pow2(n_vars as nat) <= usize::MAX,
            target_hc == n_vars - 1,
            count as nat == pow2(target_hc as nat),
            inverted_index == n_vars - index - 1,
            step as nat == pow2(inverted_index as nat),
            result@.len() == val,
            forall|k: int|
                0 <= k < val ==> (#[trigger] result@[k]).0 as nat == insert_zero_at(
                    k as nat,
                    (n_vars - index - 1) as nat,
                ),
            forall|k: int|
                0 <= k < val ==> (#[trigger] result@[k]).1 as nat == insert_zero_at(
                    k as nat,
                    (n_vars - index - 1) as nat,
                ) + pow2((n_vars - index - 1) as nat),
        decreases count - val,
    {
        proof {
            lemma_insert_zero_at_bound(val as nat, inverted_index as nat, target_hc as nat);
        }
        let insert_zero: usize = insert_bit(val, inverted_index);
        let insert_one: usize = insert_zero + step;
        result.push((insert_zero, insert_one));
        val = val + 1;
    }
    result
}

/// A power of two that fits in a machine word has an exponent below 64.
pub proof fn lemma_pow2_le_u64_max_bound(n: nat)
    requires
        pow2(n) <= usize::MAX,
    ensures
        n < 64,
{
    lemma2_to64();
    if n > 64 {
        lemma_pow2_strictly_increases(64, n);
    }
    if n >= 64 {
        assert(usize::MAX <= 0xFFFFFFFFFFFFFFFF);
        assert(false);
    }
}

/// A multilinear polynomial: the ordered evaluation table over the boolean
/// hypercube, and the number of variables.  The view is the table of
/// residues.
#[derive(Debug)]
pub struct MultilinearPoly {
    pub evals: Vec<Fp>,
    pub n_vars: usize,
}

impl View for MultilinearPoly {
    type V = Seq<nat>;

    open spec fn view(&self) -> Seq<nat> {
        self.evals@.map_values(|e: Fp| e@)
    }
}

/// One entry of a folded table: the interpolation, at `t`, between the two
/// entries of the larger table whose indices agree on every bit except
/// position `p`.
pub open spec fn fold_entry(evals: Seq<nat>, p: nat, k: nat, t: nat) -> nat {
    let low = insert_zero_at(k, p);
    let high = low + pow2(p);
    fadd(evals[low as int], fmul(t, fsub(evals[high as int], evals[low as int])))
}

/// The table of the polynomial obtained by fixing variable `index` to `t`.
pub open spec fn fold(evals: Seq<nat>, n_vars: nat, index: nat, t: nat) -> Seq<nat> {
    Seq::new(
        pow2((n_vars - 1) as nat),
        |k: int| fold_entry(evals, (n_vars - index - 1) as nat, k as nat, t),
    )
}

/// Full evaluation: fold the leading variable with each assignment in turn;
/// the single remaining entry is the value.
pub open spec fn eval_spec(evals: Seq<nat>, n: nat, a: Seq<nat>) -> nat
    decreases n,
{
    if n == 0 {
        evals[0]
    } else {
        eval_spec(fold(evals, n, 0, a[0]), (n - 1) as nat, a.drop_first())
    }
}

impl MultilinearPoly {
    /// The structural invariant: the table holds one entry per point of the
    /// `n_vars`-dimensional boolean hypercube.
    pub open spec fn wf(self) -> bool {
        self.evals@.len() == pow2(self.n_vars as nat)
    }

    /// Builds a polynomial from its evaluation table; rejects a table whose
    /// length is not `2^n_vars`.
    pub fn new(n_vars: usize, evals: Vec<Fp>) -> (r: Result<MultilinearPoly, PolyError>)
        ensures
            evals@.len() == pow2(n_vars as nat) ==> (r matches Ok(p) && p.evals@ == evals@
                && p.n_vars == n_vars && p.wf()),
            evals@.len() != pow2(n_vars as nat) ==> (r matches Err(e) && e
                == PolyError::InvalidLength),
    {
        let len: usize = evals.len();
        if n_vars >= 64 {
            proof {
                lemma2_to64();
                if n_vars > 64 {
                    lemma_pow2_strictly_increases(64, n_vars as nat);
                }
                assert(evals@.len() == len <= usize::MAX < pow2(n_vars as nat));
            }
            return Err(PolyError::InvalidLength);
        }
        let size: u64 = pow2_u64(n_vars as u64);
        if evals.len() as u64 != size {
            return Err(PolyError::InvalidLength);
        }
        Ok(MultilinearPoly { evals, n_vars })
    }

    /// An element-for-element copy; folding is functional and never mutates
    /// the source table.
    pub fn duplicate(&self) -> (r: MultilinearPoly)
        ensures
            r.evals@ == self.evals@,
            r.n_vars == self.n_vars,
            r@ == self@,
    {
        let mut evals: Vec<Fp> = Vec::new();
        let mut i: usize = 0;
        while i < self.evals.len()
            invariant
                i <= self.evals@.len(),
                evals@ == self.evals@.take(i as int),
            decreases self.evals@.len() - i,
        {
            evals.push(self.evals[i]);
            proof {
                assert(evals@ =~= self.evals@.take((i + 1) as int));
            }
            i = i + 1;
        }
        proof {
            assert(evals@ =~= self.evals@);
        }
        MultilinearPoly { evals, n_vars: self.n_vars }
    }

    /// Fixes variable `index` to `value`, producing the polynomial over one
    /// fewer variable whose table interpolates the matching entry pairs.
    pub fn partial_evaluate(&self, index: usize, value: Fp) -> (r: MultilinearPoly)
        requires
            self.wf(),
            index < self.n_vars,
        ensures
            r.wf(),
            r.n_vars == self.n_vars - 1,
            r@ == fold(self@, self.n_vars as nat, index as nat, value@),
            r@.len() == pow2((self.n_vars - 1) as nat),
    {
        let len: usize = self.evals.len();
        let prs = pairs(index, self.n_vars);
        let ghost target = fold(self@, self.n_vars as nat, index as nat, value@);
        let mut result: Vec<Fp> = Vec::new();
        let mut i: usize = 0;
        while i < prs.len()
            invariant
                i <= prs@.len(),
                self.wf(),
                index < self.n_vars,
                len == self.evals@.len(),
                pow2(self.n_vars as nat) <= usize::MAX,
                prs@.len() == pow2((self.n_vars - 1) as nat),
                forall|k: int|
                    0 <= k < prs@.len() ==> (#[trigger] prs@[k]).0 as nat == insert_zero_at(
                        k as nat,
                        (self.n_vars - index - 1) as nat,
                    ),
                forall|k: int|
                    0 <= k < prs@.len() ==> (#[trigger] prs@[k]).1 as nat == insert_zero_at(
                        k as nat,
                        (self.n_vars - index - 1) as nat,
                    ) + pow2((self.n_vars - index - 1) as nat),
                target == fold(self@, self.n_vars as nat, index as nat, value@),
                result@.len() == i,
                forall|k: int|
                    0 <= k < i ==> (#[trigger] result@[k])@ == target[k],
            decreases prs@.len() - i,
        {
            proof {
                lemma_insert_zero_at_bound(
                    i as nat,
                    (self.n_vars - index - 1) as nat,
                    (self.n_vars - 1) as nat,
                );
            }
            let pair = prs[i];
            let a = self.evals[pair.0];
            let b = self.evals[pair.1];
            result.push(a.add(value.mul(b.sub(a))));
            i = i + 1;
        }
        proof {
            assert(result@.map_values(|e: Fp| e@) =~= target);
        }
        MultilinearPoly { evals: result, n_vars: self.n_vars - 1 }
    }

    /// Evaluates the multilinear extension at an arbitrary field point by
    /// folding the leading variable with each assignment in order; rejects
    /// an assignment vector whose length is not `n_vars`.
    pub fn evaluate(&self, assignments: &Vec<Fp>) -> (r: Result<Fp, PolyError>)
        requires
            self.wf(),
        ensures
            assignments@.len() == self.n_vars ==> (r matches Ok(v) && v@ == eval_spec(
                self@,
                self.n_vars as nat,
                assignments@.map_values(|x: Fp| x@),
            )),
            assignments@.len() != self.n_vars ==> (r matches Err(e) && e
                == PolyError::ArityMismatch),
    {
        if assignments.len() != self.n_vars {
            return Err(PolyError::ArityMismatch);
        }
        let ghost a = assignments@.map_values(|x: Fp| x@);
        let ghost target = eval_spec(self@, self.n_vars as nat, a);
        let mut poly = self.duplicate();
        proof {
            assert(a.skip(0) =~= a);
        }
        let mut i: usize = 0;
        while i < assignments.len()
            invariant
                i <= assignments@.len(),
                assignments@.len() == self.n_vars,
                a == assignments@.map_values(|x: Fp| x@),
                poly.wf(),
                poly.n_vars == self.n_vars - i,
                eval_spec(poly@, poly.n_vars as nat, a.skip(i as int)) == target,
            decreases assignments@.len() - i,
        {
            proof {
                assert(a.skip(i as int).drop_first() =~= a.skip((i + 1) as int));
                assert(a.skip(i as int)[0] == a[i as int]);
            }
            poly = poly.partial_evaluate(0, assignments[i]);
            i = i + 1;
        }
        proof {
            lemma2_to64();
            assert(poly@.len() == 1);
            assert(eval_spec(poly@, 0, a.skip(i as int)) == poly@[0]);
        }
        Ok(poly.evals[0])
    }
}

/// Fixing the leading variable to 0 restricts the table to its first half:
/// the entries whose leading bit is 0.
pub proof fn lemma_fold_leading_zero(evals: Seq<nat>, n: nat)
    requires
        n >= 1,
        evals.len() == pow2(n),
        forall|i: int| 0 <= i < evals.len() ==> evals[i] < modulus(),
    ensures
        fold(evals, n, 0, 0) == evals.take(pow2((n - 1) as nat) as int),
{
    let half = pow2((n - 1) as nat);
    lemma_pow2_pos((n - 1) as nat);
    lemma_pow2_unfold(n);
    assert forall|k: int| 0 <= k < half implies fold(evals, n, 0, 0)[k] == evals[k] by {
        lemma_basic_div(k, half as int);
        lemma_small_mod(k as nat, half);
        assert(insert_zero_at(k as nat, (n - 1) as nat) == k);
        lemma_small_mod(0, modulus());
        lemma_small_mod(evals[k] as nat, modulus());
        assert(fmul(0, fsub(evals[k + half], evals[k])) == 0);
        assert(fadd(evals[k], 0) == evals[k]);
    }
    assert(fold(evals, n, 0, 0) =~= evals.take(half as int));
}

/// Fixing the leading variable to 1 restricts the table to its second half:
/// the entries whose leading bit is 1.
pub proof fn lemma_fold_leading_one(evals: Seq<nat>, n: nat)
    requires
        n >= 1,
        evals.len() == pow2(n),
        forall|i: int| 0 <= i < evals.len() ==> evals[i] < modulus(),
    ensures
        fold(evals, n, 0, 1) == evals.skip(pow2((n - 1) as nat) as int),
{
    let half = pow2((n - 1) as nat);
    lemma_pow2_pos((n - 1) as nat);
    lemma_pow2_unfold(n);
    assert forall|k: int| 0 <= k < half implies fold(evals, n, 0, 1)[k] == evals[k + half] by {
        lemma_basic_div(k, half as int);
        lemma_small_mod(k as nat, half);
        assert(insert_zero_at(k as nat, (n - 1) as nat) == k);
        let d = fsub(evals[k + half], evals[k]);
        lemma_small_mod(d, modulus());
        assert(fmul(1, d) == d);
        crate::field::lemma_fadd_fsub(evals[k] as nat, evals[k + half] as nat);
    }
    assert(fold(evals, n, 0, 1) =~= evals.skip(half as int));
}

/// The table index of a boolean assignment: its bits read as a big-endian
/// binary number, the first assignment most significant.
pub open spec fn bool_index(a: Seq<nat>) -> nat
    decreases a.len(),
{
    if a.len() == 0 {
        0
    } else {
        a.first() * pow2((a.len() - 1) as nat) + bool_index(a.drop_first())
    }
}

/// A boolean assignment's index stays within the hypercube.
pub proof fn lemma_bool_index_bound(a: Seq<nat>)
    requires
        forall|i: int| 0 <= i < a.len() ==> a[i] == 0 || a[i] == 1,
    ensures
        bool_index(a) < pow2(a.len()),
    decreases a.len(),
{
    if a.len() == 0 {
        lemma2_to64();
    } else {
        let rest = a.drop_first();
        assert(forall|i: int| 0 <= i < rest.len() ==> rest[i] == 0 || rest[i] == 1);
        lemma_bool_index_bound(rest);
        lemma_pow2_unfold(a.len());
        lemma_pow2_pos((a.len() - 1) as nat);
        assert(bool_index(a) == a.first() * pow2((a.len() - 1) as nat) + bool_index(rest));
        lemma_mul_basics(pow2((a.len() - 1) as nat) as int);
        if a.first() == 0 {
            assert(a.first() * pow2((a.len() - 1) as nat) == 0);
        } else {
            assert(a.first() == 1);
            assert(a.first() * pow2((a.len() - 1) as nat) == 1 * pow2((a.len() - 1) as nat));
        }
    }
}

/// On a boolean-valued assignment vector, full evaluation returns the stored
/// table entry at the corresponding index.
pub proof fn lemma_evaluate_boolean_point(evals: Seq<nat>, n: nat, a: Seq<nat>)
    requires
        evals.len() == pow2(n),
        forall|i: int| 0 <= i < evals.len() ==> evals[i] < modulus(),
        a.len() == n,
        forall|i: int| 0 <= i < a.len() ==> a[i] == 0 || a[i] == 1,
    ensures
        eval_spec(evals, n, a) == evals[bool_index(a) as int],
    decreases n,
{
    if n == 0 {
        assert(bool_index(a) == 0);
    } else {
        let half = pow2((n - 1) as nat);
        let rest = a.drop_first();
        lemma_pow2_unfold(n);
        lemma_pow2_pos((n - 1) as nat);
        assert(forall|i: int| 0 <= i < rest.len() ==> rest[i] == 0 || rest[i] == 1);
        lemma_bool_index_bound(rest);
        assert(a.first() == a[0]);
        assert(bool_index(a) == a.first() * pow2((n - 1) as nat) + bool_index(rest));
        lemma_mul_basics(pow2((n - 1) as nat) as int);
        if a[0] == 0 {
            lemma_fold_leading_zero(evals, n);
            let sub = evals.take(half as int);
            assert(forall|i: int| 0 <= i < sub.len() ==> sub[i] < modulus());
            lemma_evaluate_boolean_point(sub, (n - 1) as nat, rest);
            assert(a.first() * pow2((n - 1) as nat) == 0);
            assert(bool_index(a) == bool_index(rest));
        } else {
            lemma_fold_leading_one(evals, n);
            let sub = evals.skip(half as int);
            assert(forall|i: int| 0 <= i < sub.len() ==> sub[i] < modulus());
            lemma_evaluate_boolean_point(sub, (n - 1) as nat, rest);
            assert(a.first() * pow2((n - 1) as nat) == 1 * pow2((n - 1) as nat));
            assert(bool_index(a) == half + bool_index(rest));
        }
    }
}

} // verus!
