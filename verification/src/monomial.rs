//! A single-term univariate polynomial over the machine naturals:
//! `coefficient * x^degree`.

use vstd::prelude::*;
use vstd::arithmetic::power::{pow, lemma_pow0, lemma_pow1, lemma0_pow, lemma_pow_adds, lemma_pow_increases};

verus! {

/// One monomial, `coefficient * x^degree`.
#[derive(Clone, Copy, PartialEq, Eq, Structural, Debug)]
pub struct Monomial {
    pub coefficient: usize,
    pub degree: usize,
}

impl Monomial {
    /// Builds the monomial `coefficient * x^degree`.
    pub fn new(coefficient: usize, degree: usize) -> (r: Monomial)
        ensures
            r.coefficient == coefficient,
            r.degree == degree,
    {
        Monomial { coefficient, degree }
    }

    /// Evaluates the monomial at `x`.
    pub fn evaluate(&self, x: usize) -> (r: usize)
        requires
            pow(x as int, self.degree as nat) <= usize::MAX,
            self.coefficient * pow(x as int, self.degree as nat) <= usize::MAX,
        ensures
            r == self.coefficient * pow(x as int, self.degree as nat),
    {
        proof {
            lemma_pow0(x as int);
        }
        let mut acc: usize = 1;
        let mut i: usize = 0;
        while i < self.degree
            invariant
                i <= self.degree,
                pow(x as int, self.degree as nat) <= usize::MAX,
                acc == pow(x as int, i as nat),
            decreases self.degree - i,
        {
            proof {
                lemma_pow_adds(x as int, i as nat, 1);
                lemma_pow1(x as int);
                if x == 0 {
                    lemma0_pow((i + 1) as nat);
                } else {
                    lemma_pow_increases(x as nat, (i + 1) as nat, self.degree as nat);
                }
            }
            acc = acc * x;
            i = i + 1;
        }
        self.coefficient * acc
    }

    /// The monomial's degree.
    pub fn degree(&self) -> (r: usize)
        ensures
            r == self.degree,
    {
        self.degree
    }
}

} // verus!
