//! Interval evaluation handles: the choice trail that an evaluation fills,
//! and the simplification it enables.
use vstd::prelude::*;
use crate::choice::{Choice, choice_bits, is_decided};
use crate::simplify::{collapsed, count_decided, pruned_term, simplify_tape};
use crate::tape::{Tape, term_of};

verus! {

/// A trail of `n` entries, all `Unknown`.
fn unknown_trail(n: usize) -> (r: Vec<Choice>)
    ensures
        r@ == Seq::new(n as nat, |_i: int| Choice::Unknown),
{
    let mut r: Vec<Choice> = Vec::new();
    let mut i: usize = 0;
    while i < n
        invariant
            i <= n,
            r@ == Seq::new(i as nat, |_i: int| Choice::Unknown),
        decreases n - i,
    {
        r.push(Choice::Unknown);
        i = i + 1;
    }
    r
}

/// An interval evaluator bound to a tape, with the choice trail of its
/// evaluations.
pub struct IntervalEval<'a, E> {
    tape: &'a Tape,
    choices: Vec<Choice>,
    simplify: bool,
    eval: E,
}

impl<'a, E> IntervalEval<'a, E> {
    /// The evaluator's invariant: a well-formed tape, and one trail entry per
    /// `min` / `max` of it.
    pub closed spec fn wf(&self) -> bool {
        self.tape.wf() && self.choices@.len() == self.tape.spec_choice_count()
    }

    pub closed spec fn spec_tape(&self) -> &'a Tape {
        self.tape
    }

    pub closed spec fn spec_choices(&self) -> Seq<Choice> {
        self.choices@
    }

    pub closed spec fn spec_eval(&self) -> E {
        self.eval
    }

    /// Whether a `Left` or `Right` was observed since the last reset.
    pub closed spec fn spec_simplify(&self) -> bool {
        self.simplify
    }

    pub proof fn lemma_wf(&self)
        requires
            self.wf(),
        ensures
            self.spec_tape().wf(),
            self.spec_choices().len() == self.spec_tape().spec_choice_count(),
    {
    }

    /// Calculates a simplified tape from the trail of the last evaluation.
    pub fn simplify(&self, reg_limit: u8) -> (r: Tape)
        requires
            self.wf(),
            reg_limit >= 2,
        ensures
            r.wf(),
            r.spec_reg_limit() == reg_limit,
            term_of(r.spec_ops(), r.spec_ops().len() - 1) == pruned_term(
                self.spec_tape().spec_ops(),
                self.spec_choices(),
                self.spec_tape().spec_ops().len() - 1,
            ),
            r.spec_choice_count() + count_decided(self.spec_choices())
                <= self.spec_tape().spec_choice_count(),
            (exists|m: int| 0 <= m < self.spec_choices().len() && is_decided(
                #[trigger] self.spec_choices()[m],
            )) ==> r.spec_choice_count() < self.spec_tape().spec_choice_count(),
            r.spec_var_count() == self.spec_tape().spec_var_count(),
            collapsed(r.spec_ops()),
    {
        simplify_tape(self.tape, &self.choices, reg_limit)
    }

    /// Resets every trail entry to `Unknown`.
    pub fn reset_choices(&mut self)
        requires
            old(self).wf(),
        ensures
            final(self).wf(),
            final(self).spec_tape() == old(self).spec_tape(),
            final(self).spec_eval() == old(self).spec_eval(),
            final(self).spec_choices() == Seq::new(
                old(self).spec_choices().len(),
                |_i: int| Choice::Unknown,
            ),
            !final(self).spec_simplify(),
    {
        self.simplify = false;
        let n = self.choices.len();
        let mut i: usize = 0;
        while i < n
            invariant
                i <= n,
                self.choices.len() == n,
                self.tape == old(self).tape,
                self.eval == old(self).eval,
                !self.simplify,
                forall|k: int| 0 <= k < i ==> self.choices@[k] == Choice::Unknown,
            decreases n - i,
        {
            self.choices.set(i, Choice::Unknown);
            i = i + 1;
        }
        assert(self.choices@ =~= Seq::new(n as nat, |_i: int| Choice::Unknown));
    }

    /// OR-merges the choices observed by one evaluation into the trail, so
    /// that repeated evaluations accumulate.
    pub fn merge_choices(&mut self, observed: &Vec<Choice>)
        requires
            old(self).wf(),
            observed@.len() == old(self).spec_choices().len(),
        ensures
            final(self).wf(),
            final(self).spec_tape() == old(self).spec_tape(),
            final(self).spec_eval() == old(self).spec_eval(),
            final(self).spec_choices().len() == old(self).spec_choices().len(),
            forall|k: int|
                0 <= k < observed@.len() ==> choice_bits(#[trigger] final(self).spec_choices()[k])
                    == choice_bits(old(self).spec_choices()[k]) | choice_bits(observed@[k]),
            final(self).spec_simplify() == (old(self).spec_simplify() || exists|k: int|
                0 <= k < observed@.len() && is_decided(#[trigger] observed@[k])),
    {
        let n = self.choices.len();
        let mut i: usize = 0;
        while i < n
            invariant
                i <= n,
                n == observed@.len(),
                self.choices.len() == n,
                self.tape == old(self).tape,
                self.eval == old(self).eval,
                self.simplify == (old(self).simplify || exists|k: int|
                    0 <= k < i && is_decided(#[trigger] observed@[k])),
                forall|k: int|
                    0 <= k < i ==> choice_bits(#[trigger] self.choices@[k]) == choice_bits(
                        old(self).choices@[k],
                    ) | choice_bits(observed@[k]),
                forall|k: int| i <= k < n ==> self.choices@[k] == old(self).choices@[k],
            decreases n - i,
        {
            let c = self.choices[i].merge(observed[i]);
            self.choices.set(i, c);
            if observed[i].is_decided() {
                self.simplify = true;
            }
            proof {
                if is_decided(observed@[i as int]) {
                    assert(0 <= i < i + 1 && is_decided(observed@[i as int]));
                }
            }
            i = i + 1;
        }
    }

    /// Whether a `Left` or `Right` was observed since the last reset, i.e.
    /// whether an evaluation saw a pruning opportunity.
    pub fn simplify_requested(&self) -> (r: bool)
        ensures
            r == self.spec_simplify(),
    {
        self.simplify
    }

    /// The choice trail of the last evaluation.
    pub fn choices(&self) -> (r: &Vec<Choice>)
        ensures
            r@ == self.spec_choices(),
    {
        &self.choices
    }

    /// The tape this evaluator runs.
    pub fn tape(&self) -> (r: &'a Tape)
        ensures
            r == self.spec_tape(),
    {
        self.tape
    }

    /// The underlying evaluator.
    pub fn evaluator(&self) -> (r: &E)
        ensures
            *r == self.spec_eval(),
    {
        &self.eval
    }
}

/// A function handle that can hand out interval evaluators.
pub trait IntervalFuncT {
    type Evaluator;

    /// Returns an evaluator; heavy lifting belongs to the handle's own
    /// construction.
    fn get_evaluator(&self) -> Self::Evaluator;
}

/// Owns a function (by way of `func`) without the scratch memory to
/// evaluate it; produces [`IntervalEval`]s that do.
pub struct IntervalFunc<'a, F> {
    tape: &'a Tape,
    func: F,
}

impl<'a, F: IntervalFuncT> IntervalFunc<'a, F> {
    pub closed spec fn spec_tape(&self) -> &'a Tape {
        self.tape
    }

    pub closed spec fn spec_func(&self) -> F {
        self.func
    }

    pub fn tape(&self) -> (r: &'a Tape)
        ensures
            r == self.spec_tape(),
    {
        self.tape
    }

    pub fn new(tape: &'a Tape, func: F) -> (r: Self)
        ensures
            r.spec_tape() == tape,
            r.spec_func() == func,
    {
        IntervalFunc { tape, func }
    }

    /// An evaluator for this handle's tape, with an all-`Unknown` trail of
    /// one entry per `min` / `max`.
    pub fn get_evaluator(&self) -> (r: IntervalEval<'a, F::Evaluator>)
        requires
            self.spec_tape().wf(),
        ensures
            r.wf(),
            r.spec_tape() == self.spec_tape(),
            r.spec_choices() == Seq::new(
                self.spec_tape().spec_choice_count(),
                |_i: int| Choice::Unknown,
            ),
            !r.spec_simplify(),
    {
        IntervalEval {
            tape: self.tape,
            choices: unknown_trail(self.tape.choice_count()),
            simplify: false,
            eval: self.func.get_evaluator(),
        }
    }
}

} // verus!
