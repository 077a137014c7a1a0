//! Convenience surface over the factory: operator application shorthand
//! on `Term`, and a small vector of terms with a fold helper.

use crate::op::Op;
use crate::semantics::{apply_op, fold_apply};
use crate::sort::Sort;
use crate::term::{Term, TermManager};
use vstd::prelude::*;

verus! {

impl Term {
    /// The sort of this term in its manager.
    pub fn sort(&self, tm: &TermManager) -> (r: Sort)
        requires
            tm.valid(*self),
        ensures
            r == tm.sort_of(*self),
    {
        tm.term_sort(*self)
    }

    /// The bit-vector width of this term; a contract violation on
    /// arrays.
    pub fn bv_len(&self, tm: &TermManager) -> (r: usize)
        requires
            tm.valid(*self),
            tm.sort_of(*self).is_bv(),
        ensures
            r as nat == tm.sort_of(*self).spec_width(),
    {
        tm.term_bv_len(*self)
    }

    /// The all-zero constant of this term's width.
    pub fn bv_const_zero(&self, tm: &mut TermManager) -> (r: Term)
        requires
            old(tm).wf(),
            old(tm).valid(*self),
            old(tm).sort_of(*self).is_bv(),
            old(tm).sort_of(*self).wf(),
        ensures
            final(tm).wf(),
            final(tm).extends_novar(*old(tm)),
            final(tm).valid(r),
            final(tm).sort_of(r) == old(tm).sort_of(*self),
            forall|a: spec_fn(u32) -> Seq<bool>| #[trigger] final(tm).eval(r, a) == Seq::new(
                old(tm).sort_of(*self).spec_width(),
                |i: int| false,
            ),
    {
        let w = tm.term_bv_len(*self);
        tm.bv_const_zero(w)
    }

    /// The constant one of this term's width.
    pub fn bv_const_one(&self, tm: &mut TermManager) -> (r: Term)
        requires
            old(tm).wf(),
            old(tm).valid(*self),
            old(tm).sort_of(*self).is_bv(),
            old(tm).sort_of(*self).wf(),
        ensures
            final(tm).wf(),
            final(tm).extends_novar(*old(tm)),
            final(tm).valid(r),
            final(tm).sort_of(r) == old(tm).sort_of(*self),
            forall|a: spec_fn(u32) -> Seq<bool>| #[trigger] final(tm).eval(r, a) == Seq::new(
                old(tm).sort_of(*self).spec_width(),
                |i: int| i == 0,
            ),
    {
        let w = tm.term_bv_len(*self);
        tm.bv_const_one(w)
    }

    /// The all-ones constant of this term's width.
    pub fn bv_const_ones(&self, tm: &mut TermManager) -> (r: Term)
        requires
            old(tm).wf(),
            old(tm).valid(*self),
            old(tm).sort_of(*self).is_bv(),
            old(tm).sort_of(*self).wf(),
        ensures
            final(tm).wf(),
            final(tm).extends_novar(*old(tm)),
            final(tm).valid(r),
            final(tm).sort_of(r) == old(tm).sort_of(*self),
            forall|a: spec_fn(u32) -> Seq<bool>| #[trigger] final(tm).eval(r, a) == Seq::new(
                old(tm).sort_of(*self).spec_width(),
                |i: int| true,
            ),
    {
        let w = tm.term_bv_len(*self);
        tm.bv_const_ones(w)
    }

    /// Applies a unary operator to this term.
    pub fn op0(&self, tm: &mut TermManager, op: Op) -> (r: Term)
        requires
            old(tm).wf(),
            old(tm).valid(*self),
            op.args_wf(old(tm).sorts_of(seq![*self])),
        ensures
            final(tm).wf(),
            final(tm).extends_novar(*old(tm)),
            final(tm).valid(r),
            final(tm).sort_of(r) == op.result_sort(old(tm).sorts_of(seq![*self])),
            forall|a: spec_fn(u32) -> Seq<bool>|
                final(tm).assignment_ok(a) ==> #[trigger] final(tm).eval(r, a) == apply_op(
                    op,
                    final(tm).eval_args(seq![*self], a),
                ),
    {
        let operands = vec![*self];
        proof {
            assert(operands@ =~= seq![*self]);
        }
        tm.new_op_term(op, &operands)
    }

    /// Applies a binary operator to this term and one more.
    pub fn op1(&self, tm: &mut TermManager, op: Op, x: &Term) -> (r: Term)
        requires
            old(tm).wf(),
            old(tm).valid(*self),
            old(tm).valid(*x),
            op.args_wf(old(tm).sorts_of(seq![*self, *x])),
        ensures
            final(tm).wf(),
            final(tm).extends_novar(*old(tm)),
            final(tm).valid(r),
            final(tm).sort_of(r) == op.result_sort(old(tm).sorts_of(seq![*self, *x])),
            forall|a: spec_fn(u32) -> Seq<bool>|
                final(tm).assignment_ok(a) ==> #[trigger] final(tm).eval(r, a) == apply_op(
                    op,
                    final(tm).eval_args(seq![*self, *x], a),
                ),
    {
        let operands = vec![*self, *x];
        proof {
            assert(operands@ =~= seq![*self, *x]);
        }
        tm.new_op_term(op, &operands)
    }

    /// Applies a ternary operator to this term and two more.
    pub fn op2(&self, tm: &mut TermManager, op: Op, x: &Term, y: &Term) -> (r: Term)
        requires
            old(tm).wf(),
            old(tm).valid(*self),
            old(tm).valid(*x),
            old(tm).valid(*y),
            op.args_wf(old(tm).sorts_of(seq![*self, *x, *y])),
        ensures
            final(tm).wf(),
            final(tm).extends_novar(*old(tm)),
            final(tm).valid(r),
            final(tm).sort_of(r) == op.result_sort(old(tm).sorts_of(seq![*self, *x, *y])),
            forall|a: spec_fn(u32) -> Seq<bool>|
                final(tm).assignment_ok(a) ==> #[trigger] final(tm).eval(r, a) == apply_op(
                    op,
                    final(tm).eval_args(seq![*self, *x, *y], a),
                ),
    {
        let operands = vec![*self, *x, *y];
        proof {
            assert(operands@ =~= seq![*self, *x, *y]);
        }
        tm.new_op_term(op, &operands)
    }

    /// Applies an operator to this term followed by further operands.
    #[verifier::loop_isolation(false)]
    pub fn op(&self, tm: &mut TermManager, op: Op, rest: &Vec<Term>) -> (r: Term)
        requires
            old(tm).wf(),
            old(tm).valid(*self),
            old(tm).all_valid(rest@),
            op.args_wf(old(tm).sorts_of(seq![*self] + rest@)),
        ensures
            final(tm).wf(),
            final(tm).extends_novar(*old(tm)),
            final(tm).valid(r),
            final(tm).sort_of(r) == op.result_sort(old(tm).sorts_of(seq![*self] + rest@)),
            forall|a: spec_fn(u32) -> Seq<bool>|
                final(tm).assignment_ok(a) ==> #[trigger] final(tm).eval(r, a) == apply_op(
                    op,
                    final(tm).eval_args(seq![*self] + rest@, a),
                ),
    {
        let mut operands: Vec<Term> = Vec::new();
        operands.push(*self);
        let n = rest.len();
        for k in 0..n
            invariant
                operands@ =~= seq![*self] + rest@.take(k as int),
        {
            operands.push(rest[k]);
        }
        proof {
            assert(operands@ =~= seq![*self] + rest@);
            assert forall|i: int|
                0 <= i < operands@.len() implies old(tm).valid(#[trigger] operands@[i]) by {
                if i > 0 {
                    assert(operands@[i] == rest@[i - 1]);
                }
            }
        }
        tm.new_op_term(op, &operands)
    }
}

/// A vector of term handles with batch helpers.
#[derive(Clone, Debug)]
pub struct TermVec {
    pub data: Vec<Term>,
}

impl View for TermVec {
    type V = Seq<Term>;

    open spec fn view(&self) -> Seq<Term> {
        self.data@
    }
}

impl TermVec {
    pub fn new() -> (r: TermVec)
        ensures
            r@.len() == 0,
    {
        TermVec { data: Vec::new() }
    }

    pub fn push(&mut self, t: Term)
        ensures
            final(self)@ == old(self)@.push(t),
    {
        self.data.push(t);
    }

    pub fn len(&self) -> (r: usize)
        ensures
            r == self@.len(),
    {
        self.data.len()
    }

    pub fn index(&self, i: usize) -> (r: Term)
        requires
            i < self@.len(),
        ensures
            r == self@[i as int],
    {
        self.data[i]
    }

    /// Removes and returns the last (single remaining) element.
    pub fn item(&mut self) -> (r: Term)
        requires
            0 < old(self)@.len(),
        ensures
            r == old(self)@.last(),
            final(self)@ == old(self)@.drop_last(),
    {
        match self.data.pop() {
            Some(t) => t,
            None => unreached(),
        }
    }

    /// Left-folds a binary operator across the elements.
    pub fn fold(&self, tm: &mut TermManager, op: Op) -> (r: Term)
        requires
            old(tm).wf(),
            old(tm).all_valid(self@),
            0 < self@.len(),
            op.is_fold_op(),
            forall|i: int|
                0 <= i < self@.len() ==> old(tm).sort_of(#[trigger] self@[i]) == old(
                    tm,
                ).sort_of(self@[0]),
            old(tm).sort_of(self@[0]).is_bv(),
            old(tm).sort_of(self@[0]).wf(),
        ensures
            final(tm).wf(),
            final(tm).extends_novar(*old(tm)),
            final(tm).valid(r),
            final(tm).sort_of(r) == old(tm).sort_of(self@[0]),
            forall|a: spec_fn(u32) -> Seq<bool>|
                final(tm).assignment_ok(a) ==> #[trigger] final(tm).eval(r, a) == fold_apply(
                    op,
                    final(tm).eval_args(self@, a),
                ),
    {
        tm.new_op_terms_fold(op, &self.data)
    }
}

} // verus!
