//! The single entry point for building interior nodes, and its helpers.
//!
//! `new_op_term` resolves non-core operators by rewriting, runs the
//! algebraic simplifier on core applications, and interns a canonical
//! node only when no rewrite applies. Every path returns a term whose
//! meaning is exactly the operator applied to the operands' meanings.
//!
//! The simplifier and the factory call back into one another; a fuel
//! budget bounds that mutual recursion. When the budget runs out the
//! factory simply interns the canonical node, which is always sound.

use crate::op::Op;
use crate::semantics::{apply_core, apply_op, fold_apply};
use crate::term::{
    lemma_assignment_frame, lemma_eval_frame, lemma_eval_op_node, lemma_extends_novar_trans,
    OpTerm, Term, TermManager, TermType,
};
use vstd::prelude::*;

verus! {

/// The recursion budget handed to the simplifier by the public factory
/// entry points. Rewrites deeper than this are abandoned in favor of the
/// canonical node, which is always sound.
pub const SIMPLIFY_FUEL: u64 = 32;

impl TermManager {
    /// Looks for an already-interned node applying `op` to exactly these
    /// operands.
    fn find_op_node(&self, op: Op, terms: &Vec<Term>) -> (r: Option<Term>)
        ensures
            match r {
                Some(t) => self.is_op_node(t.id as int, op, terms@),
                None => !self.has_op_node(op, terms@),
            },
    {
        let n = self.nodes.len();
        for k in 0..n
            invariant
                n == self.nodes@.len(),
                forall|j: int| 0 <= j < k ==> !self.is_op_node(j, op, terms@),
        {
            let hit = match &self.nodes[k].ty {
                TermType::Op(ot) => {
                    if ot.op == op && ot.terms.len() == terms.len() {
                        let mut same = true;
                        let nn = terms.len();
                        for j in 0..nn
                            invariant
                                nn == terms@.len() == ot.terms@.len(),
                                same <==> (forall|l: int|
                                    0 <= l < j ==> ot.terms@[l] == terms@[l]),
                        {
                            if ot.terms[j] != terms[j] {
                                proof {
                                    assert(ot.terms@[j as int] != terms@[j as int]);
                                }
                                same = false;
                            }
                        }
                        proof {
                            if same {
                                assert(ot.terms@ =~= terms@);
                            }
                        }
                        same
                    } else {
                        false
                    }
                },
                _ => false,
            };
            if hit {
                proof {
                    assert(self.is_op_node(k as int, op, terms@));
                }
                return Some(Term { id: k });
            }
            proof {
                assert(!self.is_op_node(k as int, op, terms@));
            }
        }
        proof {
            if self.has_op_node(op, terms@) {
                let i = choose|i: int| self.is_op_node(i, op, terms@);
                assert(false);
            }
        }
        None
    }

    /// Computes the result sort of a core operator application.
    fn compute_sort(&self, op: Op, terms: &Vec<Term>) -> (s: crate::sort::Sort)
        requires
            self.all_valid(terms@),
            op.spec_is_core(),
            op.args_wf(self.sorts_of(terms@)),
        ensures
            s == op.result_sort(self.sorts_of(terms@)),
            s.wf(),
    {
        proof {
            assert forall|j: int| 0 <= j < terms@.len() implies self.sorts_of(terms@)[j]
                == self.sort_of(terms@[j]) by {}
        }
        match op {
            Op::Eq | Op::Ult | Op::Slt | Op::Redxor => crate::sort::Sort::Bv(1),
            Op::Ite => self.term_sort(terms[1]),
            Op::Concat | Op::Sext => {
                let w0 = self.term_bv_len(terms[0]);
                let w1 = self.term_bv_len(terms[1]);
                crate::sort::Sort::Bv(w0 + w1)
            },
            Op::Slice => {
                let w1 = self.term_bv_len(terms[1]);
                let w2 = self.term_bv_len(terms[2]);
                crate::sort::Sort::Bv(w1 - w2 + 1)
            },
            Op::Read => {
                match self.term_sort(terms[0]) {
                    crate::sort::Sort::Array(i, e) => {
                        proof {
                            vstd::arithmetic::power2::lemma_pow2_pos(i as nat);
                            assert(e <= vstd::arithmetic::power2::pow2(i as nat) * e)
                                by (nonlinear_arith)
                                requires 1 <= vstd::arithmetic::power2::pow2(i as nat);
                        }
                        crate::sort::Sort::Bv(e)
                    },
                    crate::sort::Sort::Bv(..) => unreached(),
                }
            },
            _ => self.term_sort(terms[0]),
        }
    }

    /// The single entry point for building interior nodes.
    ///
    /// A non-core operator is rewritten into an equivalent composition of
    /// core operators and never stored. A core application is first
    /// looked up in the intern table, then offered to the simplifier, and
    /// interned canonically only when no rewrite applies. In every case
    /// the returned term means exactly `op` applied to the operands'
    /// meanings, under every assignment that fits the graph.
    pub fn new_op_term(&mut self, op: Op, terms: &Vec<Term>) -> (r: Term)
        requires
            old(self).wf(),
            old(self).all_valid(terms@),
            op.args_wf(old(self).sorts_of(terms@)),
        ensures
            final(self).wf(),
            final(self).extends_novar(*old(self)),
            final(self).valid(r),
            final(self).sort_of(r) == op.result_sort(old(self).sorts_of(terms@)),
            forall|a: spec_fn(u32) -> Seq<bool>|
                final(self).assignment_ok(a) ==> #[trigger] final(self).eval(r, a) == apply_op(
                    op,
                    final(self).eval_args(terms@, a),
                ),
            op.spec_is_core() && old(self).has_op_node(op, terms@) ==> *final(self) == *old(
                self,
            ) && final(self).is_op_node(r.id as int, op, terms@),
            SIMPLIFY_FUEL > 0 && op is And && !old(self).has_op_node(op, terms@) && old(
                self,
            ).is_const_fill_node(terms@[0].id as int, true) ==> r == terms@[1] && *final(self)
                == *old(self),
            SIMPLIFY_FUEL > 0 && op is And && !old(self).has_op_node(op, terms@) && !old(
                self,
            ).is_const_fill_node(terms@[0].id as int, true) && old(self).is_const_fill_node(
                terms@[0].id as int,
                false,
            ) ==> r == terms@[0] && *final(self) == *old(self),
            SIMPLIFY_FUEL > 0 && op is Not && !old(self).has_op_node(op, terms@) && old(self).node(
                terms@[0],
            ).ty is Op && old(self).node(terms@[0]).ty->Op_0.op == Op::Not ==> r == old(
                self,
            ).node(terms@[0]).ty->Op_0.terms@[0] && *final(self) == *old(self),
            SIMPLIFY_FUEL > 0 && op is Xor && !old(self).has_op_node(op, terms@) && terms@[0] == terms@[1]
                && !(old(self).node(terms@[0]).ty is Const) ==> final(self).is_bv_const_node(
                r.id as int,
                Seq::new(old(self).sort_of(terms@[0]).spec_width(), |i: int| false),
            ),
            SIMPLIFY_FUEL > 0 && op is Concat && !old(self).has_op_node(op, terms@) && (old(self).node(
                terms@[0],
            ).ty matches TermType::Const(crate::term::ConstTerm::BV(_))) && (old(self).node(
                terms@[1],
            ).ty matches TermType::Const(crate::term::ConstTerm::BV(_))) ==> final(self).is_bv_const_node(
                r.id as int,
                crate::semantics::bv_concat(
                    crate::simplify::const_node_bits(*old(self), terms@[0]),
                    crate::simplify::const_node_bits(*old(self), terms@[1]),
                ),
            ),
    {
        self.new_op_term_rec(SIMPLIFY_FUEL, op, terms)
    }

    /// The fueled factory worker behind `new_op_term`.
    pub(crate) fn new_op_term_rec(&mut self, fuel: u64, op: Op, terms: &Vec<Term>) -> (r: Term)
        requires
            old(self).wf(),
            old(self).all_valid(terms@),
            op.args_wf(old(self).sorts_of(terms@)),
        ensures
            final(self).wf(),
            final(self).extends_novar(*old(self)),
            final(self).valid(r),
            final(self).sort_of(r) == op.result_sort(old(self).sorts_of(terms@)),
            forall|a: spec_fn(u32) -> Seq<bool>|
                final(self).assignment_ok(a) ==> #[trigger] final(self).eval(r, a) == apply_op(
                    op,
                    final(self).eval_args(terms@, a),
                ),
            op.spec_is_core() && old(self).has_op_node(op, terms@) ==> *final(self) == *old(
                self,
            ) && final(self).is_op_node(r.id as int, op, terms@),
            fuel > 0 && op is And && !old(self).has_op_node(op, terms@) && old(
                self,
            ).is_const_fill_node(terms@[0].id as int, true) ==> r == terms@[1] && *final(self)
                == *old(self),
            fuel > 0 && op is And && !old(self).has_op_node(op, terms@) && !old(
                self,
            ).is_const_fill_node(terms@[0].id as int, true) && old(self).is_const_fill_node(
                terms@[0].id as int,
                false,
            ) ==> r == terms@[0] && *final(self) == *old(self),
            fuel > 0 && op is Not && !old(self).has_op_node(op, terms@) && old(self).node(
                terms@[0],
            ).ty is Op && old(self).node(terms@[0]).ty->Op_0.op == Op::Not ==> r == old(
                self,
            ).node(terms@[0]).ty->Op_0.terms@[0] && *final(self) == *old(self),
            fuel > 0 && op is Xor && !old(self).has_op_node(op, terms@) && terms@[0] == terms@[1]
                && !(old(self).node(terms@[0]).ty is Const) ==> final(self).is_bv_const_node(
                r.id as int,
                Seq::new(old(self).sort_of(terms@[0]).spec_width(), |i: int| false),
            ),
            fuel > 0 && op is Concat && !old(self).has_op_node(op, terms@) && (old(self).node(
                terms@[0],
            ).ty matches TermType::Const(crate::term::ConstTerm::BV(_))) && (old(self).node(
                terms@[1],
            ).ty matches TermType::Const(crate::term::ConstTerm::BV(_))) ==> final(self).is_bv_const_node(
                r.id as int,
                crate::semantics::bv_concat(
                    crate::simplify::const_node_bits(*old(self), terms@[0]),
                    crate::simplify::const_node_bits(*old(self), terms@[1]),
                ),
            ),
        decreases fuel, op.rank(), 2int,
    {
        if !op.is_core() {
            return self.normalize(fuel, op, terms);
        }
        if let Some(t) = self.find_op_node(op, terms) {
            proof {
                assert(self.node_wf(t.id as int));
                assert forall|a: spec_fn(u32) -> Seq<bool>|
                    self.assignment_ok(a) implies #[trigger] self.eval(t, a) == apply_op(
                    op,
                    self.eval_args(terms@, a),
                ) by {
                    lemma_eval_op_node(*self, t, op, terms@, a);
                }
            }
            return t;
        }
        if fuel > 0 {
            let simplified = self.simplify_op(fuel - 1, op, terms);
            if let Some(t) = simplified {
                return t;
            }
        }
        let ghost m0 = *old(self);
        let ghost m1 = *self;
        proof {
            assert(m1.sorts_of(terms@) =~= m0.sorts_of(terms@));
        }
        let sort = self.compute_sort(op, terms);
        let r = self.new_term(TermType::Op(OpTerm { op, terms: terms.clone() }), sort);
        proof {
            let m2 = *self;
            assert(m2.extends_novar(m1));
            lemma_extends_novar_trans(m0, m1, m2);
            assert(self.is_op_node(r.id as int, op, terms@));
            assert(m2.sorts_of(terms@) =~= m1.sorts_of(terms@));
            assert(self.node_wf(r.id as int));
            match self.node(r).ty {
                TermType::Op(ot) => {
                    assert(ot.terms@ == terms@);
                    assert(self.node(r).sort == op.result_sort(self.sorts_of(terms@)));
                },
                _ => {
                    assert(false);
                },
            }
            assert forall|a: spec_fn(u32) -> Seq<bool>|
                self.assignment_ok(a) implies #[trigger] self.eval(r, a) == apply_op(
                op,
                self.eval_args(terms@, a),
            ) by {
                lemma_eval_op_node(*self, r, op, terms@, a);
            }
        }
        r
    }

    /// Left-folds a binary operator across a non-empty sequence of
    /// terms of one bit-vector sort: `op(op(op(t0,t1),t2),...)`.
    #[verifier::loop_isolation(false)]
    pub fn new_op_terms_fold(&mut self, op: Op, terms: &Vec<Term>) -> (r: Term)
        requires
            old(self).wf(),
            old(self).all_valid(terms@),
            0 < terms@.len(),
            op.is_fold_op(),
            forall|i: int|
                0 <= i < terms@.len() ==> old(self).sort_of(#[trigger] terms@[i]) == old(
                    self,
                ).sort_of(terms@[0]),
            old(self).sort_of(terms@[0]).is_bv(),
            old(self).sort_of(terms@[0]).wf(),
        ensures
            final(self).wf(),
            final(self).extends_novar(*old(self)),
            final(self).valid(r),
            final(self).sort_of(r) == old(self).sort_of(terms@[0]),
            forall|a: spec_fn(u32) -> Seq<bool>|
                final(self).assignment_ok(a) ==> #[trigger] final(self).eval(r, a) == fold_apply(
                    op,
                    final(self).eval_args(terms@, a),
                ),
            terms@.len() == 1 ==> r == terms@[0] && *final(self) == *old(self),
    {
        let ghost m0 = *old(self);
        let mut acc = terms[0];
        let n = terms.len();
        proof {
            assert forall|a: spec_fn(u32) -> Seq<bool>|
                self.assignment_ok(a) implies #[trigger] self.eval(acc, a) == fold_apply(
                op,
                self.eval_args(terms@.take(1), a),
            ) by {
                assert(self.eval_args(terms@.take(1), a) =~= seq![self.eval(terms@[0], a)]);
            }
        }
        for i in 1..n
            invariant
                self.wf(),
                self.extends_novar(m0),
                self.valid(acc),
                self.sort_of(acc) == m0.sort_of(terms@[0]),
                terms@.len() == 1 ==> *self == m0 && acc == terms@[0],
                forall|a: spec_fn(u32) -> Seq<bool>|
                    self.assignment_ok(a) ==> #[trigger] self.eval(acc, a) == fold_apply(
                        op,
                        self.eval_args(terms@.take(i as int), a),
                    ),
        {
            let ghost mp = *self;
            let t = terms[i];
            proof {
                assert(mp.sorts_of(seq![acc, t]) =~= seq![mp.sort_of(acc), mp.sort_of(t)]);
                assert(mp.sort_of(t) == m0.sort_of(t));
            }
            let next = self.new_op_term_rec(SIMPLIFY_FUEL, op, &vec![acc, t]);
            proof {
                let mq = *self;
                lemma_extends_novar_trans(m0, mp, mq);
                assert forall|a: spec_fn(u32) -> Seq<bool>|
                    mq.assignment_ok(a) implies #[trigger] mq.eval(next, a) == fold_apply(
                    op,
                    mq.eval_args(terms@.take(i + 1), a),
                ) by {
                    lemma_assignment_frame(mp, mq, a);
                    lemma_eval_frame(mp, mq, acc, a);
                    assert(mq.eval_args(seq![acc, t], a) =~= seq![
                        mp.eval(acc, a),
                        mq.eval(t, a),
                    ]);
                    assert forall|j: int|
                        0 <= j < i implies #[trigger] mq.eval(terms@[j], a) == mp.eval(
                        terms@[j],
                        a,
                    ) by {
                        lemma_eval_frame(mp, mq, terms@[j], a);
                    }
                    let prev = terms@.take(i as int);
                    let cur = terms@.take(i + 1);
                    assert(mq.eval_args(cur, a).drop_last() =~= mp.eval_args(prev, a));
                    assert(mq.eval_args(cur, a).last() == mq.eval(t, a));
                    assert(mq.eval_args(cur, a).len() == i + 1);
                    assert(fold_apply(op, mq.eval_args(cur, a)) == apply_core(
                        op,
                        seq![
                            fold_apply(op, mq.eval_args(cur, a).drop_last()),
                            mq.eval_args(cur, a).last(),
                        ],
                    ));
                    assert(seq![
                        fold_apply(op, mp.eval_args(prev, a)),
                        mq.eval(t, a),
                    ] =~= seq![
                        fold_apply(op, mq.eval_args(cur, a).drop_last()),
                        mq.eval_args(cur, a).last(),
                    ]);
                }
            }
            acc = next;
        }
        proof {
            assert(terms@.take(n as int) =~= terms@);
        }
        acc
    }

    /// Builds `op(x_i, y_i)` pairwise: lifts a binary boolean operator
    /// across two equal-length operand vectors.
    #[verifier::loop_isolation(false)]
    pub fn new_op_terms_elementwise(&mut self, op: Op, xs: &Vec<Term>, ys: &Vec<Term>) -> (r:
        Vec<Term>)
        requires
            old(self).wf(),
            old(self).all_valid(xs@),
            old(self).all_valid(ys@),
            xs@.len() == ys@.len(),
            op.is_fold_op() || op is Eq,
            forall|i: int|
                0 <= i < xs@.len() ==> old(self).sort_of(#[trigger] xs@[i]) == old(self).sort_of(
                    ys@[i],
                ) && old(self).sort_of(xs@[i]).is_bv() && old(self).sort_of(xs@[i]).wf(),
        ensures
            final(self).wf(),
            final(self).extends_novar(*old(self)),
            r@.len() == xs@.len(),
            forall|i: int|
                0 <= i < r@.len() ==> final(self).valid(#[trigger] r@[i]) && final(self).sort_of(
                    r@[i],
                ) == (if op is Eq {
                    crate::sort::Sort::Bv(1usize)
                } else {
                    old(self).sort_of(xs@[i])
                }),
            forall|a: spec_fn(u32) -> Seq<bool>, i: int|
                final(self).assignment_ok(a) && 0 <= i < r@.len()
                    ==> #[trigger] final(self).eval(r@[i], a) == apply_core(
                    op,
                    seq![final(self).eval(xs@[i], a), final(self).eval(ys@[i], a)],
                ),
    {
        let ghost m0 = *old(self);
        let mut out: Vec<Term> = Vec::new();
        let n = xs.len();
        for i in 0..n
            invariant
                self.wf(),
                self.extends_novar(m0),
                out@.len() == i,
                forall|j: int|
                    0 <= j < i ==> self.valid(#[trigger] out@[j]) && self.sort_of(out@[j]) == (
                    if op is Eq {
                        crate::sort::Sort::Bv(1usize)
                    } else {
                        m0.sort_of(xs@[j])
                    }),
                forall|a: spec_fn(u32) -> Seq<bool>, j: int|
                    self.assignment_ok(a) && 0 <= j < i ==> #[trigger] self.eval(out@[j], a)
                        == apply_core(op, seq![self.eval(xs@[j], a), self.eval(ys@[j], a)]),
        {
            let ghost mp = *self;
            let x = xs[i];
            let y = ys[i];
            proof {
                assert(mp.sorts_of(seq![x, y]) =~= seq![mp.sort_of(x), mp.sort_of(y)]);
            }
            let t = self.new_op_term_rec(SIMPLIFY_FUEL, op, &vec![x, y]);
            out.push(t);
            proof {
                let mq = *self;
                lemma_extends_novar_trans(m0, mp, mq);
                assert forall|a: spec_fn(u32) -> Seq<bool>, j: int|
                    mq.assignment_ok(a) && 0 <= j < i + 1 implies #[trigger] mq.eval(
                    out@[j],
                    a,
                ) == apply_core(op, seq![mq.eval(xs@[j], a), mq.eval(ys@[j], a)]) by {
                    lemma_assignment_frame(mp, mq, a);
                    if j < i {
                        lemma_eval_frame(mp, mq, out@[j], a);
                        lemma_eval_frame(mp, mq, xs@[j], a);
                        lemma_eval_frame(mp, mq, ys@[j], a);
                        assert(seq![mq.eval(xs@[j], a), mq.eval(ys@[j], a)] =~= seq![
                            mp.eval(xs@[j], a),
                            mp.eval(ys@[j], a),
                        ]);
                    } else {
                        assert(mq.eval_args(seq![x, y], a) =~= seq![
                            mq.eval(x, a),
                            mq.eval(y, a),
                        ]);
                    }
                }
            }
        }
        out
    }

    /// Rewrites a non-core operator application into the equivalent
    /// composition of core operators; no non-core node is ever stored.
    fn normalize(&mut self, fuel: u64, op: Op, terms: &Vec<Term>) -> (r: Term)
        requires
            old(self).wf(),
            old(self).all_valid(terms@),
            op.args_wf(old(self).sorts_of(terms@)),
            !op.spec_is_core(),
        ensures
            final(self).wf(),
            final(self).extends_novar(*old(self)),
            final(self).valid(r),
            final(self).sort_of(r) == op.result_sort(old(self).sorts_of(terms@)),
            forall|a: spec_fn(u32) -> Seq<bool>|
                final(self).assignment_ok(a) ==> #[trigger] final(self).eval(r, a) == apply_op(
                    op,
                    final(self).eval_args(terms@, a),
                ),
        decreases fuel, op.rank(), 1int,
    {
        let ghost m0 = *self;
        proof {
            assert forall|j: int| 0 <= j < terms@.len() implies m0.sorts_of(terms@)[j]
                == m0.sort_of(terms@[j]) by {}
        }
        match op {
            Op::Neg => {
                let x = terms[0];
                let w = self.term_bv_len(x);
                let nx = self.new_op_term_rec(fuel, Op::Not, &vec![x]);
                let ghost m1 = *self;
                let one = self.bv_const_one(w);
                let ghost m2 = *self;
                let r = self.new_op_term_rec(fuel, Op::Add, &vec![nx, one]);
                proof {
                    let m3 = *self;
                    lemma_extends_novar_trans(m0, m1, m2);
                    lemma_extends_novar_trans(m0, m2, m3);
                    assert forall|a: spec_fn(u32) -> Seq<bool>|
                        m3.assignment_ok(a) implies #[trigger] m3.eval(r, a) == apply_op(
                        op,
                        m3.eval_args(terms@, a),
                    ) by {
                        lemma_assignment_frame(m2, m3, a);
                        lemma_assignment_frame(m1, m2, a);
                        lemma_assignment_frame(m0, m1, a);
                        lemma_eval_frame(m1, m3, nx, a);
                        lemma_eval_frame(m2, m3, one, a);
                        lemma_eval_frame(m0, m1, x, a);
                        lemma_eval_frame(m0, m3, x, a);
                        assert(m1.eval_args(seq![x], a) =~= seq![m0.eval(x, a)]);
                        assert(m3.eval_args(seq![nx, one], a) =~= seq![
                            m1.eval(nx, a),
                            m2.eval(one, a),
                        ]);
                        assert(m3.eval_args(terms@, a) =~= seq![m0.eval(x, a)]);
                        crate::term::lemma_eval_len(m0, x, a);
                    }
                }
                r
            },
            Op::Neq => {
                let e = self.new_op_term_rec(fuel, Op::Eq, terms);
                let ghost m1 = *self;
                proof {
                    assert(m1.sorts_of(seq![e]) =~= seq![m1.sort_of(e)]);
                }
                let r = self.new_op_term_rec(fuel, Op::Not, &vec![e]);
                proof {
                    let m3 = *self;
                    lemma_extends_novar_trans(m0, m1, m3);
                    assert forall|a: spec_fn(u32) -> Seq<bool>|
                        m3.assignment_ok(a) implies #[trigger] m3.eval(r, a) == apply_op(
                        op,
                        m3.eval_args(terms@, a),
                    ) by {
                        lemma_assignment_frame(m1, m3, a);
                        lemma_assignment_frame(m0, m1, a);
                        lemma_eval_frame(m1, m3, e, a);
                        lemma_eval_frame(m0, m1, terms@[0], a);
                        lemma_eval_frame(m0, m1, terms@[1], a);
                        lemma_eval_frame(m0, m3, terms@[0], a);
                        lemma_eval_frame(m0, m3, terms@[1], a);
                        assert(m3.eval_args(seq![e], a) =~= seq![m1.eval(e, a)]);
                        assert(m1.eval_args(terms@, a) =~= seq![
                            m0.eval(terms@[0], a),
                            m0.eval(terms@[1], a),
                        ]);
                        assert(m3.eval_args(terms@, a) =~= seq![
                            m0.eval(terms@[0], a),
                            m0.eval(terms@[1], a),
                        ]);
                    }
                }
                r
            },
            Op::Redor => {
                let x = terms[0];
                let w = self.term_bv_len(x);
                let zero = self.bv_const_zero(w);
                let ghost m1 = *self;
                let r = self.new_op_term_rec(fuel, Op::Neq, &vec![x, zero]);
                proof {
                    let m3 = *self;
                    lemma_extends_novar_trans(m0, m1, m3);
                    assert forall|a: spec_fn(u32) -> Seq<bool>|
                        m3.assignment_ok(a) implies #[trigger] m3.eval(r, a) == apply_op(
                        op,
                        m3.eval_args(terms@, a),
                    ) by {
                        lemma_assignment_frame(m1, m3, a);
                        lemma_assignment_frame(m0, m1, a);
                        lemma_eval_frame(m0, m1, x, a);
                        lemma_eval_frame(m0, m3, x, a);
                        lemma_eval_frame(m1, m3, zero, a);
                        assert(m3.eval_args(seq![x, zero], a) =~= seq![
                            m0.eval(x, a),
                            m1.eval(zero, a),
                        ]);
                        assert(m3.eval_args(terms@, a) =~= seq![m0.eval(x, a)]);
                        crate::term::lemma_eval_len(m0, x, a);
                    }
                }
                r
            },
            Op::Uext => {
                let r = self.new_op_term_rec(fuel, Op::Concat, &vec![terms[1], terms[0]]);
                proof {
                    let m3 = *self;
                    assert(m0.sorts_of(seq![terms@[1], terms@[0]]) =~= seq![
                        m0.sort_of(terms@[1]),
                        m0.sort_of(terms@[0]),
                    ]);
                    assert forall|a: spec_fn(u32) -> Seq<bool>|
                        m3.assignment_ok(a) implies #[trigger] m3.eval(r, a) == apply_op(
                        op,
                        m3.eval_args(terms@, a),
                    ) by {
                        assert(m3.eval_args(seq![terms@[1], terms@[0]], a) =~= seq![
                            m3.eval(terms@[1], a),
                            m3.eval(terms@[0], a),
                        ]);
                        assert(m3.eval_args(terms@, a) =~= seq![
                            m3.eval(terms@[0], a),
                            m3.eval(terms@[1], a),
                        ]);
                    }
                }
                r
            },
            Op::Ugte => {
                let u = self.new_op_term_rec(fuel, Op::Ult, terms);
                let ghost m1 = *self;
                proof {
                    assert(m1.sorts_of(seq![u]) =~= seq![m1.sort_of(u)]);
                }
                let r = self.new_op_term_rec(fuel, Op::Not, &vec![u]);
                proof {
                    let m3 = *self;
                    lemma_extends_novar_trans(m0, m1, m3);
                    assert forall|a: spec_fn(u32) -> Seq<bool>|
                        m3.assignment_ok(a) implies #[trigger] m3.eval(r, a) == apply_op(
                        op,
                        m3.eval_args(terms@, a),
                    ) by {
                        lemma_assignment_frame(m1, m3, a);
                        lemma_assignment_frame(m0, m1, a);
                        lemma_eval_frame(m1, m3, u, a);
                        lemma_eval_frame(m0, m1, terms@[0], a);
                        lemma_eval_frame(m0, m1, terms@[1], a);
                        lemma_eval_frame(m0, m3, terms@[0], a);
                        lemma_eval_frame(m0, m3, terms@[1], a);
                        assert(m3.eval_args(seq![u], a) =~= seq![m1.eval(u, a)]);
                        assert(m1.eval_args(terms@, a) =~= seq![
                            m0.eval(terms@[0], a),
                            m0.eval(terms@[1], a),
                        ]);
                        assert(m3.eval_args(terms@, a) =~= seq![
                            m0.eval(terms@[0], a),
                            m0.eval(terms@[1], a),
                        ]);
                    }
                }
                r
            },
            _ => unreached(),
        }
    }
}

} // verus!
