//! Per-operator peephole rewrite rules, invoked by the factory before a
//! core application is interned. A rule may only return a replacement
//! whose meaning equals the operator applied to the operands, under
//! every assignment that fits the graph; "no rule applies" is an
//! ordinary outcome, not an error.

use crate::op::Op;
use crate::semantics::{
    apply_core, bv_and, bv_concat, bv_eq, bv_ite, bv_not, bv_or, bv_ult, bv_xor,
    lemma_to_nat_bound, lemma_to_nat_ones, lemma_to_nat_zero, to_nat,
};
use crate::term::{
    const_sort_ok, lemma_assignment_frame, lemma_eval_frame, lemma_eval_len, lemma_eval_op_node,
    lemma_extends_novar_trans, ConstTerm, Term, TermManager, TermType,
};
use vstd::prelude::*;

verus! {

/// A constant-filled node evaluates to its width many copies of the
/// fill bit.
pub proof fn lemma_eval_const_fill(
    m: TermManager,
    t: Term,
    val: bool,
    a: spec_fn(u32) -> Seq<bool>,
)
    requires
        m.wf(),
        m.valid(t),
        m.is_const_fill_node(t.id as int, val),
    ensures
        m.eval(t, a).len() == m.sort_of(t).spec_width(),
        forall|k: int| 0 <= k < m.eval(t, a).len() ==> m.eval(t, a)[k] == val,
{
    assert(m.node_wf(t.id as int));
}

/// Complementary terms evaluate to pointwise opposite bits.
pub proof fn lemma_eval_complement(m: TermManager, x: Term, y: Term, a: spec_fn(u32) -> Seq<bool>)
    requires
        m.wf(),
        m.valid(x),
        m.valid(y),
        m.is_complement(x, y),
    ensures
        m.eval(x, a) == bv_not(m.eval(y, a)),
{
    if m.is_not_of(x, y) {
        lemma_eval_op_node(m, x, Op::Not, seq![y], a);
        assert(m.eval_args(seq![y], a) =~= seq![m.eval(y, a)]);
    } else if m.is_not_of(y, x) {
        lemma_eval_op_node(m, y, Op::Not, seq![x], a);
        assert(m.eval_args(seq![x], a) =~= seq![m.eval(x, a)]);
        assert(m.eval(x, a) =~= bv_not(bv_not(m.eval(x, a))));
    } else {
        match (m.node(x).ty, m.node(y).ty) {
            (TermType::Const(ConstTerm::BV(bx)), TermType::Const(ConstTerm::BV(by))) => {
                assert(m.eval(x, a) =~= bv_not(m.eval(y, a)));
            },
            _ => {
                assert(false);
            },
        }
    }
}

/// The operands of a stored binary bitwise node are valid, and share
/// the node's sort.
pub proof fn lemma_binary_node_facts(m: TermManager, t: Term, op: Op, t0: Term, t1: Term)
    requires
        m.wf(),
        m.valid(t),
        m.node(t).ty is Op,
        m.node(t).ty->Op_0.op == op,
        op is And || op is Or || op is Xor,
        t0 == m.node(t).ty->Op_0.terms@[0],
        t1 == m.node(t).ty->Op_0.terms@[1],
    ensures
        m.valid(t0),
        m.valid(t1),
        m.is_op_node(t.id as int, op, seq![t0, t1]),
        m.sort_of(t0) == m.sort_of(t),
        m.sort_of(t1) == m.sort_of(t),
{
    assert(m.node_wf(t.id as int));
    match m.node(t).ty {
        TermType::Op(ot) => {
            assert(ot.terms@ =~= seq![t0, t1]);
            assert(m.sorts_of(ot.terms@)[0] == m.sort_of(t0));
            assert(m.sorts_of(ot.terms@)[1] == m.sort_of(t1));
        },
        _ => {
            assert(false);
        },
    }
}

/// The operands of a stored `Ite` node are valid; the condition is
/// boolean and the branches share the node's sort.
pub proof fn lemma_ite_node_facts(m: TermManager, t: Term, c: Term, th: Term, el: Term)
    requires
        m.wf(),
        m.valid(t),
        m.node(t).ty is Op,
        m.node(t).ty->Op_0.op == Op::Ite,
        c == m.node(t).ty->Op_0.terms@[0],
        th == m.node(t).ty->Op_0.terms@[1],
        el == m.node(t).ty->Op_0.terms@[2],
    ensures
        m.valid(c),
        m.valid(th),
        m.valid(el),
        m.is_op_node(t.id as int, Op::Ite, seq![c, th, el]),
        m.sort_of(c) == crate::sort::Sort::Bv(1usize),
        m.sort_of(th) == m.sort_of(t),
        m.sort_of(el) == m.sort_of(t),
{
    assert(m.node_wf(t.id as int));
    match m.node(t).ty {
        TermType::Op(ot) => {
            assert(ot.terms@ =~= seq![c, th, el]);
            assert(m.sorts_of(ot.terms@)[0] == m.sort_of(c));
            assert(m.sorts_of(ot.terms@)[1] == m.sort_of(th));
            assert(m.sorts_of(ot.terms@)[2] == m.sort_of(el));
        },
        _ => {
            assert(false);
        },
    }
}

/// The operand of a stored `Not` node is valid and shares the node's
/// sort.
pub proof fn lemma_unary_node_facts(m: TermManager, t: Term, op: Op, t0: Term)
    requires
        m.wf(),
        m.valid(t),
        m.node(t).ty is Op,
        m.node(t).ty->Op_0.op == op,
        op is Not,
        t0 == m.node(t).ty->Op_0.terms@[0],
    ensures
        m.valid(t0),
        m.is_op_node(t.id as int, op, seq![t0]),
        m.sort_of(t0) == m.sort_of(t),
{
    assert(m.node_wf(t.id as int));
    match m.node(t).ty {
        TermType::Op(ot) => {
            assert(ot.terms@ =~= seq![t0]);
            assert(m.sorts_of(ot.terms@)[0] == m.sort_of(t0));
        },
        _ => {
            assert(false);
        },
    }
}

impl TermManager {
    /// Offers a core operator application to the rewrite rules of its
    /// operator. Returns a provably equivalent replacement term, or
    /// nothing when no rule matches.
    pub(crate) fn simplify_op(&mut self, fuel: u64, op: Op, terms: &Vec<Term>) -> (r: Option<
        Term,
    >)
        requires
            old(self).wf(),
            old(self).all_valid(terms@),
            op.spec_is_core(),
            op.args_wf(old(self).sorts_of(terms@)),
        ensures
            final(self).wf(),
            final(self).extends_novar(*old(self)),
            match r {
                Some(t) => final(self).valid(t) && final(self).sort_of(t) == op.result_sort(
                    old(self).sorts_of(terms@),
                ) && forall|a: spec_fn(u32) -> Seq<bool>|
                    final(self).assignment_ok(a) ==> #[trigger] final(self).eval(t, a)
                        == apply_core(op, final(self).eval_args(terms@, a)),
                None => true,
            },
            op is Not && old(self).node(terms@[0]).ty is Op && old(self).node(
                terms@[0],
            ).ty->Op_0.op == Op::Not ==> r == Some(old(self).node(terms@[0]).ty->Op_0.terms@[0])
                && *final(self) == *old(self),
            op is And && old(self).is_const_fill_node(terms@[0].id as int, true) ==> r == Some(
                terms@[1],
            ) && *final(self) == *old(self),
            op is And && !old(self).is_const_fill_node(terms@[0].id as int, true) && old(
                self,
            ).is_const_fill_node(terms@[0].id as int, false) ==> r == Some(terms@[0]) && *final(self) == *old(self),
            op is Xor && terms@[0] == terms@[1] && !(old(self).node(terms@[0]).ty is Const)
                ==> r is Some && final(self).is_bv_const_node(
                r->Some_0.id as int,
                Seq::new(old(self).sort_of(terms@[0]).spec_width(), |i: int| false),
            ),
            op is Concat && (old(self).node(terms@[0]).ty matches TermType::Const(
                ConstTerm::BV(_),
            )) && (old(self).node(terms@[1]).ty matches TermType::Const(ConstTerm::BV(_)))
                ==> r is Some && final(self).is_bv_const_node(
                r->Some_0.id as int,
                bv_concat(
                    const_node_bits(*old(self), terms@[0]),
                    const_node_bits(*old(self), terms@[1]),
                ),
            ),
        decreases fuel, 3int, 1int,
    {
        proof {
            assert forall|j: int| 0 <= j < terms@.len() implies old(self).sorts_of(terms@)[j]
                == old(self).sort_of(terms@[j]) by {}
        }
        match op {
            Op::Not => {
                let r = self.not_simplify(fuel, terms[0]);
                proof {
                    if let Some(t) = r {
                        assert forall|a: spec_fn(u32) -> Seq<bool>|
                            self.assignment_ok(a) implies #[trigger] self.eval(t, a)
                            == apply_core(op, self.eval_args(terms@, a)) by {
                            assert(self.eval_args(terms@, a) =~= seq![
                                self.eval(terms@[0], a),
                            ]);
                        }
                    }
                }
                r
            },
            Op::Eq => {
                let r = self.eq_simplify(fuel, terms[0], terms[1]);
                proof {
                    if let Some(t) = r {
                        assert forall|a: spec_fn(u32) -> Seq<bool>|
                            self.assignment_ok(a) implies #[trigger] self.eval(t, a)
                            == apply_core(op, self.eval_args(terms@, a)) by {
                            assert(self.eval_args(terms@, a) =~= seq![
                                self.eval(terms@[0], a),
                                self.eval(terms@[1], a),
                            ]);
                        }
                    }
                }
                r
            },
            Op::Ult => {
                let r = self.ult_simplify(fuel, terms[0], terms[1]);
                proof {
                    if let Some(t) = r {
                        assert forall|a: spec_fn(u32) -> Seq<bool>|
                            self.assignment_ok(a) implies #[trigger] self.eval(t, a)
                            == apply_core(op, self.eval_args(terms@, a)) by {
                            assert(self.eval_args(terms@, a) =~= seq![
                                self.eval(terms@[0], a),
                                self.eval(terms@[1], a),
                            ]);
                        }
                    }
                }
                r
            },
            Op::Ite => {
                let r = self.ite_simplify(fuel, terms[0], terms[1], terms[2]);
                proof {
                    if let Some(t) = r {
                        assert forall|a: spec_fn(u32) -> Seq<bool>|
                            self.assignment_ok(a) implies #[trigger] self.eval(t, a)
                            == apply_core(op, self.eval_args(terms@, a)) by {
                            assert(self.eval_args(terms@, a) =~= seq![
                                self.eval(terms@[0], a),
                                self.eval(terms@[1], a),
                                self.eval(terms@[2], a),
                            ]);
                        }
                    }
                }
                r
            },
            Op::Or => {
                let r = self.or_simplify(fuel, terms[0], terms[1]);
                proof {
                    if let Some(t) = r {
                        assert forall|a: spec_fn(u32) -> Seq<bool>|
                            self.assignment_ok(a) implies #[trigger] self.eval(t, a)
                            == apply_core(op, self.eval_args(terms@, a)) by {
                            assert(self.eval_args(terms@, a) =~= seq![
                                self.eval(terms@[0], a),
                                self.eval(terms@[1], a),
                            ]);
                        }
                    }
                }
                r
            },
            Op::And => {
                let r = self.and_simplify(fuel, terms[0], terms[1]);
                proof {
                    if let Some(t) = r {
                        assert forall|a: spec_fn(u32) -> Seq<bool>|
                            self.assignment_ok(a) implies #[trigger] self.eval(t, a)
                            == apply_core(op, self.eval_args(terms@, a)) by {
                            assert(self.eval_args(terms@, a) =~= seq![
                                self.eval(terms@[0], a),
                                self.eval(terms@[1], a),
                            ]);
                        }
                    }
                }
                r
            },
            Op::Xor => {
                let r = self.xor_simplify(fuel, terms[0], terms[1]);
                proof {
                    if let Some(t) = r {
                        assert forall|a: spec_fn(u32) -> Seq<bool>|
                            self.assignment_ok(a) implies #[trigger] self.eval(t, a)
                            == apply_core(op, self.eval_args(terms@, a)) by {
                            assert(self.eval_args(terms@, a) =~= seq![
                                self.eval(terms@[0], a),
                                self.eval(terms@[1], a),
                            ]);
                        }
                    }
                }
                r
            },
            Op::Concat => {
                let r = self.concat_simplify(terms[0], terms[1]);
                proof {
                    if let Some(t) = r {
                        assert forall|a: spec_fn(u32) -> Seq<bool>|
                            self.assignment_ok(a) implies #[trigger] self.eval(t, a)
                            == apply_core(op, self.eval_args(terms@, a)) by {
                            assert(self.eval_args(terms@, a) =~= seq![
                                self.eval(terms@[0], a),
                                self.eval(terms@[1], a),
                            ]);
                        }
                    }
                }
                r
            },
            _ => None,
        }
    }

    /// `Not(Not(x))` collapses to `x`; `Not` of a constant folds into
    /// the complemented constant. These are the only two rules: on any
    /// other shape no replacement is returned and nothing changes.
    fn not_simplify(&mut self, fuel: u64, x: Term) -> (r: Option<Term>)
        requires
            old(self).wf(),
            old(self).valid(x),
            old(self).sort_of(x).is_bv(),
            old(self).sort_of(x).wf(),
        ensures
            final(self).wf(),
            final(self).extends_novar(*old(self)),
            match r {
                Some(t) => final(self).valid(t) && final(self).sort_of(t) == old(self).sort_of(
                    x,
                ) && forall|a: spec_fn(u32) -> Seq<bool>|
                    final(self).assignment_ok(a) ==> #[trigger] final(self).eval(t, a) == bv_not(
                        final(self).eval(x, a),
                    ),
                None => true,
            },
            old(self).node(x).ty is Op && old(self).node(x).ty->Op_0.op == Op::Not ==> r == Some(
                old(self).node(x).ty->Op_0.terms@[0],
            ) && *final(self) == *old(self),
            (old(self).node(x).ty matches TermType::Const(ConstTerm::BV(_))) ==> r is Some
                && final(self).is_bv_const_node(
                r->Some_0.id as int,
                bv_not(const_node_bits(*old(self), x)),
            ),
            r is None ==> *final(self) == *old(self) && !(old(self).node(x).ty is Op && old(
                self,
            ).node(x).ty->Op_0.op == Op::Not) && !(old(self).node(x).ty matches TermType::Const(
                ConstTerm::BV(_),
            )),
        decreases fuel, 3int, 0int,
    {
        proof {
            assert(self.node_wf(x.id as int));
        }
        match self.node_op_of(x) {
            Some(Op::Not) => {
                let y = self.node_operand(x, 0);
                proof {
                    match self.node(x).ty {
                        TermType::Op(ot) => {
                            assert(ot.terms@ =~= seq![y]);
                            assert(self.sorts_of(ot.terms@)[0] == self.sort_of(y));
                        },
                        _ => {
                            assert(false);
                        },
                    }
                    assert forall|a: spec_fn(u32) -> Seq<bool>|
                        self.assignment_ok(a) implies #[trigger] self.eval(y, a) == bv_not(
                        self.eval(x, a),
                    ) by {
                        lemma_eval_op_node(*self, x, Op::Not, seq![y], a);
                        assert(self.eval_args(seq![y], a) =~= seq![self.eval(y, a)]);
                        assert(self.eval(y, a) =~= bv_not(bv_not(self.eval(y, a))));
                    }
                }
                Some(y)
            },
            _ => {
                if self.is_bv_const(x) {
                    let flipped = self.const_bits_complement(x);
                    let ghost m0 = *self;
                    let t = self.intern_bv_const(flipped);
                    proof {
                        let m1 = *self;
                        assert forall|a: spec_fn(u32) -> Seq<bool>|
                            m1.assignment_ok(a) implies #[trigger] m1.eval(t, a) == bv_not(
                            m1.eval(x, a),
                        ) by {
                            lemma_eval_frame(m0, m1, x, a);
                            assert(m1.eval(t, a) =~= bv_not(m0.eval(x, a)));
                        }
                    }
                    Some(t)
                } else {
                    None
                }
            },
        }
    }

    /// Reads the complemented bits of a bit-vector constant node.
    #[verifier::loop_isolation(false)]
    fn const_bits_complement(&self, x: Term) -> (v: Vec<bool>)
        requires
            self.valid(x),
            self.node(x).ty matches TermType::Const(ConstTerm::BV(_)),
        ensures
            v@ == bv_not(const_node_bits(*self, x)),
    {
        match &self.nodes[x.id].ty {
            TermType::Const(ConstTerm::BV(b)) => {
                let n = b.c.len();
                let mut v: Vec<bool> = Vec::new();
                for k in 0..n
                    invariant
                        n == b.c@.len(),
                        v@.len() == k,
                        forall|j: int| 0 <= j < k ==> v@[j] == !b.c@[j],
                {
                    let bit = b.c[k];
                    v.push(!bit);
                }
                proof {
                    assert(v@ =~= bv_not(b.c@));
                }
                v
            },
            _ => unreached(),
        }
    }

    /// Identity, annihilation, self-cancellation and complement rules
    /// for `Xor`, tried in both operand orders.
    pub(crate) fn xor_simplify(&mut self, fuel: u64, x: Term, y: Term) -> (r: Option<Term>)
        requires
            old(self).wf(),
            old(self).valid(x),
            old(self).valid(y),
            old(self).sort_of(x).is_bv(),
            old(self).sort_of(x).wf(),
            old(self).sort_of(x) == old(self).sort_of(y),
        ensures
            final(self).wf(),
            final(self).extends_novar(*old(self)),
            match r {
                Some(t) => final(self).valid(t) && final(self).sort_of(t) == old(self).sort_of(
                    x,
                ) && forall|a: spec_fn(u32) -> Seq<bool>|
                    final(self).assignment_ok(a) ==> #[trigger] final(self).eval(t, a) == bv_xor(
                        final(self).eval(x, a),
                        final(self).eval(y, a),
                    ),
                None => true,
            },
            r is None ==> *final(self) == *old(self) && !old(self).is_const_fill_node(
                x.id as int,
                true,
            ) && !old(self).is_const_fill_node(x.id as int, false) && !old(
                self,
            ).is_const_fill_node(y.id as int, true) && !old(self).is_const_fill_node(
                y.id as int,
                false,
            ) && x != y && !old(self).is_complement(x, y),
            !old(self).is_const_fill_node(x.id as int, true) && old(self).is_const_fill_node(
                x.id as int,
                false,
            ) ==> r == Some(y) && *final(self) == *old(self),
            x == y && !(old(self).node(x).ty is Const) ==> r is Some && final(self).is_bv_const_node(
                r->Some_0.id as int,
                Seq::new(old(self).sort_of(x).spec_width(), |i: int| false),
            ),
        decreases fuel, 2int, 1int,
    {
        let first = self.xor_simp_one(fuel, x, y);
        if first.is_some() {
            return first;
        }
        let second = self.xor_simp_one(fuel, y, x);
        proof {
            if let Some(t) = second {
                assert forall|a: spec_fn(u32) -> Seq<bool>|
                    self.assignment_ok(a) implies #[trigger] self.eval(t, a) == bv_xor(
                    self.eval(x, a),
                    self.eval(y, a),
                ) by {
                    lemma_eval_len(*self, x, a);
                    lemma_eval_len(*self, y, a);
                    assert(bv_xor(self.eval(y, a), self.eval(x, a)) =~= bv_xor(
                        self.eval(x, a),
                        self.eval(y, a),
                    ));
                }
            }
        }
        second
    }

    fn xor_simp_one(&mut self, fuel: u64, a: Term, b: Term) -> (r: Option<Term>)
        requires
            old(self).wf(),
            old(self).valid(a),
            old(self).valid(b),
            old(self).sort_of(a).is_bv(),
            old(self).sort_of(a).wf(),
            old(self).sort_of(a) == old(self).sort_of(b),
        ensures
            final(self).wf(),
            final(self).extends_novar(*old(self)),
            match r {
                Some(t) => final(self).valid(t) && final(self).sort_of(t) == old(self).sort_of(
                    a,
                ) && forall|aa: spec_fn(u32) -> Seq<bool>|
                    final(self).assignment_ok(aa) ==> #[trigger] final(self).eval(t, aa)
                        == bv_xor(final(self).eval(a, aa), final(self).eval(b, aa)),
                None => true,
            },
            r is None ==> *final(self) == *old(self) && !old(self).is_const_fill_node(
                a.id as int,
                true,
            ) && !old(self).is_const_fill_node(a.id as int, false) && a != b && !old(
                self,
            ).is_complement(a, b),
            old(self).is_const_fill_node(a.id as int, true) ==> r is Some,
            !old(self).is_const_fill_node(a.id as int, true) && old(self).is_const_fill_node(
                a.id as int,
                false,
            ) ==> r == Some(b) && *final(self) == *old(self),
            a == b && !(old(self).node(a).ty is Const) ==> r is Some && final(self).is_bv_const_node(
                r->Some_0.id as int,
                Seq::new(old(self).sort_of(a).spec_width(), |i: int| false),
            ),
        decreases fuel, 2int, 0int,
    {
        let ghost m0 = *self;
        let w = self.term_bv_len(a);
        if self.is_bv_const(a) {
            if self.is_const_fill(a, true) {
                // ones ^ b == !b
                let t = self.new_op_term_rec(fuel, Op::Not, &vec![b]);
                proof {
                    let m1 = *self;
                    assert(m0.sorts_of(seq![b]) =~= seq![m0.sort_of(b)]);
                    assert forall|aa: spec_fn(u32) -> Seq<bool>|
                        m1.assignment_ok(aa) implies #[trigger] m1.eval(t, aa) == bv_xor(
                        m1.eval(a, aa),
                        m1.eval(b, aa),
                    ) by {
                        lemma_assignment_frame(m0, m1, aa);
                        assert(m1.eval_args(seq![b], aa) =~= seq![m1.eval(b, aa)]);
                        lemma_eval_const_fill(m1, a, true, aa);
                        lemma_eval_len(m1, a, aa);
                        lemma_eval_len(m1, b, aa);
                        assert(m1.eval(t, aa) =~= bv_xor(m1.eval(a, aa), m1.eval(b, aa)));
                    }
                }
                return Some(t);
            }
            if self.is_const_fill(a, false) {
                // zero ^ b == b
                proof {
                    assert forall|aa: spec_fn(u32) -> Seq<bool>|
                        self.assignment_ok(aa) implies #[trigger] self.eval(b, aa) == bv_xor(
                        self.eval(a, aa),
                        self.eval(b, aa),
                    ) by {
                        lemma_eval_const_fill(*self, a, false, aa);
                        lemma_eval_len(*self, a, aa);
                        lemma_eval_len(*self, b, aa);
                        assert(self.eval(b, aa) =~= bv_xor(self.eval(a, aa), self.eval(b, aa)));
                    }
                }
                return Some(b);
            }
        }
        if a == b {
            // x ^ x == zero
            let t = self.bv_const_zero(w);
            proof {
                let m1 = *self;
                assert(Seq::new(w as nat, |i: int| false) =~= Seq::new(
                    old(self).sort_of(a).spec_width(),
                    |i: int| false,
                ));
                assert forall|aa: spec_fn(u32) -> Seq<bool>|
                    m1.assignment_ok(aa) implies #[trigger] m1.eval(t, aa) == bv_xor(
                    m1.eval(a, aa),
                    m1.eval(b, aa),
                ) by {
                    lemma_assignment_frame(m0, m1, aa);
                    lemma_eval_len(m1, a, aa);
                    assert(m1.eval(t, aa) =~= bv_xor(m1.eval(a, aa), m1.eval(b, aa)));
                }
            }
            return Some(t);
        }
        if self.term_is_complement(a, b) {
            // x ^ !x == ones
            let t = self.bv_const_ones(w);
            proof {
                let m1 = *self;
                assert forall|aa: spec_fn(u32) -> Seq<bool>|
                    m1.assignment_ok(aa) implies #[trigger] m1.eval(t, aa) == bv_xor(
                    m1.eval(a, aa),
                    m1.eval(b, aa),
                ) by {
                    lemma_assignment_frame(m0, m1, aa);
                    lemma_eval_complement(m1, a, b, aa);
                    lemma_eval_len(m1, b, aa);
                    assert(m1.eval(t, aa) =~= bv_xor(m1.eval(a, aa), m1.eval(b, aa)));
                }
            }
            return Some(t);
        }
        None
    }

    /// All rule families for `Or`, tried in both operand orders:
    /// identity and annihilator constants, self-relations, complements,
    /// chained-`Or` absorption, De Morgan fusion, absorption through an
    /// `Ite` whose condition is one operand, and distribution over a
    /// shared `And` factor.
    pub(crate) fn or_simplify(&mut self, fuel: u64, x: Term, y: Term) -> (r: Option<Term>)
        requires
            old(self).wf(),
            old(self).valid(x),
            old(self).valid(y),
            old(self).sort_of(x).is_bv(),
            old(self).sort_of(x).wf(),
            old(self).sort_of(x) == old(self).sort_of(y),
        ensures
            final(self).wf(),
            final(self).extends_novar(*old(self)),
            match r {
                Some(t) => final(self).valid(t) && final(self).sort_of(t) == old(self).sort_of(
                    x,
                ) && forall|a: spec_fn(u32) -> Seq<bool>|
                    final(self).assignment_ok(a) ==> #[trigger] final(self).eval(t, a) == bv_or(
                        final(self).eval(x, a),
                        final(self).eval(y, a),
                    ),
                None => true,
            },
            r is None ==> *final(self) == *old(self) && !old(self).is_const_fill_node(
                x.id as int,
                true,
            ) && !old(self).is_const_fill_node(x.id as int, false) && !old(
                self,
            ).is_const_fill_node(y.id as int, true) && !old(self).is_const_fill_node(
                y.id as int,
                false,
            ) && x != y && !old(self).is_complement(x, y),
            old(self).is_const_fill_node(x.id as int, true) ==> r == Some(x) && *final(self)
                == *old(self),
            !old(self).is_const_fill_node(x.id as int, true) && old(self).is_const_fill_node(
                x.id as int,
                false,
            ) ==> r == Some(y) && *final(self) == *old(self),
            x == y ==> r == Some(x) && *final(self) == *old(self),
            old(self).is_complement(x, y) && x != y && !old(self).is_const_fill_node(
                x.id as int,
                true,
            ) && !old(self).is_const_fill_node(x.id as int, false) ==> r is Some && final(self).is_bv_const_node(
                r->Some_0.id as int,
                Seq::new(old(self).sort_of(x).spec_width(), |i: int| true),
            ),
        decreases fuel, 2int, 1int,
    {
        let first = self.or_simp_one(fuel, x, y);
        if first.is_some() {
            return first;
        }
        let second = self.or_simp_one(fuel, y, x);
        proof {
            if let Some(t) = second {
                assert forall|a: spec_fn(u32) -> Seq<bool>|
                    self.assignment_ok(a) implies #[trigger] self.eval(t, a) == bv_or(
                    self.eval(x, a),
                    self.eval(y, a),
                ) by {
                    lemma_eval_len(*self, x, a);
                    lemma_eval_len(*self, y, a);
                    assert(bv_or(self.eval(y, a), self.eval(x, a)) =~= bv_or(
                        self.eval(x, a),
                        self.eval(y, a),
                    ));
                }
            }
        }
        second
    }

    fn or_simp_one(&mut self, fuel: u64, a: Term, b: Term) -> (r: Option<Term>)
        requires
            old(self).wf(),
            old(self).valid(a),
            old(self).valid(b),
            old(self).sort_of(a).is_bv(),
            old(self).sort_of(a).wf(),
            old(self).sort_of(a) == old(self).sort_of(b),
        ensures
            final(self).wf(),
            final(self).extends_novar(*old(self)),
            match r {
                Some(t) => final(self).valid(t) && final(self).sort_of(t) == old(self).sort_of(
                    a,
                ) && forall|aa: spec_fn(u32) -> Seq<bool>|
                    final(self).assignment_ok(aa) ==> #[trigger] final(self).eval(t, aa)
                        == bv_or(final(self).eval(a, aa), final(self).eval(b, aa)),
                None => true,
            },
            r is None ==> *final(self) == *old(self) && !old(self).is_const_fill_node(
                a.id as int,
                true,
            ) && !old(self).is_const_fill_node(a.id as int, false) && a != b && !old(
                self,
            ).is_complement(a, b),
            old(self).is_const_fill_node(a.id as int, true) ==> r == Some(a) && *final(self)
                == *old(self),
            !old(self).is_const_fill_node(a.id as int, true) && old(self).is_const_fill_node(
                a.id as int,
                false,
            ) ==> r == Some(b) && *final(self) == *old(self),
            a == b ==> r == Some(a) && *final(self) == *old(self),
            old(self).is_complement(a, b) && a != b && !old(self).is_const_fill_node(
                a.id as int,
                true,
            ) && !old(self).is_const_fill_node(a.id as int, false) ==> r is Some && final(self).is_bv_const_node(
                r->Some_0.id as int,
                Seq::new(old(self).sort_of(a).spec_width(), |i: int| true),
            ),
        decreases fuel, 2int, 0int,
    {
        let ghost m0 = *self;
        if self.is_bv_const(a) {
            if self.is_const_fill(a, true) {
                // ones | b == ones
                proof {
                    assert forall|aa: spec_fn(u32) -> Seq<bool>|
                        self.assignment_ok(aa) implies #[trigger] self.eval(a, aa) == bv_or(
                        self.eval(a, aa),
                        self.eval(b, aa),
                    ) by {
                        lemma_eval_const_fill(*self, a, true, aa);
                        lemma_eval_len(*self, a, aa);
                        lemma_eval_len(*self, b, aa);
                        assert(self.eval(a, aa) =~= bv_or(self.eval(a, aa), self.eval(b, aa)));
                    }
                }
                return Some(a);
            }
            if self.is_const_fill(a, false) {
                // zero | b == b
                proof {
                    assert forall|aa: spec_fn(u32) -> Seq<bool>|
                        self.assignment_ok(aa) implies #[trigger] self.eval(b, aa) == bv_or(
                        self.eval(a, aa),
                        self.eval(b, aa),
                    ) by {
                        lemma_eval_const_fill(*self, a, false, aa);
                        lemma_eval_len(*self, a, aa);
                        lemma_eval_len(*self, b, aa);
                        assert(self.eval(b, aa) =~= bv_or(self.eval(a, aa), self.eval(b, aa)));
                    }
                }
                return Some(b);
            }
        }
        if a == b {
            // x | x == x
            proof {
                assert forall|aa: spec_fn(u32) -> Seq<bool>|
                    self.assignment_ok(aa) implies #[trigger] self.eval(a, aa) == bv_or(
                    self.eval(a, aa),
                    self.eval(b, aa),
                ) by {
                    assert(self.eval(a, aa) =~= bv_or(self.eval(a, aa), self.eval(b, aa)));
                }
            }
            return Some(a);
        }
        if self.term_is_complement(a, b) {
            // x | !x == ones
            let w = self.term_bv_len(a);
            let t = self.bv_const_ones(w);
            proof {
                let m1 = *self;
                assert(Seq::new(w as nat, |i: int| true) =~= Seq::new(
                    old(self).sort_of(a).spec_width(),
                    |i: int| true,
                ));
                assert forall|aa: spec_fn(u32) -> Seq<bool>|
                    m1.assignment_ok(aa) implies #[trigger] m1.eval(t, aa) == bv_or(
                    m1.eval(a, aa),
                    m1.eval(b, aa),
                ) by {
                    lemma_assignment_frame(m0, m1, aa);
                    lemma_eval_complement(m1, a, b, aa);
                    lemma_eval_len(m1, b, aa);
                    assert(m1.eval(t, aa) =~= bv_or(m1.eval(a, aa), m1.eval(b, aa)));
                }
            }
            return Some(t);
        }
        proof {
            assert(self.node_wf(a.id as int));
            assert(self.node_wf(b.id as int));
        }
        match (self.node_op_of(a), self.node_op_of(b)) {
            (Some(Op::Or), _) => {
                let o0 = self.node_operand(a, 0);
                let o1 = self.node_operand(a, 1);
                proof {
                    lemma_binary_node_facts(*self, a, Op::Or, o0, o1);
                }
                if b == o0 || b == o1 {
                    // (p | q) | p == p | q
                    proof {
                        assert forall|aa: spec_fn(u32) -> Seq<bool>|
                            self.assignment_ok(aa) implies #[trigger] self.eval(a, aa)
                            == bv_or(self.eval(a, aa), self.eval(b, aa)) by {
                            lemma_eval_op_node(*self, a, Op::Or, seq![o0, o1], aa);
                            assert(self.eval_args(seq![o0, o1], aa) =~= seq![
                                self.eval(o0, aa),
                                self.eval(o1, aa),
                            ]);
                            lemma_eval_len(*self, o0, aa);
                            lemma_eval_len(*self, o1, aa);
                            assert(self.eval(a, aa) =~= bv_or(
                                self.eval(a, aa),
                                self.eval(b, aa),
                            ));
                        }
                    }
                    return Some(a);
                }
                None
            },
            (Some(Op::Not), Some(Op::Not)) => {
                // !p | !q == !(p & q)
                let na = self.node_operand(a, 0);
                let nb = self.node_operand(b, 0);
                proof {
                    lemma_unary_node_facts(*self, a, Op::Not, na);
                    lemma_unary_node_facts(*self, b, Op::Not, nb);
                }
                let o = self.new_op_term_rec(fuel, Op::And, &vec![na, nb]);
                let ghost m1 = *self;
                let t = self.new_op_term_rec(fuel, Op::Not, &vec![o]);
                proof {
                    let m2 = *self;
                    lemma_extends_novar_trans(m0, m1, m2);
                    assert forall|aa: spec_fn(u32) -> Seq<bool>|
                        m2.assignment_ok(aa) implies #[trigger] m2.eval(t, aa) == bv_or(
                        m2.eval(a, aa),
                        m2.eval(b, aa),
                    ) by {
                        lemma_assignment_frame(m1, m2, aa);
                        lemma_assignment_frame(m0, m1, aa);
                        lemma_eval_frame(m1, m2, o, aa);
                        lemma_eval_frame(m0, m1, na, aa);
                        lemma_eval_frame(m0, m1, nb, aa);
                        lemma_eval_frame(m0, m2, na, aa);
                        lemma_eval_frame(m0, m2, nb, aa);
                        assert(m2.eval_args(seq![o], aa) =~= seq![m1.eval(o, aa)]);
                        assert(m1.eval_args(seq![na, nb], aa) =~= seq![
                            m0.eval(na, aa),
                            m0.eval(nb, aa),
                        ]);
                        lemma_eval_op_node(m2, a, Op::Not, seq![na], aa);
                        lemma_eval_op_node(m2, b, Op::Not, seq![nb], aa);
                        assert(m2.eval_args(seq![na], aa) =~= seq![m2.eval(na, aa)]);
                        assert(m2.eval_args(seq![nb], aa) =~= seq![m2.eval(nb, aa)]);
                        lemma_eval_len(m2, na, aa);
                        lemma_eval_len(m2, nb, aa);
                        assert(bv_not(bv_and(m0.eval(na, aa), m0.eval(nb, aa))) =~= bv_or(
                            m2.eval(a, aa),
                            m2.eval(b, aa),
                        ));
                    }
                }
                Some(t)
            },
            (Some(Op::Ite), _) => {
                let c = self.node_operand(a, 0);
                let th = self.node_operand(a, 1);
                let el = self.node_operand(a, 2);
                proof {
                    lemma_ite_node_facts(*self, a, c, th, el);
                }
                if b == c || self.term_is_complement(b, c) {
                    // c | ite(c, p, q) == c | q; !c | ite(c, p, q) == !c | p
                    let branch = if b == c {
                        el
                    } else {
                        th
                    };
                    let t = self.new_op_term_rec(fuel, Op::Or, &vec![b, branch]);
                    proof {
                        let m1 = *self;
                        assert forall|aa: spec_fn(u32) -> Seq<bool>|
                            m1.assignment_ok(aa) implies #[trigger] m1.eval(t, aa) == bv_or(
                            m1.eval(a, aa),
                            m1.eval(b, aa),
                        ) by {
                            lemma_assignment_frame(m0, m1, aa);
                            assert(m1.eval_args(seq![b, branch], aa) =~= seq![
                                m1.eval(b, aa),
                                m1.eval(branch, aa),
                            ]);
                            lemma_eval_op_node(m1, a, Op::Ite, seq![c, th, el], aa);
                            assert(m1.eval_args(seq![c, th, el], aa) =~= seq![
                                m1.eval(c, aa),
                                m1.eval(th, aa),
                                m1.eval(el, aa),
                            ]);
                            lemma_eval_len(m1, c, aa);
                            lemma_eval_len(m1, th, aa);
                            lemma_eval_len(m1, el, aa);
                            lemma_eval_len(m1, b, aa);
                            lemma_eval_len(m1, a, aa);
                            if b != c {
                                lemma_eval_complement(m1, b, c, aa);
                            }
                            assert(bv_or(m1.eval(b, aa), m1.eval(branch, aa)) =~= bv_or(
                                m1.eval(a, aa),
                                m1.eval(b, aa),
                            ));
                        }
                    }
                    return Some(t);
                }
                None
            },
            (Some(Op::And), Some(Op::And)) => {
                // (p & q) | (p & s) == p & (q | s)
                let o0 = self.node_operand(a, 0);
                let o1 = self.node_operand(a, 1);
                let p0 = self.node_operand(b, 0);
                let p1 = self.node_operand(b, 1);
                proof {
                    lemma_binary_node_facts(*self, a, Op::And, o0, o1);
                    lemma_binary_node_facts(*self, b, Op::And, p0, p1);
                }
                if o0 == p0 || o0 == p1 {
                    let other = if o0 == p0 {
                        p1
                    } else {
                        p0
                    };
                    let i = self.new_op_term_rec(fuel, Op::Or, &vec![o1, other]);
                    let ghost m1 = *self;
                    let t = self.new_op_term_rec(fuel, Op::And, &vec![o0, i]);
                    proof {
                        let m2 = *self;
                        lemma_extends_novar_trans(m0, m1, m2);
                        assert forall|aa: spec_fn(u32) -> Seq<bool>|
                            m2.assignment_ok(aa) implies #[trigger] m2.eval(t, aa) == bv_or(
                            m2.eval(a, aa),
                            m2.eval(b, aa),
                        ) by {
                            lemma_assignment_frame(m1, m2, aa);
                            lemma_assignment_frame(m0, m1, aa);
                            lemma_eval_frame(m1, m2, i, aa);
                            lemma_eval_frame(m0, m1, o1, aa);
                            lemma_eval_frame(m0, m1, other, aa);
                            lemma_eval_frame(m0, m2, o0, aa);
                            lemma_eval_frame(m0, m2, o1, aa);
                            lemma_eval_frame(m0, m2, other, aa);
                            lemma_eval_frame(m0, m1, o0, aa);
                            assert(m2.eval_args(seq![o0, i], aa) =~= seq![
                                m2.eval(o0, aa),
                                m1.eval(i, aa),
                            ]);
                            assert(m1.eval_args(seq![o1, other], aa) =~= seq![
                                m0.eval(o1, aa),
                                m0.eval(other, aa),
                            ]);
                            lemma_eval_op_node(m2, a, Op::And, seq![o0, o1], aa);
                            lemma_eval_op_node(m2, b, Op::And, seq![p0, p1], aa);
                            assert(m2.eval_args(seq![o0, o1], aa) =~= seq![
                                m2.eval(o0, aa),
                                m2.eval(o1, aa),
                            ]);
                            assert(m2.eval_args(seq![p0, p1], aa) =~= seq![
                                m2.eval(p0, aa),
                                m2.eval(p1, aa),
                            ]);
                            lemma_eval_len(m2, o0, aa);
                            lemma_eval_len(m2, o1, aa);
                            lemma_eval_len(m2, p0, aa);
                            lemma_eval_len(m2, p1, aa);
                            assert(bv_and(
                                m2.eval(o0, aa),
                                bv_or(m0.eval(o1, aa), m0.eval(other, aa)),
                            ) =~= bv_or(m2.eval(a, aa), m2.eval(b, aa)));
                        }
                    }
                    return Some(t);
                }
                None
            },
            _ => None,
        }
    }

    /// All rule families for `And`, tried in both operand orders:
    /// identity and annihilator constants, self-relations, complements,
    /// chained-`And` absorption, De Morgan fusion, and distribution over
    /// a shared `Or` factor.
    pub(crate) fn and_simplify(&mut self, fuel: u64, x: Term, y: Term) -> (r: Option<Term>)
        requires
            old(self).wf(),
            old(self).valid(x),
            old(self).valid(y),
            old(self).sort_of(x).is_bv(),
            old(self).sort_of(x).wf(),
            old(self).sort_of(x) == old(self).sort_of(y),
        ensures
            final(self).wf(),
            final(self).extends_novar(*old(self)),
            match r {
                Some(t) => final(self).valid(t) && final(self).sort_of(t) == old(self).sort_of(
                    x,
                ) && forall|a: spec_fn(u32) -> Seq<bool>|
                    final(self).assignment_ok(a) ==> #[trigger] final(self).eval(t, a) == bv_and(
                        final(self).eval(x, a),
                        final(self).eval(y, a),
                    ),
                None => true,
            },
            r is None ==> *final(self) == *old(self) && !old(self).is_const_fill_node(
                x.id as int,
                true,
            ) && !old(self).is_const_fill_node(x.id as int, false) && !old(
                self,
            ).is_const_fill_node(y.id as int, true) && !old(self).is_const_fill_node(
                y.id as int,
                false,
            ) && x != y && !old(self).is_complement(x, y),
            old(self).is_const_fill_node(x.id as int, true) ==> r == Some(y) && *final(self)
                == *old(self),
            !old(self).is_const_fill_node(x.id as int, true) && old(self).is_const_fill_node(
                x.id as int,
                false,
            ) ==> r == Some(x) && *final(self) == *old(self),
            x == y ==> r == Some(x) && *final(self) == *old(self),
            old(self).is_complement(x, y) && x != y && !old(self).is_const_fill_node(
                x.id as int,
                true,
            ) && !old(self).is_const_fill_node(x.id as int, false) ==> r is Some && final(self).is_bv_const_node(
                r->Some_0.id as int,
                Seq::new(old(self).sort_of(x).spec_width(), |i: int| false),
            ),
        decreases fuel, 2int, 1int,
    {
        let first = self.and_simp_one(fuel, x, y);
        if first.is_some() {
            return first;
        }
        let second = self.and_simp_one(fuel, y, x);
        proof {
            if let Some(t) = second {
                assert forall|a: spec_fn(u32) -> Seq<bool>|
                    self.assignment_ok(a) implies #[trigger] self.eval(t, a) == bv_and(
                    self.eval(x, a),
                    self.eval(y, a),
                ) by {
                    lemma_eval_len(*self, x, a);
                    lemma_eval_len(*self, y, a);
                    assert(bv_and(self.eval(y, a), self.eval(x, a)) =~= bv_and(
                        self.eval(x, a),
                        self.eval(y, a),
                    ));
                }
            }
        }
        second
    }

    fn and_simp_one(&mut self, fuel: u64, a: Term, b: Term) -> (r: Option<Term>)
        requires
            old(self).wf(),
            old(self).valid(a),
            old(self).valid(b),
            old(self).sort_of(a).is_bv(),
            old(self).sort_of(a).wf(),
            old(self).sort_of(a) == old(self).sort_of(b),
        ensures
            final(self).wf(),
            final(self).extends_novar(*old(self)),
            match r {
                Some(t) => final(self).valid(t) && final(self).sort_of(t) == old(self).sort_of(
                    a,
                ) && forall|aa: spec_fn(u32) -> Seq<bool>|
                    final(self).assignment_ok(aa) ==> #[trigger] final(self).eval(t, aa)
                        == bv_and(final(self).eval(a, aa), final(self).eval(b, aa)),
                None => true,
            },
            r is None ==> *final(self) == *old(self) && !old(self).is_const_fill_node(
                a.id as int,
                true,
            ) && !old(self).is_const_fill_node(a.id as int, false) && a != b && !old(
                self,
            ).is_complement(a, b),
            old(self).is_const_fill_node(a.id as int, true) ==> r == Some(b) && *final(self)
                == *old(self),
            !old(self).is_const_fill_node(a.id as int, true) && old(self).is_const_fill_node(
                a.id as int,
                false,
            ) ==> r == Some(a) && *final(self) == *old(self),
            a == b ==> r == Some(a) && *final(self) == *old(self),
            old(self).is_complement(a, b) && a != b && !old(self).is_const_fill_node(
                a.id as int,
                true,
            ) && !old(self).is_const_fill_node(a.id as int, false) ==> r is Some && final(self).is_bv_const_node(
                r->Some_0.id as int,
                Seq::new(old(self).sort_of(a).spec_width(), |i: int| false),
            ),
        decreases fuel, 2int, 0int,
    {
        let ghost m0 = *self;
        let w = self.term_bv_len(a);
        if self.is_bv_const(a) {
            if self.is_const_fill(a, true) {
                // ones & b == b
                proof {
                    assert forall|aa: spec_fn(u32) -> Seq<bool>|
                        self.assignment_ok(aa) implies #[trigger] self.eval(b, aa) == bv_and(
                        self.eval(a, aa),
                        self.eval(b, aa),
                    ) by {
                        lemma_eval_const_fill(*self, a, true, aa);
                        lemma_eval_len(*self, a, aa);
                        lemma_eval_len(*self, b, aa);
                        assert(self.eval(b, aa) =~= bv_and(self.eval(a, aa), self.eval(b, aa)));
                    }
                }
                return Some(b);
            }
            if self.is_const_fill(a, false) {
                // zero & b == zero
                proof {
                    assert forall|aa: spec_fn(u32) -> Seq<bool>|
                        self.assignment_ok(aa) implies #[trigger] self.eval(a, aa) == bv_and(
                        self.eval(a, aa),
                        self.eval(b, aa),
                    ) by {
                        lemma_eval_const_fill(*self, a, false, aa);
                        lemma_eval_len(*self, a, aa);
                        lemma_eval_len(*self, b, aa);
                        assert(self.eval(a, aa) =~= bv_and(self.eval(a, aa), self.eval(b, aa)));
                    }
                }
                return Some(a);
            }
        }
        if a == b {
            // x & x == x
            proof {
                assert forall|aa: spec_fn(u32) -> Seq<bool>|
                    self.assignment_ok(aa) implies #[trigger] self.eval(a, aa) == bv_and(
                    self.eval(a, aa),
                    self.eval(b, aa),
                ) by {
                    assert(self.eval(a, aa) =~= bv_and(self.eval(a, aa), self.eval(b, aa)));
                }
            }
            return Some(a);
        }
        if self.term_is_complement(a, b) {
            // x & !x == zero
            let t = self.bv_const_zero(w);
            proof {
                let m1 = *self;
                assert(Seq::new(w as nat, |i: int| false) =~= Seq::new(
                    old(self).sort_of(a).spec_width(),
                    |i: int| false,
                ));
                assert forall|aa: spec_fn(u32) -> Seq<bool>|
                    m1.assignment_ok(aa) implies #[trigger] m1.eval(t, aa) == bv_and(
                    m1.eval(a, aa),
                    m1.eval(b, aa),
                ) by {
                    lemma_assignment_frame(m0, m1, aa);
                    lemma_eval_complement(m1, a, b, aa);
                    lemma_eval_len(m1, b, aa);
                    assert(m1.eval(t, aa) =~= bv_and(m1.eval(a, aa), m1.eval(b, aa)));
                }
            }
            return Some(t);
        }
        proof {
            assert(self.node_wf(a.id as int));
            assert(self.node_wf(b.id as int));
        }
        match (self.node_op_of(a), self.node_op_of(b)) {
            (Some(Op::And), bop) => {
                let a0 = self.node_operand(a, 0);
                let a1 = self.node_operand(a, 1);
                proof {
                    lemma_binary_node_facts(*self, a, Op::And, a0, a1);
                }
                if matches!(bop, Some(Op::And)) {
                    let b0 = self.node_operand(b, 0);
                    let b1 = self.node_operand(b, 1);
                    proof {
                        lemma_binary_node_facts(*self, b, Op::And, b0, b1);
                    }
                    if a0 == b0 || a0 == b1 {
                        // (p & q) & (p & s) == (p & q) & s
                        let other = if a0 == b0 {
                            b1
                        } else {
                            b0
                        };
                        let t = self.new_op_term_rec(fuel, Op::And, &vec![a, other]);
                        proof {
                            let m1 = *self;
                            assert forall|aa: spec_fn(u32) -> Seq<bool>|
                                m1.assignment_ok(aa) implies #[trigger] m1.eval(t, aa)
                                == bv_and(m1.eval(a, aa), m1.eval(b, aa)) by {
                                lemma_assignment_frame(m0, m1, aa);
                                assert(m1.eval_args(seq![a, other], aa) =~= seq![
                                    m1.eval(a, aa),
                                    m1.eval(other, aa),
                                ]);
                                lemma_eval_op_node(m1, a, Op::And, seq![a0, a1], aa);
                                lemma_eval_op_node(m1, b, Op::And, seq![b0, b1], aa);
                                assert(m1.eval_args(seq![a0, a1], aa) =~= seq![
                                    m1.eval(a0, aa),
                                    m1.eval(a1, aa),
                                ]);
                                assert(m1.eval_args(seq![b0, b1], aa) =~= seq![
                                    m1.eval(b0, aa),
                                    m1.eval(b1, aa),
                                ]);
                                lemma_eval_len(m1, a0, aa);
                                lemma_eval_len(m1, a1, aa);
                                lemma_eval_len(m1, b0, aa);
                                lemma_eval_len(m1, b1, aa);
                                assert(bv_and(
                                    bv_and(m1.eval(a0, aa), m1.eval(a1, aa)),
                                    m1.eval(other, aa),
                                ) =~= bv_and(m1.eval(a, aa), m1.eval(b, aa)));
                            }
                        }
                        return Some(t);
                    }
                }
                if b == a0 || b == a1 {
                    // (p & q) & p == p & q
                    proof {
                        assert forall|aa: spec_fn(u32) -> Seq<bool>|
                            self.assignment_ok(aa) implies #[trigger] self.eval(a, aa)
                            == bv_and(self.eval(a, aa), self.eval(b, aa)) by {
                            lemma_eval_op_node(*self, a, Op::And, seq![a0, a1], aa);
                            assert(self.eval_args(seq![a0, a1], aa) =~= seq![
                                self.eval(a0, aa),
                                self.eval(a1, aa),
                            ]);
                            lemma_eval_len(*self, a0, aa);
                            lemma_eval_len(*self, a1, aa);
                            assert(self.eval(a, aa) =~= bv_and(
                                self.eval(a, aa),
                                self.eval(b, aa),
                            ));
                        }
                    }
                    return Some(a);
                }
                None
            },
            (Some(Op::Not), Some(Op::Not)) => {
                // !p & !q == !(p | q)
                let na = self.node_operand(a, 0);
                let nb = self.node_operand(b, 0);
                proof {
                    lemma_unary_node_facts(*self, a, Op::Not, na);
                    lemma_unary_node_facts(*self, b, Op::Not, nb);
                }
                let o = self.new_op_term_rec(fuel, Op::Or, &vec![na, nb]);
                let ghost m1 = *self;
                let t = self.new_op_term_rec(fuel, Op::Not, &vec![o]);
                proof {
                    let m2 = *self;
                    lemma_extends_novar_trans(m0, m1, m2);
                    assert forall|aa: spec_fn(u32) -> Seq<bool>|
                        m2.assignment_ok(aa) implies #[trigger] m2.eval(t, aa) == bv_and(
                        m2.eval(a, aa),
                        m2.eval(b, aa),
                    ) by {
                        lemma_assignment_frame(m1, m2, aa);
                        lemma_assignment_frame(m0, m1, aa);
                        lemma_eval_frame(m1, m2, o, aa);
                        lemma_eval_frame(m0, m1, na, aa);
                        lemma_eval_frame(m0, m1, nb, aa);
                        lemma_eval_frame(m0, m2, na, aa);
                        lemma_eval_frame(m0, m2, nb, aa);
                        assert(m2.eval_args(seq![o], aa) =~= seq![m1.eval(o, aa)]);
                        assert(m1.eval_args(seq![na, nb], aa) =~= seq![
                            m0.eval(na, aa),
                            m0.eval(nb, aa),
                        ]);
                        lemma_eval_op_node(m2, a, Op::Not, seq![na], aa);
                        lemma_eval_op_node(m2, b, Op::Not, seq![nb], aa);
                        assert(m2.eval_args(seq![na], aa) =~= seq![m2.eval(na, aa)]);
                        assert(m2.eval_args(seq![nb], aa) =~= seq![m2.eval(nb, aa)]);
                        lemma_eval_len(m2, na, aa);
                        lemma_eval_len(m2, nb, aa);
                        assert(bv_not(bv_or(m0.eval(na, aa), m0.eval(nb, aa))) =~= bv_and(
                            m2.eval(a, aa),
                            m2.eval(b, aa),
                        ));
                    }
                }
                Some(t)
            },
            (Some(Op::Or), Some(Op::Or)) => {
                // (p | q) & (p | s) == p | (q & s)
                let o0 = self.node_operand(a, 0);
                let o1 = self.node_operand(a, 1);
                let p0 = self.node_operand(b, 0);
                let p1 = self.node_operand(b, 1);
                proof {
                    lemma_binary_node_facts(*self, a, Op::Or, o0, o1);
                    lemma_binary_node_facts(*self, b, Op::Or, p0, p1);
                }
                if o0 == p0 || o0 == p1 {
                    let other = if o0 == p0 {
                        p1
                    } else {
                        p0
                    };
                    let i = self.new_op_term_rec(fuel, Op::And, &vec![o1, other]);
                    let ghost m1 = *self;
                    let t = self.new_op_term_rec(fuel, Op::Or, &vec![o0, i]);
                    proof {
                        let m2 = *self;
                        lemma_extends_novar_trans(m0, m1, m2);
                        assert forall|aa: spec_fn(u32) -> Seq<bool>|
                            m2.assignment_ok(aa) implies #[trigger] m2.eval(t, aa) == bv_and(
                            m2.eval(a, aa),
                            m2.eval(b, aa),
                        ) by {
                            lemma_assignment_frame(m1, m2, aa);
                            lemma_assignment_frame(m0, m1, aa);
                            lemma_eval_frame(m1, m2, i, aa);
                            lemma_eval_frame(m0, m1, o1, aa);
                            lemma_eval_frame(m0, m1, other, aa);
                            lemma_eval_frame(m0, m2, o0, aa);
                            lemma_eval_frame(m0, m2, o1, aa);
                            lemma_eval_frame(m0, m2, other, aa);
                            lemma_eval_frame(m0, m1, o0, aa);
                            assert(m2.eval_args(seq![o0, i], aa) =~= seq![
                                m2.eval(o0, aa),
                                m1.eval(i, aa),
                            ]);
                            assert(m1.eval_args(seq![o1, other], aa) =~= seq![
                                m0.eval(o1, aa),
                                m0.eval(other, aa),
                            ]);
                            lemma_eval_op_node(m2, a, Op::Or, seq![o0, o1], aa);
                            lemma_eval_op_node(m2, b, Op::Or, seq![p0, p1], aa);
                            assert(m2.eval_args(seq![o0, o1], aa) =~= seq![
                                m2.eval(o0, aa),
                                m2.eval(o1, aa),
                            ]);
                            assert(m2.eval_args(seq![p0, p1], aa) =~= seq![
                                m2.eval(p0, aa),
                                m2.eval(p1, aa),
                            ]);
                            lemma_eval_len(m2, o0, aa);
                            lemma_eval_len(m2, o1, aa);
                            lemma_eval_len(m2, p0, aa);
                            lemma_eval_len(m2, p1, aa);
                            assert(bv_or(
                                m2.eval(o0, aa),
                                bv_and(m0.eval(o1, aa), m0.eval(other, aa)),
                            ) =~= bv_and(m2.eval(a, aa), m2.eval(b, aa)));
                        }
                    }
                    return Some(t);
                }
                None
            },
            _ => None,
        }
    }

    /// `Eq` on booleans reduces through the `Xor` rules; `Eq` of a term
    /// with itself is true, with its complement false.
    pub(crate) fn eq_simplify(&mut self, fuel: u64, x: Term, y: Term) -> (r: Option<Term>)
        requires
            old(self).wf(),
            old(self).valid(x),
            old(self).valid(y),
            old(self).sort_of(x).wf(),
            old(self).sort_of(x) == old(self).sort_of(y),
        ensures
            final(self).wf(),
            final(self).extends_novar(*old(self)),
            match r {
                Some(t) => final(self).valid(t) && final(self).sort_of(t) == crate::sort::Sort::Bv(
                    1usize,
                ) && forall|a: spec_fn(u32) -> Seq<bool>|
                    final(self).assignment_ok(a) ==> #[trigger] final(self).eval(t, a) == bv_eq(
                        final(self).eval(x, a),
                        final(self).eval(y, a),
                    ),
                None => true,
            },
            r is None ==> *final(self) == *old(self) && x != y && !old(self).is_complement(x, y),
            x == y && old(self).sort_of(x) != crate::sort::Sort::Bv(1usize) ==> r is Some
                && final(self).is_bv_const_node(r->Some_0.id as int, seq![true]),
            old(self).is_complement(x, y) && x != y && old(self).sort_of(x)
                != crate::sort::Sort::Bv(1usize) ==> r is Some && final(self).is_bv_const_node(
                r->Some_0.id as int,
                seq![false],
            ),
        decreases fuel, 3int, 0int,
    {
        let ghost m0 = *self;
        if self.is_bool(x) {
            let s = self.xor_simplify(fuel, x, y);
            if let Some(s) = s {
                let ghost m1 = *self;
                proof {
                    assert(m1.sorts_of(seq![s]) =~= seq![m1.sort_of(s)]);
                }
                let t = self.new_op_term_rec(fuel, Op::Not, &vec![s]);
                proof {
                    let m2 = *self;
                    lemma_extends_novar_trans(m0, m1, m2);
                    assert forall|a: spec_fn(u32) -> Seq<bool>|
                        m2.assignment_ok(a) implies #[trigger] m2.eval(t, a) == bv_eq(
                        m2.eval(x, a),
                        m2.eval(y, a),
                    ) by {
                        lemma_assignment_frame(m1, m2, a);
                        lemma_assignment_frame(m0, m1, a);
                        lemma_eval_frame(m1, m2, s, a);
                        lemma_eval_frame(m1, m2, x, a);
                        lemma_eval_frame(m1, m2, y, a);
                        assert(m2.eval_args(seq![s], a) =~= seq![m1.eval(s, a)]);
                        lemma_eval_len(m1, x, a);
                        lemma_eval_len(m1, y, a);
                        assert(bv_not(bv_xor(m1.eval(x, a), m1.eval(y, a))) =~= bv_eq(
                            m1.eval(x, a),
                            m1.eval(y, a),
                        ));
                    }
                }
                return Some(t);
            }
        }
        if x == y {
            // eq(x, x) == true
            let t = self.bool_const(true);
            proof {
                let m1 = *self;
                assert forall|a: spec_fn(u32) -> Seq<bool>|
                    m1.assignment_ok(a) implies #[trigger] m1.eval(t, a) == bv_eq(
                    m1.eval(x, a),
                    m1.eval(y, a),
                ) by {
                    lemma_assignment_frame(m0, m1, a);
                    assert(m1.eval(t, a) =~= bv_eq(m1.eval(x, a), m1.eval(y, a)));
                }
            }
            return Some(t);
        }
        if self.term_is_complement(x, y) {
            // eq(x, !x) == false
            let t = self.bool_const(false);
            proof {
                let m1 = *self;
                assert forall|a: spec_fn(u32) -> Seq<bool>|
                    m1.assignment_ok(a) implies #[trigger] m1.eval(t, a) == bv_eq(
                    m1.eval(x, a),
                    m1.eval(y, a),
                ) by {
                    lemma_assignment_frame(m0, m1, a);
                    lemma_eval_complement(m1, x, y, a);
                    lemma_eval_len(m1, x, a);
                    lemma_eval_len(m1, y, a);
                    crate::sort::lemma_sort_width_pos(m1.sort_of(y));
                    assert(m1.eval(x, a)[0] == !m1.eval(y, a)[0]);
                    assert(!(m1.eval(x, a) =~= m1.eval(y, a)));
                    assert(m1.eval(t, a) =~= bv_eq(m1.eval(x, a), m1.eval(y, a)));
                }
            }
            return Some(t);
        }
        None
    }

    /// Comparisons against the all-zero or all-ones constant degrade to
    /// an equality test or to constant false.
    pub(crate) fn ult_simplify(&mut self, fuel: u64, x: Term, y: Term) -> (r: Option<Term>)
        requires
            old(self).wf(),
            old(self).valid(x),
            old(self).valid(y),
            old(self).sort_of(x).is_bv(),
            old(self).sort_of(x).wf(),
            old(self).sort_of(x) == old(self).sort_of(y),
        ensures
            final(self).wf(),
            final(self).extends_novar(*old(self)),
            match r {
                Some(t) => final(self).valid(t) && final(self).sort_of(t) == crate::sort::Sort::Bv(
                    1usize,
                ) && forall|a: spec_fn(u32) -> Seq<bool>|
                    final(self).assignment_ok(a) ==> #[trigger] final(self).eval(t, a) == bv_ult(
                        final(self).eval(x, a),
                        final(self).eval(y, a),
                    ),
                None => true,
            },
            r is None ==> *final(self) == *old(self) && !old(self).is_const_fill_node(
                x.id as int,
                true,
            ) && !old(self).is_const_fill_node(x.id as int, false) && !old(
                self,
            ).is_const_fill_node(y.id as int, true) && !old(self).is_const_fill_node(
                y.id as int,
                false,
            ),
            old(self).is_const_fill_node(x.id as int, true) || old(self).is_const_fill_node(
                y.id as int,
                false,
            ) ==> r is Some && final(self).is_bv_const_node(r->Some_0.id as int, seq![false]),
            !(old(self).is_const_fill_node(x.id as int, true) || old(self).is_const_fill_node(
                y.id as int,
                false,
            )) && (old(self).is_const_fill_node(x.id as int, false) || old(
                self,
            ).is_const_fill_node(y.id as int, true)) ==> r is Some,
        decreases fuel, 3int, 0int,
    {
        let ghost m0 = *self;
        let x_zero = self.is_bv_const(x) && self.is_const_fill(x, false);
        let x_ones = self.is_bv_const(x) && self.is_const_fill(x, true);
        let y_zero = self.is_bv_const(y) && self.is_const_fill(y, false);
        let y_ones = self.is_bv_const(y) && self.is_const_fill(y, true);
        if x_ones || y_zero {
            // ones < y and x < zero are always false
            let t = self.bool_const(false);
            proof {
                let m1 = *self;
                assert forall|a: spec_fn(u32) -> Seq<bool>|
                    m1.assignment_ok(a) implies #[trigger] m1.eval(t, a) == bv_ult(
                    m1.eval(x, a),
                    m1.eval(y, a),
                ) by {
                    lemma_assignment_frame(m0, m1, a);
                    lemma_eval_len(m1, x, a);
                    lemma_eval_len(m1, y, a);
                    if x_ones {
                        lemma_eval_const_fill(m1, x, true, a);
                        lemma_to_nat_ones(m1.eval(x, a));
                        lemma_to_nat_bound(m1.eval(y, a));
                    } else {
                        lemma_eval_const_fill(m1, y, false, a);
                        lemma_to_nat_zero(m1.eval(y, a));
                    }
                    assert(m1.eval(t, a) =~= bv_ult(m1.eval(x, a), m1.eval(y, a)));
                }
            }
            return Some(t);
        }
        if x_zero || y_ones {
            // zero < y iff y != zero; x < ones iff x != ones
            let e = self.new_op_term_rec(fuel, Op::Eq, &vec![x, y]);
            let ghost m1 = *self;
            proof {
                assert(m1.sorts_of(seq![e]) =~= seq![m1.sort_of(e)]);
            }
            let t = self.new_op_term_rec(fuel, Op::Not, &vec![e]);
            proof {
                let m2 = *self;
                lemma_extends_novar_trans(m0, m1, m2);
                assert forall|a: spec_fn(u32) -> Seq<bool>|
                    m2.assignment_ok(a) implies #[trigger] m2.eval(t, a) == bv_ult(
                    m2.eval(x, a),
                    m2.eval(y, a),
                ) by {
                    lemma_assignment_frame(m1, m2, a);
                    lemma_assignment_frame(m0, m1, a);
                    lemma_eval_frame(m1, m2, e, a);
                    lemma_eval_frame(m0, m1, x, a);
                    lemma_eval_frame(m0, m1, y, a);
                    lemma_eval_frame(m0, m2, x, a);
                    lemma_eval_frame(m0, m2, y, a);
                    assert(m2.eval_args(seq![e], a) =~= seq![m1.eval(e, a)]);
                    assert(m1.eval_args(seq![x, y], a) =~= seq![
                        m0.eval(x, a),
                        m0.eval(y, a),
                    ]);
                    lemma_eval_len(m2, x, a);
                    lemma_eval_len(m2, y, a);
                    let ex = m2.eval(x, a);
                    let ey = m2.eval(y, a);
                    lemma_to_nat_bound(ex);
                    lemma_to_nat_bound(ey);
                    if x_zero {
                        lemma_eval_const_fill(m2, x, false, a);
                        lemma_to_nat_zero(ex);
                        lemma_to_nat_zero(ey);
                        if to_nat(ey) == 0 {
                            assert(ex =~= ey);
                        }
                        if ex =~= ey {
                            assert(to_nat(ey) == 0);
                        }
                    } else {
                        lemma_eval_const_fill(m2, y, true, a);
                        lemma_to_nat_ones(ex);
                        lemma_to_nat_ones(ey);
                        if to_nat(ex) == vstd::arithmetic::power2::pow2(ex.len()) - 1 {
                            assert(ex =~= ey);
                        }
                        if ex =~= ey {
                            assert(to_nat(ex) == to_nat(ey));
                        }
                    }
                    assert(bv_not(bv_eq(m0.eval(x, a), m0.eval(y, a))) =~= bv_ult(ex, ey));
                }
            }
            return Some(t);
        }
        None
    }

    /// A constant condition selects a branch; identical branches
    /// collapse; a negated condition swaps the branches; a boolean `Ite`
    /// with a constant branch degrades to `And`/`Or`.
    pub(crate) fn ite_simplify(&mut self, fuel: u64, c: Term, th: Term, el: Term) -> (r: Option<
        Term,
    >)
        requires
            old(self).wf(),
            old(self).valid(c),
            old(self).valid(th),
            old(self).valid(el),
            old(self).sort_of(c) == crate::sort::Sort::Bv(1usize),
            old(self).sort_of(th).wf(),
            old(self).sort_of(th) == old(self).sort_of(el),
        ensures
            final(self).wf(),
            final(self).extends_novar(*old(self)),
            match r {
                Some(t) => final(self).valid(t) && final(self).sort_of(t) == old(self).sort_of(
                    th,
                ) && forall|a: spec_fn(u32) -> Seq<bool>|
                    final(self).assignment_ok(a) ==> #[trigger] final(self).eval(t, a) == bv_ite(
                        final(self).eval(c, a),
                        final(self).eval(th, a),
                        final(self).eval(el, a),
                    ),
                None => true,
            },
            r is None ==> *final(self) == *old(self) && !(old(self).node(c).ty is Const) && th
                != el && !(old(self).node(c).ty is Op && old(self).node(c).ty->Op_0.op
                == Op::Not) && (old(self).sort_of(th) == crate::sort::Sort::Bv(1usize) ==> !old(
                self,
            ).is_const_fill_node(th.id as int, true) && !old(self).is_const_fill_node(
                th.id as int,
                false,
            ) && !old(self).is_const_fill_node(el.id as int, true) && !old(
                self,
            ).is_const_fill_node(el.id as int, false)),
            old(self).is_bv_const_node(c.id as int, seq![true]) ==> r == Some(th) && *final(self)
                == *old(self),
            old(self).is_bv_const_node(c.id as int, seq![false]) ==> r == Some(el) && *final(self) == *old(self),
            th == el ==> r == Some(th) && *final(self) == *old(self),
        decreases fuel, 3int, 0int,
    {
        let ghost m0 = *self;
        if self.is_bv_const(c) {
            // a constant condition selects its branch outright
            let pick_then = self.is_const_fill(c, true);
            let t = if pick_then {
                th
            } else {
                el
            };
            proof {
                assert(self.node_wf(c.id as int));
                if self.is_bv_const_node(c.id as int, seq![false]) {
                    match self.node(c).ty {
                        TermType::Const(ConstTerm::BV(b)) => {
                            assert(b@ == seq![false]);
                            assert(!b@[0]);
                            assert(!self.is_const_fill_node(c.id as int, true));
                        },
                        _ => {},
                    }
                }
                assert forall|a: spec_fn(u32) -> Seq<bool>|
                    self.assignment_ok(a) implies #[trigger] self.eval(t, a) == bv_ite(
                    self.eval(c, a),
                    self.eval(th, a),
                    self.eval(el, a),
                ) by {
                    lemma_eval_len(*self, c, a);
                    if pick_then {
                        lemma_eval_const_fill(*self, c, true, a);
                    } else {
                        match self.node(c).ty {
                            TermType::Const(ConstTerm::BV(b)) => {
                                assert(self.eval(c, a) == b@);
                                assert(!b@[0]);
                            },
                            _ => {
                                assert(false);
                            },
                        }
                    }
                }
            }
            return Some(t);
        }
        if th == el {
            // both branches agree
            return Some(th);
        }
        let c_op = self.node_op_of(c);
        if matches!(c_op, Some(Op::Not)) {
            // ite(!c, p, q) == ite(c, q, p)
            proof {
                assert(self.node_wf(c.id as int));
            }
            let c0 = self.node_operand(c, 0);
            proof {
                lemma_unary_node_facts(*self, c, Op::Not, c0);
            }
            let t = self.new_op_term_rec(fuel, Op::Ite, &vec![c0, el, th]);
            proof {
                let m1 = *self;
                assert forall|a: spec_fn(u32) -> Seq<bool>|
                    m1.assignment_ok(a) implies #[trigger] m1.eval(t, a) == bv_ite(
                    m1.eval(c, a),
                    m1.eval(th, a),
                    m1.eval(el, a),
                ) by {
                    lemma_assignment_frame(m0, m1, a);
                    assert(m1.eval_args(seq![c0, el, th], a) =~= seq![
                        m1.eval(c0, a),
                        m1.eval(el, a),
                        m1.eval(th, a),
                    ]);
                    lemma_eval_op_node(m1, c, Op::Not, seq![c0], a);
                    assert(m1.eval_args(seq![c0], a) =~= seq![m1.eval(c0, a)]);
                    lemma_eval_len(m1, c0, a);
                }
            }
            return Some(t);
        }
        if self.is_bool(th) {
            let th_zero = self.is_bv_const(th) && self.is_const_fill(th, false);
            let th_ones = self.is_bv_const(th) && self.is_const_fill(th, true);
            let el_zero = self.is_bv_const(el) && self.is_const_fill(el, false);
            let el_ones = self.is_bv_const(el) && self.is_const_fill(el, true);
            if el_zero {
                // ite(c, p, false) == c & p
                let t = self.new_op_term_rec(fuel, Op::And, &vec![c, th]);
                proof {
                    let m1 = *self;
                    assert forall|a: spec_fn(u32) -> Seq<bool>|
                        m1.assignment_ok(a) implies #[trigger] m1.eval(t, a) == bv_ite(
                        m1.eval(c, a),
                        m1.eval(th, a),
                        m1.eval(el, a),
                    ) by {
                        lemma_assignment_frame(m0, m1, a);
                        assert(m1.eval_args(seq![c, th], a) =~= seq![
                            m1.eval(c, a),
                            m1.eval(th, a),
                        ]);
                        lemma_eval_const_fill(m1, el, false, a);
                        lemma_eval_len(m1, c, a);
                        lemma_eval_len(m1, th, a);
                        lemma_eval_len(m1, el, a);
                        assert(bv_and(m1.eval(c, a), m1.eval(th, a)) =~= bv_ite(
                            m1.eval(c, a),
                            m1.eval(th, a),
                            m1.eval(el, a),
                        ));
                    }
                }
                return Some(t);
            }
            if el_ones {
                // ite(c, p, true) == !c | p
                let nc = self.new_op_term_rec(fuel, Op::Not, &vec![c]);
                let ghost m1 = *self;
                let t = self.new_op_term_rec(fuel, Op::Or, &vec![nc, th]);
                proof {
                    let m2 = *self;
                    lemma_extends_novar_trans(m0, m1, m2);
                    assert forall|a: spec_fn(u32) -> Seq<bool>|
                        m2.assignment_ok(a) implies #[trigger] m2.eval(t, a) == bv_ite(
                        m2.eval(c, a),
                        m2.eval(th, a),
                        m2.eval(el, a),
                    ) by {
                        lemma_assignment_frame(m1, m2, a);
                        lemma_assignment_frame(m0, m1, a);
                        lemma_eval_frame(m1, m2, nc, a);
                        lemma_eval_frame(m0, m1, c, a);
                        lemma_eval_frame(m0, m2, c, a);
                        assert(m2.eval_args(seq![nc, th], a) =~= seq![
                            m1.eval(nc, a),
                            m2.eval(th, a),
                        ]);
                        assert(m1.eval_args(seq![c], a) =~= seq![m0.eval(c, a)]);
                        lemma_eval_const_fill(m2, el, true, a);
                        lemma_eval_len(m2, c, a);
                        lemma_eval_len(m2, th, a);
                        lemma_eval_len(m2, el, a);
                        assert(bv_or(bv_not(m0.eval(c, a)), m2.eval(th, a)) =~= bv_ite(
                            m2.eval(c, a),
                            m2.eval(th, a),
                            m2.eval(el, a),
                        ));
                    }
                }
                return Some(t);
            }
            if th_zero {
                // ite(c, false, q) == !c & q
                let nc = self.new_op_term_rec(fuel, Op::Not, &vec![c]);
                let ghost m1 = *self;
                let t = self.new_op_term_rec(fuel, Op::And, &vec![nc, el]);
                proof {
                    let m2 = *self;
                    lemma_extends_novar_trans(m0, m1, m2);
                    assert forall|a: spec_fn(u32) -> Seq<bool>|
                        m2.assignment_ok(a) implies #[trigger] m2.eval(t, a) == bv_ite(
                        m2.eval(c, a),
                        m2.eval(th, a),
                        m2.eval(el, a),
                    ) by {
                        lemma_assignment_frame(m1, m2, a);
                        lemma_assignment_frame(m0, m1, a);
                        lemma_eval_frame(m1, m2, nc, a);
                        lemma_eval_frame(m0, m1, c, a);
                        lemma_eval_frame(m0, m2, c, a);
                        assert(m2.eval_args(seq![nc, el], a) =~= seq![
                            m1.eval(nc, a),
                            m2.eval(el, a),
                        ]);
                        assert(m1.eval_args(seq![c], a) =~= seq![m0.eval(c, a)]);
                        lemma_eval_const_fill(m2, th, false, a);
                        lemma_eval_len(m2, c, a);
                        lemma_eval_len(m2, th, a);
                        lemma_eval_len(m2, el, a);
                        assert(bv_and(bv_not(m0.eval(c, a)), m2.eval(el, a)) =~= bv_ite(
                            m2.eval(c, a),
                            m2.eval(th, a),
                            m2.eval(el, a),
                        ));
                    }
                }
                return Some(t);
            }
            if th_ones {
                // ite(c, true, q) == c | q
                let t = self.new_op_term_rec(fuel, Op::Or, &vec![c, el]);
                proof {
                    let m1 = *self;
                    assert forall|a: spec_fn(u32) -> Seq<bool>|
                        m1.assignment_ok(a) implies #[trigger] m1.eval(t, a) == bv_ite(
                        m1.eval(c, a),
                        m1.eval(th, a),
                        m1.eval(el, a),
                    ) by {
                        lemma_assignment_frame(m0, m1, a);
                        assert(m1.eval_args(seq![c, el], a) =~= seq![
                            m1.eval(c, a),
                            m1.eval(el, a),
                        ]);
                        lemma_eval_const_fill(m1, th, true, a);
                        lemma_eval_len(m1, c, a);
                        lemma_eval_len(m1, th, a);
                        lemma_eval_len(m1, el, a);
                        assert(bv_or(m1.eval(c, a), m1.eval(el, a)) =~= bv_ite(
                            m1.eval(c, a),
                            m1.eval(th, a),
                            m1.eval(el, a),
                        ));
                    }
                }
                return Some(t);
            }
        }
        proof {
            assert(self.node_wf(c.id as int));
            match self.node(c).ty {
                TermType::Const(cc) => {
                    assert(const_sort_ok(cc, crate::sort::Sort::Bv(1usize)));
                    assert(cc is BV);
                    assert(false);
                },
                _ => {},
            }
        }
        None
    }

    /// `Concat` of two constants folds into one larger constant.
    fn concat_simplify(&mut self, x: Term, y: Term) -> (r: Option<Term>)
        requires
            old(self).wf(),
            old(self).valid(x),
            old(self).valid(y),
            old(self).sort_of(x).is_bv(),
            old(self).sort_of(y).is_bv(),
            old(self).sort_of(x).wf(),
            old(self).sort_of(y).wf(),
            old(self).sort_of(x).spec_width() + old(self).sort_of(y).spec_width()
                <= 0x1000_0000,
        ensures
            final(self).wf(),
            final(self).extends_novar(*old(self)),
            match r {
                Some(t) => final(self).valid(t) && final(self).sort_of(t) == concat_sort_of(
                    old(self).sort_of(x),
                    old(self).sort_of(y),
                ) && forall|a: spec_fn(u32) -> Seq<bool>|
                    final(self).assignment_ok(a) ==> #[trigger] final(self).eval(t, a)
                        == bv_concat(final(self).eval(x, a), final(self).eval(y, a)),
                None => true,
            },
            (old(self).node(x).ty matches TermType::Const(ConstTerm::BV(_))) && (old(
                self,
            ).node(y).ty matches TermType::Const(ConstTerm::BV(_))) ==> r is Some && final(self).is_bv_const_node(
                r->Some_0.id as int,
                bv_concat(const_node_bits(*old(self), x), const_node_bits(*old(self), y)),
            ),
            r is None ==> *final(self) == *old(self) && !((old(self).node(x).ty
                matches TermType::Const(ConstTerm::BV(_))) && (old(self).node(y).ty
                matches TermType::Const(ConstTerm::BV(_)))),
    {
        if self.is_bv_const(x) && self.is_bv_const(y) {
            proof {
                assert(self.node_wf(x.id as int));
                assert(self.node_wf(y.id as int));
                match (self.node(x).ty, self.node(y).ty) {
                    (TermType::Const(ConstTerm::BV(bx)), TermType::Const(ConstTerm::BV(by))) => {
                        assert(const_node_bits(*self, x) == bx@);
                        assert(const_node_bits(*self, y) == by@);
                    },
                    _ => {
                        assert(false);
                    },
                }
            }
            let joined = self.concat_const_bits(x, y);
            let ghost m0 = *self;
            let t = self.intern_bv_const(joined);
            proof {
                let m1 = *self;
                assert forall|a: spec_fn(u32) -> Seq<bool>|
                    m1.assignment_ok(a) implies #[trigger] m1.eval(t, a) == bv_concat(
                    m1.eval(x, a),
                    m1.eval(y, a),
                ) by {
                    lemma_eval_frame(m0, m1, x, a);
                    lemma_eval_frame(m0, m1, y, a);
                    match (m0.node(x).ty, m0.node(y).ty) {
                        (
                            TermType::Const(ConstTerm::BV(bx)),
                            TermType::Const(ConstTerm::BV(by)),
                        ) => {
                            assert(m0.eval(x, a) == bx@);
                            assert(m0.eval(y, a) == by@);
                        },
                        _ => {
                            assert(false);
                        },
                    }
                }
            }
            Some(t)
        } else {
            None
        }
    }

    /// Reads the joined bits of two bit-vector constant nodes: the low
    /// part `y` first, then the high part `x`.
    #[verifier::loop_isolation(false)]
    fn concat_const_bits(&self, x: Term, y: Term) -> (v: Vec<bool>)
        requires
            self.valid(x),
            self.valid(y),
            self.node(x).ty matches TermType::Const(ConstTerm::BV(_)),
            self.node(y).ty matches TermType::Const(ConstTerm::BV(_)),
        ensures
            v@ == bv_concat(const_node_bits(*self, x), const_node_bits(*self, y)),
            v@.len() == const_node_bits(*self, x).len() + const_node_bits(*self, y).len(),
    {
        match (&self.nodes[x.id].ty, &self.nodes[y.id].ty) {
            (TermType::Const(ConstTerm::BV(bx)), TermType::Const(ConstTerm::BV(by))) => {
                let mut v: Vec<bool> = Vec::new();
                let ny = by.c.len();
                for k in 0..ny
                    invariant
                        ny == by.c@.len(),
                        v@ =~= by.c@.take(k as int),
                {
                    v.push(by.c[k]);
                }
                let nx = bx.c.len();
                for k in 0..nx
                    invariant
                        nx == bx.c@.len(),
                        v@ =~= by.c@ + bx.c@.take(k as int),
                {
                    v.push(bx.c[k]);
                }
                proof {
                    assert(v@ =~= by.c@ + bx.c@);
                }
                v
            },
            _ => unreached(),
        }
    }
}

/// The concatenation sort of two bit-vector sorts.
pub open spec fn concat_sort_of(a: crate::sort::Sort, b: crate::sort::Sort) -> crate::sort::Sort {
    crate::sort::Sort::Bv((a.spec_width() + b.spec_width()) as usize)
}

/// The bits stored in a bit-vector constant node.
pub open spec fn const_node_bits(m: TermManager, t: Term) -> Seq<bool> {
    match m.node(t).ty {
        TermType::Const(ConstTerm::BV(b)) => b@,
        _ => Seq::empty(),
    }
}

} // verus!
