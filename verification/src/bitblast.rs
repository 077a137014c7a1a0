//! The bitblasting pass: lowers a term of any sort into one boolean
//! (one-bit) term per bit, LSB first. The pass is memoized by term
//! identity; the caller supplies and reuses the memo across a batch so
//! that shared DAG structure is lowered once.

use crate::op::Op;
use crate::semantics::{fold_apply, to_nat};
use crate::sort::Sort;
use crate::term::{
    const_bits, lemma_assignment_frame, lemma_eval_frame, lemma_eval_len,
    lemma_extends_novar_trans, lemma_extends_trans, ConstTerm, Term, TermManager, TermType,
};
use vstd::arithmetic::power2::pow2;
use vstd::prelude::*;

verus! {

/// A three-element left fold, written out.
proof fn lemma_fold_three(op: Op, vs: Seq<Seq<bool>>)
    requires
        vs.len() == 3,
    ensures
        crate::semantics::fold_apply(op, vs) == crate::semantics::apply_core(
            op,
            seq![
                crate::semantics::apply_core(op, seq![vs[0], vs[1]]),
                vs[2],
            ],
        ),
{
    let two = vs.drop_last();
    assert(two.len() == 2);
    let one = two.drop_last();
    assert(one.len() == 1);
    assert(crate::semantics::fold_apply(op, one) == one[0]);
    assert(crate::semantics::fold_apply(op, two) == crate::semantics::apply_core(
        op,
        seq![crate::semantics::fold_apply(op, one), two.last()],
    ));
    assert(seq![crate::semantics::fold_apply(op, one), two.last()] =~= seq![vs[0], vs[1]]);
    assert(crate::semantics::fold_apply(op, vs) == crate::semantics::apply_core(
        op,
        seq![crate::semantics::fold_apply(op, two), vs.last()],
    ));
    assert(seq![crate::semantics::fold_apply(op, two), vs.last()] =~= seq![
        crate::semantics::apply_core(op, seq![vs[0], vs[1]]),
        vs[2],
    ]);
}

/// The one-bit meanings of a sequence of boolean terms, as one pattern.
pub open spec fn bits_val(
    m: TermManager,
    ts: Seq<Term>,
    a: spec_fn(u32) -> Seq<bool>,
) -> Seq<bool> {
    ts.map_values(|t: Term| m.eval(t, a)[0])
}

/// The pattern of meanings is stable under arena extension.
pub proof fn lemma_bits_val_frame(
    m0: TermManager,
    m1: TermManager,
    ts: Seq<Term>,
    a: spec_fn(u32) -> Seq<bool>,
)
    requires
        m0.wf(),
        m1.wf(),
        m1.extends(m0),
        forall|i: int| 0 <= i < ts.len() ==> m0.valid(#[trigger] ts[i]),
    ensures
        bits_val(m1, ts, a) == bits_val(m0, ts, a),
{
    assert forall|i: int| 0 <= i < ts.len() implies #[trigger] bits_val(m1, ts, a)[i]
        == bits_val(m0, ts, a)[i] by {
        lemma_eval_frame(m0, m1, ts[i], a);
    }
    assert(bits_val(m1, ts, a) =~= bits_val(m0, ts, a));
}

/// The first `j` bits of one multiplier row: the second operand's bit
/// `i` gates the first operand's bits, shifted up by `i` positions.
pub open spec fn row_addend(
    m: TermManager,
    x: Seq<Term>,
    yi: Term,
    i: int,
    j: nat,
    a: spec_fn(u32) -> Seq<bool>,
) -> Seq<bool> {
    Seq::new(j, |l: int| i <= l && m.eval(yi, a)[0] && m.eval(x[l - i], a)[0])
}

/// All terms of a sequence are valid boolean (one-bit) terms.
pub open spec fn all_bool(m: TermManager, ts: Seq<Term>) -> bool {
    forall|i: int|
        0 <= i < ts.len() ==> m.valid(#[trigger] ts[i]) && m.sort_of(ts[i]) == Sort::Bv(1usize)
}

/// The memo table of the bitblasting pass, keyed by term identity.
pub struct BitblastMemo {
    pub map: Vec<Option<Vec<Term>>>,
}

/// The cached bit vector for node `i`, as a sequence, if any.
pub open spec fn memo_entry(memo: BitblastMemo, i: int) -> Option<Seq<Term>> {
    if 0 <= i < memo.map@.len() {
        match memo.map@[i] {
            Some(v) => Some(v@),
            None => None,
        }
    } else {
        None
    }
}

impl BitblastMemo {
    /// Every cached entry belongs to a node, holds one valid boolean
    /// term per bit of that node's sort, and for a constant node the
    /// cached bits mean exactly the constant's bits.
    pub open spec fn wf(self, m: TermManager) -> bool {
        forall|i: int|
            0 <= i < self.map@.len() ==> (match #[trigger] memo_entry(self, i) {
                Some(bits) => i < m.nodes@.len() && all_bool(m, bits) && bits.len()
                    == m.nodes@[i].sort.spec_width() && (match m.nodes@[i].ty {
                    TermType::Const(c) => forall|k: int, a: spec_fn(u32) -> Seq<bool>|
                        0 <= k < bits.len() ==> #[trigger] m.eval(bits[k], a) == seq![
                            const_bits(c)[k],
                        ],
                    _ => true,
                }),
                None => true,
            })
    }

    /// An empty memo.
    pub fn new() -> (r: BitblastMemo)
        ensures
            r.map@.len() == 0,
            forall|i: int| memo_entry(r, i) is None,
    {
        BitblastMemo { map: Vec::new() }
    }

    /// Looks up the cached bits for a term, copying them out.
    fn get(&self, t: Term) -> (r: Option<Vec<Term>>)
        ensures
            match r {
                Some(v) => memo_entry(*self, t.id as int) == Some(v@),
                None => memo_entry(*self, t.id as int) is None,
            },
    {
        if t.id < self.map.len() {
            match &self.map[t.id] {
                Some(v) => Some(copy_terms(v)),
                None => None,
            }
        } else {
            None
        }
    }

    /// Caches the bits for a term, never touching other entries.
    #[verifier::loop_isolation(false)]
    fn put(&mut self, t: Term, bits: Vec<Term>)
        requires
            memo_entry(*old(self), t.id as int) is None,
        ensures
            memo_entry(*final(self), t.id as int) == Some(bits@),
            forall|i: int|
                i != t.id ==> #[trigger] memo_entry(*final(self), i) == memo_entry(
                    *old(self),
                    i,
                ),
    {
        while self.map.len() <= t.id
            invariant
                forall|i: int|
                    #[trigger] memo_entry(*self, i) == memo_entry(*old(self), i),
            decreases t.id + 1 - self.map.len(),
        {
            let ghost pre = *self;
            self.map.push(None);
            proof {
                assert forall|i: int| #[trigger] memo_entry(*self, i) == memo_entry(pre, i) by {
                    if 0 <= i < self.map@.len() - 1 {
                        assert(self.map@[i] == pre.map@[i]);
                    }
                }
            }
        }
        let ghost pre = *self;
        self.map.set(t.id, Some(bits));
        proof {
            assert forall|i: int|
                i != t.id implies #[trigger] memo_entry(*self, i) == memo_entry(pre, i) by {
                if 0 <= i < self.map@.len() {
                    assert(self.map@[i] == pre.map@[i]);
                }
            }
        }
    }
}

/// Copies a vector of term handles.
#[verifier::loop_isolation(false)]
fn copy_terms(v: &Vec<Term>) -> (r: Vec<Term>)
    ensures
        r@ == v@,
{
    let mut out: Vec<Term> = Vec::new();
    let n = v.len();
    for k in 0..n
        invariant
            out@ =~= v@.take(k as int),
    {
        out.push(v[k]);
    }
    proof {
        assert(out@ =~= v@);
    }
    out
}

/// A memo stays well formed when the manager is extended: cached terms
/// keep their nodes, sorts and meanings.
pub proof fn lemma_memo_frame(memo: BitblastMemo, m0: TermManager, m1: TermManager)
    requires
        memo.wf(m0),
        m0.wf(),
        m1.wf(),
        m1.extends(m0),
    ensures
        memo.wf(m1),
{
    assert forall|i: int| 0 <= i < memo.map@.len() implies (match #[trigger] memo_entry(memo, i) {
        Some(bits) => i < m1.nodes@.len() && all_bool(m1, bits) && bits.len()
            == m1.nodes@[i].sort.spec_width() && (match m1.nodes@[i].ty {
            TermType::Const(c) => forall|k: int, a: spec_fn(u32) -> Seq<bool>|
                0 <= k < bits.len() ==> #[trigger] m1.eval(bits[k], a) == seq![const_bits(c)[k]],
            _ => true,
        }),
        None => true,
    }) by {
        match memo_entry(memo, i) {
            Some(bits) => {
                assert(m1.nodes@[i] == m0.nodes@[i]);
                assert forall|k: int|
                    0 <= k < bits.len() implies m1.valid(#[trigger] bits[k]) && m1.sort_of(
                    bits[k],
                ) == Sort::Bv(1usize) by {
                    assert(m1.nodes@[bits[k].id as int] == m0.nodes@[bits[k].id as int]);
                }
                match m0.nodes@[i].ty {
                    TermType::Const(c) => {
                        assert forall|k: int, a: spec_fn(u32) -> Seq<bool>|
                            0 <= k < bits.len() implies #[trigger] m1.eval(bits[k], a) == seq![
                            const_bits(c)[k],
                        ] by {
                            lemma_eval_frame(m0, m1, bits[k], a);
                        }
                    },
                    _ => {},
                }
            },
            None => {},
        }
    }
}

/// Boolean terms stay boolean when the manager is extended.
pub proof fn lemma_all_bool_frame(ts: Seq<Term>, m0: TermManager, m1: TermManager)
    requires
        all_bool(m0, ts),
        m1.extends(m0),
    ensures
        all_bool(m1, ts),
{
    assert forall|i: int|
        0 <= i < ts.len() implies m1.valid(#[trigger] ts[i]) && m1.sort_of(ts[i]) == Sort::Bv(
        1usize,
    ) by {
        assert(m1.nodes@[ts[i].id as int] == m0.nodes@[ts[i].id as int]);
    }
}

impl TermManager {
    /// One fresh boolean variable per bit of the sort: the lowering of a
    /// free variable.
    #[verifier::loop_isolation(false)]
    pub fn var_bitblast(&mut self, sort: Sort) -> (r: Vec<Term>)
        requires
            old(self).wf(),
            sort.wf(),
            old(self).num_var as nat + sort.spec_width() <= u32::MAX,
        ensures
            final(self).wf(),
            final(self).extends(*old(self)),
            r@.len() == sort.spec_width(),
            all_bool(*final(self), r@),
            final(self).num_var == old(self).num_var + sort.spec_width(),
            final(self).spec_len() == old(self).spec_len() + sort.spec_width(),
            forall|k: int|
                0 <= k < r@.len() ==> (#[trigger] r@[k]).id == old(self).spec_len() + k,
            forall|i: int|
                old(self).spec_len() <= i < final(self).spec_len() ==> ((
                #[trigger] final(self).nodes@[i]).ty is Var) && final(self).nodes@[i].sort
                    == Sort::Bv(1usize),
    {
        let size = match sort {
            Sort::Bv(s) => s,
            Sort::Array(i, e) => {
                proof {
                    assert(pow2(i as nat) <= pow2(i as nat) * e) by (nonlinear_arith)
                        requires 1 <= e;
                    shl_is_pow2(i as nat);
                }
                let shifted = 1usize << i;
                shifted * e
            },
        };
        let ghost m0 = *self;
        let mut out: Vec<Term> = Vec::new();
        for k in 0..size
            invariant
                self.wf(),
                self.extends(m0),
                self.num_var == m0.num_var + k,
                self.spec_len() == m0.spec_len() + k,
                out@.len() == k,
                all_bool(*self, out@),
                size as nat == sort.spec_width(),
                forall|l: int| 0 <= l < k ==> (#[trigger] out@[l]).id == m0.spec_len() + l,
                forall|i: int|
                    m0.spec_len() <= i < self.spec_len() ==> ((#[trigger] self.nodes@[i]).ty
                        is Var) && self.nodes@[i].sort == Sort::Bv(1usize),
        {
            let ghost mp = *self;
            let v = self.new_var(Sort::Bv(1));
            out.push(v);
            proof {
                lemma_extends_trans(m0, mp, *self);
                lemma_all_bool_frame(out@.drop_last(), mp, *self);
                assert(out@.drop_last() =~= out@.take(out@.len() - 1));
                assert forall|i: int|
                    m0.spec_len() <= i < self.spec_len() implies ((
                #[trigger] self.nodes@[i]).ty is Var) && self.nodes@[i].sort == Sort::Bv(
                    1usize,
                ) by {
                    if i < mp.spec_len() {
                        assert(self.nodes@[i] == mp.nodes@[i]);
                    }
                }
            }
        }
        out
    }
}

impl TermManager {
    /// Complements each bit.
    #[verifier::loop_isolation(false)]
    fn not_bits(&mut self, x: &Vec<Term>) -> (r: Vec<Term>)
        requires
            old(self).wf(),
            all_bool(*old(self), x@),
        ensures
            final(self).wf(),
            final(self).extends_novar(*old(self)),
            all_bool(*final(self), r@),
            r@.len() == x@.len(),
    {
        let ghost m0 = *self;
        let mut out: Vec<Term> = Vec::new();
        let n = x.len();
        for k in 0..n
            invariant
                self.wf(),
                self.extends_novar(m0),
                out@.len() == k,
                all_bool(*self, out@),
        {
            let ghost mp = *self;
            proof {
                assert(mp.sorts_of(seq![x@[k as int]]) =~= seq![mp.sort_of(x@[k as int])]);
            }
            let t = self.new_op_term_rec(crate::construct::SIMPLIFY_FUEL, Op::Not, &vec![x[k]]);
            out.push(t);
            proof {
                lemma_extends_novar_trans(m0, mp, *self);
                lemma_all_bool_frame(out@.drop_last(), mp, *self);
                assert(out@.drop_last() =~= out@.take(out@.len() - 1));
            }
        }
        out
    }

    /// One multiplexer per bit, steered by the single condition bit.
    #[verifier::loop_isolation(false)]
    fn ite_bits(&mut self, c: Term, th: &Vec<Term>, el: &Vec<Term>) -> (r: Vec<Term>)
        requires
            old(self).wf(),
            old(self).valid(c),
            old(self).sort_of(c) == Sort::Bv(1usize),
            all_bool(*old(self), th@),
            all_bool(*old(self), el@),
            th@.len() == el@.len(),
        ensures
            final(self).wf(),
            final(self).extends_novar(*old(self)),
            all_bool(*final(self), r@),
            r@.len() == th@.len(),
    {
        let ghost m0 = *self;
        let mut out: Vec<Term> = Vec::new();
        let n = th.len();
        for k in 0..n
            invariant
                self.wf(),
                self.extends_novar(m0),
                out@.len() == k,
                all_bool(*self, out@),
        {
            let ghost mp = *self;
            proof {
                assert(mp.sorts_of(seq![c, th@[k as int], el@[k as int]]) =~= seq![
                    mp.sort_of(c),
                    mp.sort_of(th@[k as int]),
                    mp.sort_of(el@[k as int]),
                ]);
            }
            let t = self.new_op_term_rec(
                crate::construct::SIMPLIFY_FUEL,
                Op::Ite,
                &vec![c, th[k], el[k]],
            );
            out.push(t);
            proof {
                lemma_extends_novar_trans(m0, mp, *self);
                lemma_all_bool_frame(out@.drop_last(), mp, *self);
                assert(out@.drop_last() =~= out@.take(out@.len() - 1));
            }
        }
        out
    }

    /// One `!s && p` gate over two boolean terms, meaning exactly that.
    #[verifier::rlimit(100)]
    fn and_not_bit(&mut self, s: Term, p: Term) -> (r: Term)
        requires
            old(self).wf(),
            old(self).valid(s),
            old(self).valid(p),
            old(self).sort_of(s) == Sort::Bv(1usize),
            old(self).sort_of(p) == Sort::Bv(1usize),
        ensures
            final(self).wf(),
            final(self).extends_novar(*old(self)),
            final(self).valid(r),
            final(self).sort_of(r) == Sort::Bv(1usize),
            forall|a: spec_fn(u32) -> Seq<bool>|
                final(self).assignment_ok(a) ==> #[trigger] final(self).eval(r, a) == seq![
                    !old(self).eval(s, a)[0] && old(self).eval(p, a)[0],
                ],
    {
        let ghost m0 = *self;
        proof {
            assert(m0.sorts_of(seq![s]) =~= seq![m0.sort_of(s)]);
        }
        let ns = self.new_op_term_rec(crate::construct::SIMPLIFY_FUEL, Op::Not, &vec![s]);
        let ghost m1 = *self;
        proof {
            assert(m1.sorts_of(seq![ns, p]) =~= seq![m1.sort_of(ns), m1.sort_of(p)]);
        }
        let r = self.new_op_term_rec(crate::construct::SIMPLIFY_FUEL, Op::And, &vec![ns, p]);
        proof {
            let m2 = *self;
            lemma_extends_novar_trans(m0, m1, m2);
            assert forall|a: spec_fn(u32) -> Seq<bool>|
                m2.assignment_ok(a) implies #[trigger] m2.eval(r, a) == seq![
                !m0.eval(s, a)[0] && m0.eval(p, a)[0],
            ] by {
                lemma_assignment_frame(m1, m2, a);
                lemma_assignment_frame(m0, m1, a);
                lemma_eval_frame(m1, m2, ns, a);
                lemma_eval_frame(m0, m1, s, a);
                lemma_eval_frame(m0, m2, p, a);
                assert(m1.eval_args(seq![s], a) =~= seq![m0.eval(s, a)]);
                assert(m2.eval_args(seq![ns, p], a) =~= seq![m1.eval(ns, a), m0.eval(p, a)]);
                lemma_eval_len(m0, s, a);
                lemma_eval_len(m0, p, a);
                assert(m2.eval(r, a) =~= seq![!m0.eval(s, a)[0] && m0.eval(p, a)[0]]);
            }
        }
        r
    }

    /// One multiplexer gate over three boolean terms, meaning exactly
    /// `if s then hi else lo`.
    #[verifier::rlimit(100)]
    fn mux_bit(&mut self, s: Term, hi: Term, lo: Term) -> (r: Term)
        requires
            old(self).wf(),
            old(self).valid(s),
            old(self).valid(hi),
            old(self).valid(lo),
            old(self).sort_of(s) == Sort::Bv(1usize),
            old(self).sort_of(hi) == Sort::Bv(1usize),
            old(self).sort_of(lo) == Sort::Bv(1usize),
        ensures
            final(self).wf(),
            final(self).extends_novar(*old(self)),
            final(self).valid(r),
            final(self).sort_of(r) == Sort::Bv(1usize),
            forall|a: spec_fn(u32) -> Seq<bool>|
                final(self).assignment_ok(a) ==> #[trigger] final(self).eval(r, a) == seq![
                    if old(self).eval(s, a)[0] {
                        old(self).eval(hi, a)[0]
                    } else {
                        old(self).eval(lo, a)[0]
                    },
                ],
    {
        let ghost m0 = *self;
        proof {
            assert(m0.sorts_of(seq![s, hi, lo]) =~= seq![
                m0.sort_of(s),
                m0.sort_of(hi),
                m0.sort_of(lo),
            ]);
        }
        let r = self.new_op_term_rec(crate::construct::SIMPLIFY_FUEL, Op::Ite, &vec![s, hi, lo]);
        proof {
            let m2 = *self;
            assert forall|a: spec_fn(u32) -> Seq<bool>|
                m2.assignment_ok(a) implies #[trigger] m2.eval(r, a) == seq![
                if m0.eval(s, a)[0] {
                    m0.eval(hi, a)[0]
                } else {
                    m0.eval(lo, a)[0]
                },
            ] by {
                lemma_assignment_frame(m0, m2, a);
                lemma_eval_frame(m0, m2, s, a);
                lemma_eval_frame(m0, m2, hi, a);
                lemma_eval_frame(m0, m2, lo, a);
                assert(m2.eval_args(seq![s, hi, lo], a) =~= seq![
                    m0.eval(s, a),
                    m0.eval(hi, a),
                    m0.eval(lo, a),
                ]);
                lemma_eval_len(m0, s, a);
                lemma_eval_len(m0, hi, a);
                lemma_eval_len(m0, lo, a);
                assert(m2.eval(r, a) =~= seq![
                    if m0.eval(s, a)[0] {
                        m0.eval(hi, a)[0]
                    } else {
                        m0.eval(lo, a)[0]
                    },
                ]);
            }
        }
        r
    }

    /// The unsigned-less-than network over already-lowered bits: a
    /// borrow chain from the least significant pair upward. Its single
    /// output bit means exactly the unsigned comparison of the two
    /// operand patterns, for every assignment.
    #[verifier::loop_isolation(false)]
    #[verifier::rlimit(100)]
    fn ult_bits(&mut self, x: &Vec<Term>, y: &Vec<Term>) -> (r: Term)
        requires
            old(self).wf(),
            all_bool(*old(self), x@),
            all_bool(*old(self), y@),
            x@.len() == y@.len(),
        ensures
            final(self).wf(),
            final(self).extends_novar(*old(self)),
            final(self).valid(r),
            final(self).sort_of(r) == Sort::Bv(1usize),
            forall|a: spec_fn(u32) -> Seq<bool>|
                final(self).assignment_ok(a) ==> #[trigger] final(self).eval(r, a) == seq![
                    to_nat(bits_val(*final(self), x@, a)) < to_nat(
                        bits_val(*final(self), y@, a),
                    ),
                ],
    {
        let ghost m0 = *self;
        let mut res = self.bool_const(false);
        let n = x.len();
        proof {
            assert forall|a: spec_fn(u32) -> Seq<bool>|
                self.assignment_ok(a) implies #[trigger] self.eval(res, a) == seq![
                to_nat(bits_val(*self, x@.take(0), a)) < to_nat(bits_val(*self, y@.take(0), a)),
            ] by {
                assert(bits_val(*self, x@.take(0), a) =~= Seq::empty());
                assert(bits_val(*self, y@.take(0), a) =~= Seq::empty());
            }
        }
        for k in 0..n
            invariant
                self.wf(),
                self.extends_novar(m0),
                self.valid(res),
                self.sort_of(res) == Sort::Bv(1usize),
                forall|a: spec_fn(u32) -> Seq<bool>|
                    self.assignment_ok(a) ==> #[trigger] self.eval(res, a) == seq![
                        to_nat(bits_val(*self, x@.take(k as int), a)) < to_nat(
                            bits_val(*self, y@.take(k as int), a),
                        ),
                    ],
        {
            let ghost mp = *self;
            let xk = x[k];
            let yk = y[k];
            let nx = self.new_op_term_rec(
                crate::construct::SIMPLIFY_FUEL,
                Op::Not,
                &vec![xk],
            );
            let ghost m1 = *self;
            let t1 = self.new_op_term_rec(
                crate::construct::SIMPLIFY_FUEL,
                Op::And,
                &vec![nx, yk],
            );
            let ghost m2 = *self;
            let t2 = self.new_op_term_rec(
                crate::construct::SIMPLIFY_FUEL,
                Op::Or,
                &vec![nx, yk],
            );
            let ghost m3 = *self;
            let t3 = self.new_op_term_rec(
                crate::construct::SIMPLIFY_FUEL,
                Op::And,
                &vec![t2, res],
            );
            let ghost m4 = *self;
            let prev = res;
            res = self.new_op_term_rec(
                crate::construct::SIMPLIFY_FUEL,
                Op::Or,
                &vec![t1, t3],
            );
            proof {
                let m5 = *self;
                lemma_extends_novar_trans(m0, mp, m1);
                lemma_extends_novar_trans(m0, m1, m2);
                lemma_extends_novar_trans(m0, m2, m3);
                lemma_extends_novar_trans(m0, m3, m4);
                lemma_extends_novar_trans(m0, m4, m5);
                assert forall|a: spec_fn(u32) -> Seq<bool>|
                    m5.assignment_ok(a) implies #[trigger] m5.eval(res, a) == seq![
                    to_nat(bits_val(m5, x@.take(k + 1), a)) < to_nat(
                        bits_val(m5, y@.take(k + 1), a),
                    ),
                ] by {
                    lemma_assignment_frame(m4, m5, a);
                    lemma_assignment_frame(m3, m4, a);
                    lemma_assignment_frame(m2, m3, a);
                    lemma_assignment_frame(m1, m2, a);
                    lemma_assignment_frame(mp, m1, a);
                    lemma_eval_frame(mp, m5, xk, a);
                    lemma_eval_frame(mp, m5, yk, a);
                    lemma_eval_frame(m1, m5, nx, a);
                    lemma_eval_frame(m2, m5, t1, a);
                    lemma_eval_frame(m3, m5, t2, a);
                    lemma_eval_frame(m4, m5, t3, a);
                    lemma_eval_frame(mp, m4, prev, a);
                    lemma_eval_frame(mp, m1, xk, a);
                    lemma_eval_frame(mp, m1, yk, a);
                    lemma_eval_frame(m1, m2, nx, a);
                    lemma_eval_frame(m1, m2, yk, a);
                    lemma_eval_frame(m1, m3, nx, a);
                    lemma_eval_frame(m1, m3, yk, a);
                    lemma_eval_frame(m3, m4, t2, a);
                    lemma_eval_frame(mp, m3, prev, a);
                    assert(m1.eval_args(seq![xk], a) =~= seq![mp.eval(xk, a)]);
                    assert(m2.eval_args(seq![nx, yk], a) =~= seq![
                        m1.eval(nx, a),
                        mp.eval(yk, a),
                    ]);
                    assert(m3.eval_args(seq![nx, yk], a) =~= seq![
                        m1.eval(nx, a),
                        mp.eval(yk, a),
                    ]);
                    assert(m4.eval_args(seq![t2, prev], a) =~= seq![
                        m3.eval(t2, a),
                        mp.eval(prev, a),
                    ]);
                    assert(m5.eval_args(seq![t1, t3], a) =~= seq![
                        m2.eval(t1, a),
                        m4.eval(t3, a),
                    ]);
                    lemma_eval_len(mp, xk, a);
                    lemma_eval_len(mp, yk, a);
                    lemma_eval_len(mp, prev, a);
                    let xv = mp.eval(xk, a)[0];
                    let yv = mp.eval(yk, a)[0];
                    let pv = mp.eval(prev, a)[0];
                    assert(m5.eval(res, a) =~= seq![
                        (!xv && yv) || ((!xv || yv) && pv),
                    ]);
                    let xs = bits_val(mp, x@.take(k as int), a);
                    let ys = bits_val(mp, y@.take(k as int), a);
                    assert(mp.eval(prev, a) == seq![to_nat(xs) < to_nat(ys)]);
                    assert(pv == (to_nat(xs) < to_nat(ys)));
                    lemma_bits_val_frame(mp, m5, x@.take(k as int), a);
                    lemma_bits_val_frame(mp, m5, y@.take(k as int), a);
                    lemma_bits_val_frame(mp, m5, x@.take(k + 1), a);
                    lemma_bits_val_frame(mp, m5, y@.take(k + 1), a);
                    assert(bits_val(mp, x@.take(k + 1), a) =~= xs.push(xv));
                    assert(bits_val(mp, y@.take(k + 1), a) =~= ys.push(yv));
                    crate::semantics::lemma_ult_step(xs, ys, xv, yv);
                }
            }
        }
        proof {
            assert(x@.take(n as int) =~= x@);
            assert(y@.take(n as int) =~= y@);
        }
        res
    }

    /// One-bit full adder: the sum and carry-out of three bits, meaning
    /// exactly the low and high bit of their count.
    #[verifier::rlimit(100)]
    fn full_adder(&mut self, x: Term, y: Term, c: Term) -> (r: (Term, Term))
        requires
            old(self).wf(),
            old(self).valid(x),
            old(self).valid(y),
            old(self).valid(c),
            old(self).sort_of(x) == Sort::Bv(1usize),
            old(self).sort_of(y) == Sort::Bv(1usize),
            old(self).sort_of(c) == Sort::Bv(1usize),
        ensures
            final(self).wf(),
            final(self).extends_novar(*old(self)),
            final(self).valid(r.0),
            final(self).valid(r.1),
            final(self).sort_of(r.0) == Sort::Bv(1usize),
            final(self).sort_of(r.1) == Sort::Bv(1usize),
            forall|a: spec_fn(u32) -> Seq<bool>|
                final(self).assignment_ok(a) ==> #[trigger] final(self).eval(r.0, a) == seq![
                    (old(self).eval(x, a)[0] != old(self).eval(y, a)[0]) != old(self).eval(
                        c,
                        a,
                    )[0],
                ],
            forall|a: spec_fn(u32) -> Seq<bool>|
                final(self).assignment_ok(a) ==> #[trigger] final(self).eval(r.1, a) == seq![
                    (old(self).eval(x, a)[0] && old(self).eval(y, a)[0]) || (old(self).eval(
                        x,
                        a,
                    )[0] && old(self).eval(c, a)[0]) || (old(self).eval(y, a)[0] && old(
                        self,
                    ).eval(c, a)[0]),
                ],
    {
        let ghost m0 = *self;
        let s = self.new_op_terms_fold(Op::Xor, &vec![x, y, c]);
        let ghost m1 = *self;
        let xy = self.new_op_term_rec(crate::construct::SIMPLIFY_FUEL, Op::And, &vec![x, y]);
        let ghost m2 = *self;
        let xc = self.new_op_term_rec(crate::construct::SIMPLIFY_FUEL, Op::And, &vec![x, c]);
        let ghost m3 = *self;
        let yc = self.new_op_term_rec(crate::construct::SIMPLIFY_FUEL, Op::And, &vec![y, c]);
        let ghost m4 = *self;
        let cout = self.new_op_terms_fold(Op::Or, &vec![xy, xc, yc]);
        proof {
            let m5 = *self;
            lemma_extends_novar_trans(m0, m1, m2);
            lemma_extends_novar_trans(m0, m2, m3);
            lemma_extends_novar_trans(m0, m3, m4);
            lemma_extends_novar_trans(m0, m4, m5);
            assert forall|a: spec_fn(u32) -> Seq<bool>|
                m5.assignment_ok(a) implies (#[trigger] m5.eval(s, a) == seq![
                (m0.eval(x, a)[0] != m0.eval(y, a)[0]) != m0.eval(c, a)[0],
            ]) && (m5.eval(cout, a) == seq![
                (m0.eval(x, a)[0] && m0.eval(y, a)[0]) || (m0.eval(x, a)[0] && m0.eval(
                    c,
                    a,
                )[0]) || (m0.eval(y, a)[0] && m0.eval(c, a)[0]),
            ]) by {
                lemma_assignment_frame(m4, m5, a);
                lemma_assignment_frame(m3, m4, a);
                lemma_assignment_frame(m2, m3, a);
                lemma_assignment_frame(m1, m2, a);
                lemma_assignment_frame(m0, m1, a);
                lemma_eval_frame(m0, m1, x, a);
                lemma_eval_frame(m0, m1, y, a);
                lemma_eval_frame(m0, m1, c, a);
                lemma_eval_frame(m0, m2, x, a);
                lemma_eval_frame(m0, m2, y, a);
                lemma_eval_frame(m0, m2, c, a);
                lemma_eval_frame(m0, m3, x, a);
                lemma_eval_frame(m0, m3, y, a);
                lemma_eval_frame(m0, m3, c, a);
                lemma_eval_frame(m0, m4, x, a);
                lemma_eval_frame(m0, m4, y, a);
                lemma_eval_frame(m0, m4, c, a);
                lemma_eval_frame(m1, m5, s, a);
                lemma_eval_frame(m2, m5, xy, a);
                lemma_eval_frame(m3, m5, xc, a);
                lemma_eval_frame(m4, m5, yc, a);
                lemma_eval_len(m0, x, a);
                lemma_eval_len(m0, y, a);
                lemma_eval_len(m0, c, a);
                let vs = m1.eval_args(seq![x, y, c], a);
                assert(vs.len() == 3);
                assert(vs[0] == m0.eval(x, a));
                assert(vs[1] == m0.eval(y, a));
                assert(vs[2] == m0.eval(c, a));
                lemma_fold_three(Op::Xor, vs);
                assert(m1.eval(s, a) == fold_apply(Op::Xor, vs));
                assert(m5.eval(s, a) =~= seq![
                    (m0.eval(x, a)[0] != m0.eval(y, a)[0]) != m0.eval(c, a)[0],
                ]);
                let ws = m5.eval_args(seq![xy, xc, yc], a);
                assert(ws.len() == 3);
                assert(ws[0] == m2.eval(xy, a));
                assert(ws[1] == m3.eval(xc, a));
                assert(ws[2] == m4.eval(yc, a));
                lemma_fold_three(Op::Or, ws);
                assert(m2.eval_args(seq![x, y], a) =~= seq![m0.eval(x, a), m0.eval(y, a)]);
                assert(m3.eval_args(seq![x, c], a) =~= seq![m0.eval(x, a), m0.eval(c, a)]);
                assert(m4.eval_args(seq![y, c], a) =~= seq![m0.eval(y, a), m0.eval(c, a)]);
                assert(m5.eval(cout, a) =~= seq![
                    (m0.eval(x, a)[0] && m0.eval(y, a)[0]) || (m0.eval(x, a)[0] && m0.eval(
                        c,
                        a,
                    )[0]) || (m0.eval(y, a)[0] && m0.eval(c, a)[0]),
                ]);
            }
            assert forall|a: spec_fn(u32) -> Seq<bool>|
                m5.assignment_ok(a) implies #[trigger] m5.eval(cout, a) == seq![
                (m0.eval(x, a)[0] && m0.eval(y, a)[0]) || (m0.eval(x, a)[0] && m0.eval(
                    c,
                    a,
                )[0]) || (m0.eval(y, a)[0] && m0.eval(c, a)[0]),
            ] by {
                assert(m5.eval(s, a) == seq![
                    (m0.eval(x, a)[0] != m0.eval(y, a)[0]) != m0.eval(c, a)[0],
                ]);
            }
        }
        (s, cout)
    }

    /// The ripple-carry adder network. The output pattern means exactly
    /// the two's-complement sum of the operand patterns, for every
    /// assignment.
    #[verifier::loop_isolation(false)]
    #[verifier::rlimit(100)]
    fn add_bits(&mut self, x: &Vec<Term>, y: &Vec<Term>) -> (r: Vec<Term>)
        requires
            old(self).wf(),
            all_bool(*old(self), x@),
            all_bool(*old(self), y@),
            x@.len() == y@.len(),
        ensures
            final(self).wf(),
            final(self).extends_novar(*old(self)),
            all_bool(*final(self), r@),
            r@.len() == x@.len(),
            forall|a: spec_fn(u32) -> Seq<bool>|
                final(self).assignment_ok(a) ==> to_nat(#[trigger] bits_val(*final(self), r@, a))
                    == (to_nat(bits_val(*final(self), x@, a)) + to_nat(
                    bits_val(*final(self), y@, a),
                )) % pow2(x@.len()),
    {
        let ghost m0 = *self;
        let mut c = self.bool_const(false);
        let mut out: Vec<Term> = Vec::new();
        let n = x.len();
        proof {
            assert forall|a: spec_fn(u32) -> Seq<bool>|
                self.assignment_ok(a) implies to_nat(#[trigger] bits_val(*self, out@, a)) + (
            if self.eval(c, a)[0] {
                pow2(0)
            } else {
                0nat
            }) == to_nat(bits_val(*self, x@.take(0), a)) + to_nat(
                bits_val(*self, y@.take(0), a),
            ) by {
                assert(bits_val(*self, out@, a) =~= Seq::empty());
                assert(bits_val(*self, x@.take(0), a) =~= Seq::empty());
                assert(bits_val(*self, y@.take(0), a) =~= Seq::empty());
            }
        }
        for k in 0..n
            invariant
                self.wf(),
                self.extends_novar(m0),
                self.valid(c),
                self.sort_of(c) == Sort::Bv(1usize),
                out@.len() == k,
                all_bool(*self, out@),
                forall|a: spec_fn(u32) -> Seq<bool>|
                    self.assignment_ok(a) ==> to_nat(#[trigger] bits_val(*self, out@, a)) + (
                    if self.eval(c, a)[0] {
                        pow2(k as nat)
                    } else {
                        0nat
                    }) == to_nat(bits_val(*self, x@.take(k as int), a)) + to_nat(
                        bits_val(*self, y@.take(k as int), a),
                    ),
        {
            let ghost mp = *self;
            let ghost cprev = c;
            let ghost outprev = out@;
            let xk = x[k];
            let yk = y[k];
            let rc = self.full_adder(xk, yk, c);
            out.push(rc.0);
            c = rc.1;
            proof {
                let mq = *self;
                lemma_extends_novar_trans(m0, mp, mq);
                lemma_all_bool_frame(out@.drop_last(), mp, mq);
                assert(out@.drop_last() =~= out@.take(out@.len() - 1));
                assert forall|a: spec_fn(u32) -> Seq<bool>|
                    mq.assignment_ok(a) implies to_nat(#[trigger] bits_val(mq, out@, a)) + (
                if mq.eval(c, a)[0] {
                    pow2((k + 1) as nat)
                } else {
                    0nat
                }) == to_nat(bits_val(mq, x@.take(k + 1), a)) + to_nat(
                    bits_val(mq, y@.take(k + 1), a),
                ) by {
                    lemma_assignment_frame(mp, mq, a);
                    lemma_eval_len(mp, xk, a);
                    lemma_eval_len(mp, yk, a);
                    lemma_eval_len(mp, cprev, a);
                    let xv = mp.eval(xk, a)[0];
                    let yv = mp.eval(yk, a)[0];
                    let cv = mp.eval(cprev, a)[0];
                    let rv = ((xv != yv) != cv);
                    let cnv = ((xv && yv) || (xv && cv) || (yv && cv));
                    assert(mq.eval(rc.0, a) == seq![rv]);
                    assert(mq.eval(c, a) == seq![cnv]);
                    lemma_bits_val_frame(mp, mq, outprev, a);
                    lemma_bits_val_frame(mp, mq, x@.take(k as int), a);
                    lemma_bits_val_frame(mp, mq, y@.take(k as int), a);
                    lemma_bits_val_frame(mp, mq, x@.take(k + 1), a);
                    lemma_bits_val_frame(mp, mq, y@.take(k + 1), a);
                    assert(bits_val(mq, out@, a) =~= bits_val(mp, outprev, a).push(rv));
                    crate::semantics::lemma_to_nat_snoc(bits_val(mp, outprev, a), rv);
                    let xs = bits_val(mp, x@.take(k as int), a);
                    let ys = bits_val(mp, y@.take(k as int), a);
                    lemma_eval_frame(mp, mq, xk, a);
                    lemma_eval_frame(mp, mq, yk, a);
                    assert(bits_val(mq, x@.take(k + 1), a) =~= xs.push(xv));
                    assert(bits_val(mq, y@.take(k + 1), a) =~= ys.push(yv));
                    crate::semantics::lemma_to_nat_snoc(xs, xv);
                    crate::semantics::lemma_to_nat_snoc(ys, yv);
                    vstd::arithmetic::power2::lemma_pow2_unfold((k + 1) as nat);
                    assert((if rv {
                        1int
                    } else {
                        0int
                    }) + 2 * (if cnv {
                        1int
                    } else {
                        0int
                    }) == (if xv {
                        1int
                    } else {
                        0int
                    }) + (if yv {
                        1int
                    } else {
                        0int
                    }) + (if cv {
                        1int
                    } else {
                        0int
                    }));
                    assert(to_nat(bits_val(mp, outprev, a)) + (if cv {
                        pow2(k as nat)
                    } else {
                        0nat
                    }) == to_nat(xs) + to_nat(ys));
                }
            }
        }
        proof {
            let mf = *self;
            assert(x@.take(n as int) =~= x@);
            assert(y@.take(n as int) =~= y@);
            assert forall|a: spec_fn(u32) -> Seq<bool>|
                mf.assignment_ok(a) implies to_nat(#[trigger] bits_val(mf, out@, a)) == (
            to_nat(bits_val(mf, x@, a)) + to_nat(bits_val(mf, y@, a))) % pow2(x@.len()) by {
                let outv = to_nat(bits_val(mf, out@, a));
                let xsum = to_nat(bits_val(mf, x@, a)) + to_nat(bits_val(mf, y@, a));
                crate::semantics::lemma_to_nat_bound(bits_val(mf, out@, a));
                assert(bits_val(mf, out@, a).len() == n);
                vstd::arithmetic::power2::lemma_pow2_pos(n as nat);
                if mf.eval(c, a)[0] {
                    assert(xsum == outv + pow2(n as nat));
                    assert((pow2(n as nat) as int * 1 + outv as int) % (pow2(n as nat) as int)
                        == outv as int % (pow2(n as nat) as int)) by {
                        vstd::arithmetic::div_mod::lemma_mod_multiples_vanish(
                            1int,
                            outv as int,
                            pow2(n as nat) as int,
                        );
                    }
                    vstd::arithmetic::div_mod::lemma_small_mod(outv, pow2(n as nat));
                } else {
                    assert(xsum == outv);
                    vstd::arithmetic::div_mod::lemma_small_mod(outv, pow2(n as nat));
                }
            }
        }
        out
    }

    /// The shift-and-add multiplier network. The output pattern means
    /// exactly the product of the operand patterns modulo the width's
    /// power of two, for every assignment.
    #[verifier::loop_isolation(false)]
    #[verifier::rlimit(100)]
    fn mul_bits(&mut self, x: &Vec<Term>, y: &Vec<Term>) -> (r: Vec<Term>)
        requires
            old(self).wf(),
            all_bool(*old(self), x@),
            all_bool(*old(self), y@),
            x@.len() == y@.len(),
            0 < x@.len(),
        ensures
            final(self).wf(),
            final(self).extends_novar(*old(self)),
            all_bool(*final(self), r@),
            r@.len() == x@.len(),
            forall|a: spec_fn(u32) -> Seq<bool>|
                final(self).assignment_ok(a) ==> to_nat(#[trigger] bits_val(*final(self), r@, a))
                    == (to_nat(bits_val(*final(self), x@, a)) * to_nat(
                    bits_val(*final(self), y@, a),
                )) % pow2(x@.len()),
    {
        let ghost m0 = *self;
        let n = x.len();
        let mut res: Vec<Term> = Vec::new();
        for k in 0..n
            invariant
                self.wf(),
                self.extends_novar(m0),
                res@.len() == k,
                all_bool(*self, res@),
                forall|a: spec_fn(u32) -> Seq<bool>, l: int|
                    self.assignment_ok(a) && 0 <= l < k ==> #[trigger] self.eval(res@[l], a)
                        == seq![m0.eval(x@[l], a)[0] && m0.eval(y@[0], a)[0]],
        {
            let ghost mp = *self;
            let t = self.new_op_term_rec(
                crate::construct::SIMPLIFY_FUEL,
                Op::And,
                &vec![x[k], y[0]],
            );
            res.push(t);
            proof {
                lemma_extends_novar_trans(m0, mp, *self);
                lemma_all_bool_frame(res@.drop_last(), mp, *self);
                assert(res@.drop_last() =~= res@.take(res@.len() - 1));
                assert forall|a: spec_fn(u32) -> Seq<bool>, l: int|
                    self.assignment_ok(a) && 0 <= l < k + 1 implies #[trigger] self.eval(
                    res@[l],
                    a,
                ) == seq![m0.eval(x@[l], a)[0] && m0.eval(y@[0], a)[0]] by {
                    lemma_assignment_frame(mp, *self, a);
                    lemma_assignment_frame(m0, mp, a);
                    if l < k {
                        lemma_eval_frame(mp, *self, res@[l], a);
                    } else {
                        lemma_eval_frame(m0, mp, x@[l], a);
                        lemma_eval_frame(m0, mp, y@[0], a);
                        lemma_eval_frame(m0, *self, x@[l], a);
                        lemma_eval_frame(m0, *self, y@[0], a);
                        assert(mp.eval_args(seq![x@[l], y@[0]], a) =~= seq![
                            m0.eval(x@[l], a),
                            m0.eval(y@[0], a),
                        ]);
                        lemma_eval_len(m0, x@[l], a);
                        lemma_eval_len(m0, y@[0], a);
                        assert(self.eval(res@[l], a) =~= seq![
                            m0.eval(x@[l], a)[0] && m0.eval(y@[0], a)[0],
                        ]);
                    }
                }
            }
        }
        proof {
            let mb = *self;
            assert forall|a: spec_fn(u32) -> Seq<bool>|
                mb.assignment_ok(a) implies to_nat(#[trigger] bits_val(mb, res@, a)) == (
            to_nat(bits_val(mb, x@, a)) * to_nat(bits_val(mb, y@.take(1), a))) % pow2(
                n as nat,
            ) by {
                lemma_assignment_frame(m0, mb, a);
                lemma_bits_val_frame(m0, mb, x@, a);
                let xv = bits_val(mb, x@, a);
                let yv0 = m0.eval(y@[0], a)[0];
                lemma_eval_frame(m0, mb, y@[0], a);
                assert(bits_val(mb, y@.take(1), a) =~= seq![yv0]);
                assert(to_nat(seq![yv0]) == (if yv0 {
                    1nat
                } else {
                    0nat
                })) by {
                    assert(seq![yv0].skip(1) =~= Seq::<bool>::empty());
                    assert(to_nat(Seq::<bool>::empty()) == 0);
                }
                crate::semantics::lemma_to_nat_bound(xv);
                vstd::arithmetic::power2::lemma_pow2_pos(n as nat);
                if yv0 {
                    assert(bits_val(mb, res@, a) =~= xv);
                    vstd::arithmetic::div_mod::lemma_small_mod(to_nat(xv), pow2(n as nat));
                    assert(to_nat(xv) * 1 == to_nat(xv)) by (nonlinear_arith);
                } else {
                    assert(bits_val(mb, res@, a) =~= Seq::new(n as nat, |l: int| false));
                    crate::semantics::lemma_to_nat_zero(bits_val(mb, res@, a));
                    assert(to_nat(xv) * 0 == 0) by (nonlinear_arith);
                    vstd::arithmetic::div_mod::lemma_small_mod(0nat, pow2(n as nat));
                }
            }
        }
        for i in 1..n
            invariant
                self.wf(),
                self.extends_novar(m0),
                res@.len() == n,
                all_bool(*self, res@),
                forall|a: spec_fn(u32) -> Seq<bool>|
                    self.assignment_ok(a) ==> to_nat(#[trigger] bits_val(*self, res@, a)) == (
                    to_nat(bits_val(*self, x@, a)) * to_nat(
                        bits_val(*self, y@.take(i as int), a),
                    )) % pow2(n as nat),
        {
            let ghost mrow = *self;
            let mut c = self.bool_const(false);
            let ghost mc = *self;
            let ghost rowpre = res@;
            proof {
                assert forall|a: spec_fn(u32) -> Seq<bool>|
                    mc.assignment_ok(a) implies to_nat(#[trigger] bits_val(mc, rowpre, a)) == (
                to_nat(bits_val(mc, x@, a)) * to_nat(bits_val(mc, y@.take(i as int), a)))
                    % pow2(n as nat) by {
                    lemma_assignment_frame(mrow, mc, a);
                    lemma_bits_val_frame(mrow, mc, rowpre, a);
                    lemma_bits_val_frame(m0, mrow, x@, a);
                    lemma_bits_val_frame(m0, mc, x@, a);
                    assert(m0.all_valid(y@.take(i as int))) by {
                        assert forall|l: int|
                            0 <= l < y@.take(i as int).len() implies m0.valid(
                            #[trigger] y@.take(i as int)[l],
                        ) by {
                            assert(y@.take(i as int)[l] == y@[l]);
                        }
                    }
                    lemma_bits_val_frame(m0, mrow, y@.take(i as int), a);
                    lemma_bits_val_frame(m0, mc, y@.take(i as int), a);
                }
                assert forall|a: spec_fn(u32) -> Seq<bool>|
                    mc.assignment_ok(a) implies to_nat((#[trigger] bits_val(mc, res@, a)).take(
                    i as int,
                )) + (if mc.eval(c, a)[0] {
                    pow2(i as nat)
                } else {
                    0nat
                }) == to_nat(bits_val(mc, rowpre, a).take(i as int)) + to_nat(
                    row_addend(mc, x@, y@[i as int], i as int, i as nat, a),
                ) by {
                    let ad0 = row_addend(mc, x@, y@[i as int], i as int, i as nat, a);
                    assert(forall|l: int| 0 <= l < ad0.len() ==> !ad0[l]);
                    crate::semantics::lemma_to_nat_zero(ad0);
                    assert(mc.eval(c, a) == seq![false]);
                }
            }
            for j in i..n
                invariant
                    self.wf(),
                    self.extends_novar(m0),
                    self.extends_novar(mc),
                    self.valid(c),
                    self.sort_of(c) == Sort::Bv(1usize),
                    res@.len() == n,
                    rowpre.len() == n,
                    all_bool(*self, res@),
                    all_bool(mc, rowpre),
                    1 <= i < n,
                    forall|l: int| (0 <= l < i || j <= l < n) ==> res@[l] == rowpre[l],
                    forall|a: spec_fn(u32) -> Seq<bool>|
                        mc.assignment_ok(a) ==> to_nat(#[trigger] bits_val(mc, rowpre, a)) == (
                        to_nat(bits_val(mc, x@, a)) * to_nat(
                            bits_val(mc, y@.take(i as int), a),
                        )) % pow2(n as nat),
                    forall|a: spec_fn(u32) -> Seq<bool>|
                        self.assignment_ok(a) ==> to_nat(
                            (#[trigger] bits_val(*self, res@, a)).take(j as int),
                        ) + (if self.eval(c, a)[0] {
                            pow2(j as nat)
                        } else {
                            0nat
                        }) == to_nat(bits_val(mc, rowpre, a).take(j as int)) + to_nat(
                            row_addend(mc, x@, y@[i as int], i as int, j as nat, a),
                        ),
            {
                let ghost mp = *self;
                let ghost cprev = c;
                let xbit = x[j - i];
                let partial = self.new_op_term_rec(
                    crate::construct::SIMPLIFY_FUEL,
                    Op::And,
                    &vec![y[i], xbit],
                );
                let ghost mr = *self;
                let rc = self.full_adder(res[j], partial, c);
                let ghost rj = res@[j as int];
                let ghost resp = res@;
                res.set(j, rc.0);
                c = rc.1;
                proof {
                    let mq = *self;
                    lemma_extends_novar_trans(m0, mp, mr);
                    lemma_extends_novar_trans(m0, mr, mq);
                    lemma_extends_novar_trans(mc, mp, mr);
                    lemma_extends_novar_trans(mc, mr, mq);
                    assert forall|l: int|
                        0 <= l < res@.len() implies mq.valid(#[trigger] res@[l]) && mq.sort_of(
                        res@[l],
                    ) == Sort::Bv(1usize) by {
                        if l != j {
                            assert(mp.valid(res@[l]) && mp.sort_of(res@[l]) == Sort::Bv(
                                1usize,
                            ));
                            assert(mq.nodes@[res@[l].id as int] == mp.nodes@[res@[l].id
                                as int]);
                        }
                    }
                    assert forall|a: spec_fn(u32) -> Seq<bool>|
                        mq.assignment_ok(a) implies to_nat(
                        (#[trigger] bits_val(mq, res@, a)).take(j + 1),
                    ) + (if mq.eval(c, a)[0] {
                        pow2((j + 1) as nat)
                    } else {
                        0nat
                    }) == to_nat(bits_val(mc, rowpre, a).take(j + 1)) + to_nat(
                        row_addend(mc, x@, y@[i as int], i as int, (j + 1) as nat, a),
                    ) by {
                        lemma_assignment_frame(mr, mq, a);
                        lemma_assignment_frame(mp, mr, a);
                        lemma_assignment_frame(mc, mp, a);
                        lemma_eval_len(mc, y@[i as int], a);
                        lemma_eval_len(mc, xbit, a);
                        lemma_eval_frame(mc, mp, y@[i as int], a);
                        lemma_eval_frame(mc, mp, xbit, a);
                        lemma_eval_frame(mc, mr, y@[i as int], a);
                        lemma_eval_frame(mc, mr, xbit, a);
                        assert(mr.eval_args(seq![y@[i as int], xbit], a) =~= seq![
                            mc.eval(y@[i as int], a),
                            mc.eval(xbit, a),
                        ]);
                        let yvi = mc.eval(y@[i as int], a)[0];
                        let xvj = mc.eval(xbit, a)[0];
                        assert(mr.eval(partial, a) =~= seq![yvi && xvj]);
                        lemma_eval_frame(mc, mr, rowpre[j as int], a);
                        lemma_eval_len(mc, rowpre[j as int], a);
                        lemma_eval_len(mr, partial, a);
                        lemma_eval_len(mp, cprev, a);
                        lemma_eval_frame(mp, mr, cprev, a);
                        let bv = mc.eval(rowpre[j as int], a)[0];
                        let cv = mp.eval(cprev, a)[0];
                        let av = yvi && xvj;
                        let rv = ((bv != av) != cv);
                        let cnv = ((bv && av) || (bv && cv) || (av && cv));
                        assert(mq.eval(rc.0, a) == seq![rv]) by {
                            assert(mr.eval(rj, a) == mc.eval(rowpre[j as int], a));
                        }
                        assert(mq.eval(c, a) == seq![cnv]) by {
                            assert(mr.eval(rj, a) == mc.eval(rowpre[j as int], a));
                        }
                        let oldv = bits_val(mp, resp, a);
                        assert(res@ =~= resp.update(j as int, rc.0));
                        let newbits = bits_val(mq, res@, a);
                        assert(newbits.take(j + 1) =~= oldv.take(j as int).push(rv)) by {
                            assert forall|l: int| 0 <= l < j implies #[trigger] newbits[l]
                                == oldv[l] by {
                                assert(res@[l] == resp[l]);
                                lemma_eval_frame(mp, mq, resp[l], a);
                            }
                            assert(newbits[j as int] == rv);
                        }
                        crate::semantics::lemma_to_nat_snoc(oldv.take(j as int), rv);
                        let rp = bits_val(mc, rowpre, a);
                        assert(rp.take(j + 1) =~= rp.take(j as int).push(bv));
                        crate::semantics::lemma_to_nat_snoc(rp.take(j as int), bv);
                        let ad = row_addend(mc, x@, y@[i as int], i as int, j as nat, a);
                        let ad1 = row_addend(
                            mc,
                            x@,
                            y@[i as int],
                            i as int,
                            (j + 1) as nat,
                            a,
                        );
                        assert(ad1 =~= ad.push(av)) by {
                            assert(ad1[j as int] == (i <= j && yvi && mc.eval(
                                x@[j - i],
                                a,
                            )[0]));
                        }
                        crate::semantics::lemma_to_nat_snoc(ad, av);
                        assert(to_nat(oldv.take(j as int)) + (if cv {
                            pow2(j as nat)
                        } else {
                            0nat
                        }) == to_nat(rp.take(j as int)) + to_nat(ad));
                        vstd::arithmetic::power2::lemma_pow2_unfold((j + 1) as nat);
                        assert((if rv {
                            1int
                        } else {
                            0int
                        }) + 2 * (if cnv {
                            1int
                        } else {
                            0int
                        }) == (if bv {
                            1int
                        } else {
                            0int
                        }) + (if av {
                            1int
                        } else {
                            0int
                        }) + (if cv {
                            1int
                        } else {
                            0int
                        }));
                    }
                }
            }
            proof {
                let mq = *self;
                assert forall|a: spec_fn(u32) -> Seq<bool>|
                    mq.assignment_ok(a) implies to_nat(#[trigger] bits_val(mq, res@, a)) == (
                to_nat(bits_val(mq, x@, a)) * to_nat(bits_val(mq, y@.take(i + 1), a))) % pow2(
                    n as nat,
                ) by {
                    lemma_assignment_frame(mc, mq, a);
                    lemma_bits_val_frame(mc, mq, rowpre, a);
                    lemma_bits_val_frame(m0, mc, x@, a);
                    lemma_bits_val_frame(m0, mq, x@, a);
                    assert(m0.all_valid(y@.take(i as int))) by {
                        assert forall|l: int|
                            0 <= l < y@.take(i as int).len() implies m0.valid(
                            #[trigger] y@.take(i as int)[l],
                        ) by {
                            assert(y@.take(i as int)[l] == y@[l]);
                        }
                    }
                    lemma_bits_val_frame(m0, mc, y@.take(i as int), a);
                    lemma_bits_val_frame(m0, mq, y@.take(i as int), a);
                    let xv = bits_val(mq, x@, a);
                    let rp = bits_val(mc, rowpre, a);
                    let ti = to_nat(bits_val(mq, y@.take(i as int), a));
                    let yvi = mc.eval(y@[i as int], a)[0];
                    lemma_eval_frame(m0, mc, y@[i as int], a);
                    lemma_eval_frame(m0, mq, y@[i as int], a);
                    let newbits = bits_val(mq, res@, a);
                    let ad = row_addend(mc, x@, y@[i as int], i as int, n as nat, a);
                    assert(newbits.take(n as int) =~= newbits);
                    assert(rp.take(n as int) =~= rp);
                    let cvf = mq.eval(c, a)[0];
                    assert(to_nat(newbits) + (if cvf {
                        pow2(n as nat)
                    } else {
                        0nat
                    }) == to_nat(rp) + to_nat(ad));
                    // the row addend is the shifted partial product
                    assert(ad =~= (if yvi {
                        crate::semantics::shl_by(bits_val(mc, x@, a), i as nat)
                    } else {
                        Seq::new(n as nat, |l: int| false)
                    })) by {
                        assert(bits_val(mc, x@, a) =~= xv);
                    }
                    let m = pow2(n as nat);
                    vstd::arithmetic::power2::lemma_pow2_pos(n as nat);
                    crate::semantics::lemma_to_nat_bound(newbits);
                    crate::semantics::lemma_to_nat_bound(xv);
                    if yvi {
                        crate::semantics::lemma_to_nat_shl(xv, i as int);
                        assert(bits_val(mc, x@, a) =~= xv);
                        assert(to_nat(ad) == (to_nat(xv) * pow2(i as nat)) % m);
                    } else {
                        crate::semantics::lemma_to_nat_zero(ad);
                    }
                    // the unsigned value of the shift amount grows by the new bit
                    let ytk = bits_val(mq, y@.take(i as int), a);
                    let ytk1 = bits_val(mq, y@.take(i + 1), a);
                    assert(ytk1 =~= ytk.push(yvi)) by {
                        assert forall|l: int| 0 <= l < i + 1 implies #[trigger] ytk1[l] == (
                        if l < i {
                            ytk[l]
                        } else {
                            yvi
                        }) by {
                            assert(y@.take(i + 1)[l] == y@[l]);
                            if l < i {
                                assert(y@.take(i as int)[l] == y@[l]);
                            }
                        }
                    }
                    crate::semantics::lemma_to_nat_snoc(ytk, yvi);
                    assert(ytk.len() == i);
                    let tnext = to_nat(ytk1);
                    let xn = to_nat(xv);
                    // modular bookkeeping: drop the final carry, then fold the
                    // row into the running product
                    assert(to_nat(newbits) == (to_nat(rp) + to_nat(ad)) % m) by {
                        if cvf {
                            assert((m as int * 1 + to_nat(newbits) as int) % (m as int)
                                == to_nat(newbits) as int % (m as int)) by {
                                vstd::arithmetic::div_mod::lemma_mod_multiples_vanish(
                                    1int,
                                    to_nat(newbits) as int,
                                    m as int,
                                );
                            }
                            vstd::arithmetic::div_mod::lemma_small_mod(to_nat(newbits), m);
                        } else {
                            vstd::arithmetic::div_mod::lemma_small_mod(to_nat(newbits), m);
                        }
                    }
                    assert((to_nat(rp) + to_nat(ad)) % m == (xn * ti + (if yvi {
                        xn * pow2(i as nat)
                    } else {
                        0nat
                    })) % m) by {
                        vstd::arithmetic::div_mod::lemma_add_mod_noop(
                            (xn * ti) as int,
                            (if yvi {
                                xn * pow2(i as nat)
                            } else {
                                0nat
                            }) as int,
                            m as int,
                        );
                        assert(to_nat(rp) == (xn * ti) % m);
                        if yvi {
                            assert(to_nat(ad) == (xn * pow2(i as nat)) % m);
                        } else {
                            assert(to_nat(ad) == 0);
                            vstd::arithmetic::div_mod::lemma_small_mod(0nat, m);
                        }
                        vstd::arithmetic::div_mod::lemma_mod_twice(
                            ((xn * ti) as int + (if yvi {
                                xn * pow2(i as nat)
                            } else {
                                0nat
                            }) as int),
                            m as int,
                        );
                        vstd::arithmetic::div_mod::lemma_add_mod_noop(
                            ((xn * ti) % m) as int,
                            ((if yvi {
                                xn * pow2(i as nat)
                            } else {
                                0nat
                            }) % m) as int,
                            m as int,
                        );
                        if yvi {
                            vstd::arithmetic::div_mod::lemma_mod_twice(
                                (xn * pow2(i as nat)) as int,
                                m as int,
                            );
                        }
                    }
                    assert(xn * ti + (if yvi {
                        xn * pow2(i as nat)
                    } else {
                        0nat
                    }) == xn * tnext) by (nonlinear_arith)
                        requires tnext == ti + (if yvi { pow2(i as nat) } else { 0nat });
                }
            }
        }
        proof {
            assert(y@.take(n as int) =~= y@);
        }
        res
    }
}

/// The number of shift-amount bits a barrel shifter of width `x` needs:
/// the least `r` with `2^r >= x`.
#[verifier::loop_isolation(false)]
pub fn get_shift_size(x: usize) -> (r: usize)
    requires
        x <= 0x1000_0000,
    ensures
        x <= pow2(r as nat),
        r == 0 || pow2((r - 1) as nat) < x,
        r <= 28,
{
    let mut pow2v: usize = 1;
    let mut res: usize = 0;
    proof {
        assert(pow2(0) == 1) by {
            vstd::arithmetic::power2::lemma2_to64();
        }
        assert(pow2(28) == 0x1000_0000) by {
            vstd::arithmetic::power2::lemma2_to64();
        }
    }
    while pow2v < x
        invariant
            pow2v as nat == pow2(res as nat),
            res == 0 || pow2((res - 1) as nat) < x,
            res <= 28,
        decreases 28 - res,
    {
        proof {
            if res >= 28 {
                vstd::arithmetic::power2::lemma_pow2_strictly_increases(28, res as nat);
                assert(false);
            }
            vstd::arithmetic::power2::lemma_pow2_unfold((res + 1) as nat);
        }
        pow2v = pow2v * 2;
        res = res + 1;
    }
    res
}

/// `n` itself is below `2^n`.
proof fn lemma_nat_lt_pow2(n: nat)
    ensures
        n < pow2(n),
    decreases n,
{
    if n == 0 {
        assert(pow2(0) == 1) by {
            vstd::arithmetic::power2::lemma2_to64();
        }
    } else {
        lemma_nat_lt_pow2((n - 1) as nat);
        vstd::arithmetic::power2::lemma_pow2_unfold(n);
    }
}

impl TermManager {
    /// The bits of a machine integer as boolean constant terms, LSB
    /// first: the terms mean exactly the low `width` bits of `value`,
    /// under every assignment.
    #[verifier::loop_isolation(false)]
    fn usize_bits(&mut self, width: usize, value: usize) -> (r: Vec<Term>)
        requires
            old(self).wf(),
        ensures
            final(self).wf(),
            final(self).extends_novar(*old(self)),
            all_bool(*final(self), r@),
            r@.len() == width,
            forall|a: spec_fn(u32) -> Seq<bool>| #[trigger]
                bits_val(*final(self), r@, a) == crate::semantics::nat_to_bits(
                    value as nat,
                    width as nat,
                ),
    {
        let ghost m0 = *self;
        let mut cur = value;
        let mut out: Vec<Term> = Vec::new();
        for k in 0..width
            invariant
                self.wf(),
                self.extends_novar(m0),
                out@.len() == k,
                all_bool(*self, out@),
                forall|a: spec_fn(u32) -> Seq<bool>| #[trigger]
                    bits_val(*self, out@, a) + crate::semantics::nat_to_bits(
                        cur as nat,
                        (width - k) as nat,
                    ) == crate::semantics::nat_to_bits(value as nat, width as nat),
        {
            let ghost mp = *self;
            let ghost curp = cur;
            let ghost outp = out@;
            let bit = cur % 2 == 1;
            cur = cur / 2;
            let t = self.bool_const(bit);
            out.push(t);
            proof {
                lemma_extends_novar_trans(m0, mp, *self);
                lemma_all_bool_frame(out@.drop_last(), mp, *self);
                assert(out@.drop_last() =~= out@.take(out@.len() - 1));
                assert forall|a: spec_fn(u32) -> Seq<bool>| #[trigger]
                    bits_val(*self, out@, a) + crate::semantics::nat_to_bits(
                        cur as nat,
                        (width - k - 1) as nat,
                    ) == crate::semantics::nat_to_bits(value as nat, width as nat) by {
                    lemma_bits_val_frame(mp, *self, outp, a);
                    assert(bits_val(mp, outp, a) + crate::semantics::nat_to_bits(
                        curp as nat,
                        (width - k) as nat,
                    ) == crate::semantics::nat_to_bits(value as nat, width as nat));
                    assert(out@.drop_last() =~= outp);
                    assert(bits_val(*self, out@, a) =~= bits_val(mp, outp, a).push(bit));
                    assert(crate::semantics::nat_to_bits(curp as nat, (width - k) as nat)
                        == seq![curp as nat % 2 == 1] + crate::semantics::nat_to_bits(
                        curp as nat / 2,
                        (width - k - 1) as nat,
                    ));
                    assert(bit == (curp as nat % 2 == 1));
                    assert(cur as nat == curp as nat / 2);
                    assert(bits_val(mp, outp, a).push(bit) + crate::semantics::nat_to_bits(
                        cur as nat,
                        (width - k - 1) as nat,
                    ) =~= bits_val(mp, outp, a) + crate::semantics::nat_to_bits(
                        curp as nat,
                        (width - k) as nat,
                    ));
                }
            }
        }
        proof {
            assert forall|a: spec_fn(u32) -> Seq<bool>| #[trigger]
                bits_val(*self, out@, a) == crate::semantics::nat_to_bits(
                value as nat,
                width as nat,
            ) by {
                assert(crate::semantics::nat_to_bits(cur as nat, 0) =~= Seq::empty());
                assert(bits_val(*self, out@, a) + Seq::empty() =~= bits_val(*self, out@, a));
            }
        }
        out
    }

    /// The logical-shift-left barrel network: for each shift-amount bit,
    /// multiplex between shifted and unshifted positions, then clamp to
    /// zero when the amount reaches the width. The output pattern means
    /// exactly the logical left shift of the first operand pattern by the
    /// unsigned value of the second, for every assignment.
    #[verifier::loop_isolation(false)]
    #[verifier::rlimit(100)]
    fn sll_bits(&mut self, x: &Vec<Term>, y: &Vec<Term>) -> (r: Vec<Term>)
        requires
            old(self).wf(),
            all_bool(*old(self), x@),
            all_bool(*old(self), y@),
            x@.len() == y@.len(),
            0 < x@.len() <= 0x1000_0000,
        ensures
            final(self).wf(),
            final(self).extends_novar(*old(self)),
            all_bool(*final(self), r@),
            r@.len() == x@.len(),
            forall|a: spec_fn(u32) -> Seq<bool>|
                final(self).assignment_ok(a) ==> #[trigger] bits_val(*final(self), r@, a)
                    == crate::semantics::bv_sll(
                    bits_val(*final(self), x@, a),
                    bits_val(*final(self), y@, a),
                ),
    {
        let ghost m0 = *self;
        let n = x.len();
        if n == 1 {
            let t = self.and_not_bit(y[0], x[0]);
            let mut out: Vec<Term> = Vec::new();
            out.push(t);
            proof {
                let mf = *self;
                assert(all_bool(mf, out@));
                assert forall|a: spec_fn(u32) -> Seq<bool>|
                    mf.assignment_ok(a) implies #[trigger] bits_val(mf, out@, a)
                    == crate::semantics::bv_sll(bits_val(mf, x@, a), bits_val(mf, y@, a)) by {
                    lemma_assignment_frame(m0, mf, a);
                    lemma_eval_frame(m0, mf, x@[0], a);
                    lemma_eval_frame(m0, mf, y@[0], a);
                    lemma_eval_len(m0, x@[0], a);
                    lemma_eval_len(m0, y@[0], a);
                    let xv = bits_val(mf, x@, a);
                    let yv = bits_val(mf, y@, a);
                    assert(xv =~= seq![m0.eval(x@[0], a)[0]]);
                    assert(yv =~= seq![m0.eval(y@[0], a)[0]]);
                    assert(yv.skip(1) =~= Seq::<bool>::empty());
                    assert(to_nat(Seq::<bool>::empty()) == 0);
                    assert(to_nat(yv) == (if yv[0] {
                        1nat
                    } else {
                        0nat
                    }));
                    assert(bits_val(mf, out@, a) =~= crate::semantics::bv_sll(xv, yv));
                }
            }
            return out;
        }
        let ss = get_shift_size(n);
        proof {
            if ss > 0 {
                lemma_nat_lt_pow2((ss - 1) as nat);
            }
        }
        let mut res = copy_terms(x);
        proof {
            assert forall|a: spec_fn(u32) -> Seq<bool>|
                self.assignment_ok(a) implies #[trigger] bits_val(*self, res@, a)
                == crate::semantics::shl_by(
                bits_val(*self, x@, a),
                to_nat(bits_val(*self, y@.take(0), a)),
            ) by {
                assert(bits_val(*self, y@.take(0), a) =~= Seq::<bool>::empty());
                assert(to_nat(Seq::<bool>::empty()) == 0);
                assert(bits_val(*self, res@, a) =~= crate::semantics::shl_by(
                    bits_val(*self, x@, a),
                    0,
                ));
            }
        }
        for sb in 0..ss
            invariant
                self.wf(),
                self.extends_novar(m0),
                res@.len() == n,
                all_bool(*self, res@),
                ss <= n,
                forall|a: spec_fn(u32) -> Seq<bool>|
                    self.assignment_ok(a) ==> #[trigger] bits_val(*self, res@, a)
                        == crate::semantics::shl_by(
                        bits_val(*self, x@, a),
                        to_nat(bits_val(*self, y@.take(sb as int), a)),
                    ),
        {
            proof {
                if sb + 1 <= ss - 1 {
                    vstd::arithmetic::power2::lemma_pow2_strictly_increases(
                        sb as nat,
                        (ss - 1) as nat,
                    );
                }
                lemma_nat_lt_pow2(sb as nat);
                shl_is_pow2(sb as nat);
            }
            let step = 1usize << sb;
            let shift = y[sb];
            let prev = copy_terms(&res);
            let ghost ms = *self;
            for j in 0..step
                invariant
                    self.wf(),
                    self.extends_novar(m0),
                    self.extends_novar(ms),
                    res@.len() == n,
                    prev@.len() == n,
                    all_bool(*self, res@),
                    all_bool(ms, prev@),
                    step as nat == pow2(sb as nat),
                    step < n,
                    sb < y@.len(),
                    forall|l: int| j <= l < n ==> res@[l] == prev@[l],
                    forall|a: spec_fn(u32) -> Seq<bool>, l: int|
                        self.assignment_ok(a) && 0 <= l < j ==> #[trigger] self.eval(
                            res@[l],
                            a,
                        ) == seq![!ms.eval(shift, a)[0] && ms.eval(prev@[l], a)[0]],
                    forall|a: spec_fn(u32) -> Seq<bool>|
                        ms.assignment_ok(a) ==> #[trigger] bits_val(ms, prev@, a)
                            == crate::semantics::shl_by(
                            bits_val(ms, x@, a),
                            to_nat(bits_val(ms, y@.take(sb as int), a)),
                        ),
            {
                let ghost mp = *self;
                let pj = prev[j];
                proof {
                    assert(mp.nodes@[shift.id as int] == m0.nodes@[shift.id as int]);
                    assert(mp.nodes@[pj.id as int] == ms.nodes@[pj.id as int]);
                }
                let t = self.and_not_bit(shift, pj);
                res.set(j, t);
                proof {
                    lemma_extends_novar_trans(m0, mp, *self);
                    lemma_extends_novar_trans(ms, mp, *self);
                    lemma_set_keeps_all_bool(mp, *self, res@, j as int, t);
                    assert forall|a: spec_fn(u32) -> Seq<bool>, l: int|
                        self.assignment_ok(a) && 0 <= l < j + 1 implies #[trigger] self.eval(
                        res@[l],
                        a,
                    ) == seq![!ms.eval(shift, a)[0] && ms.eval(prev@[l], a)[0]] by {
                        lemma_assignment_frame(mp, *self, a);
                        lemma_assignment_frame(ms, mp, a);
                        if l < j {
                            lemma_eval_frame(mp, *self, res@[l], a);
                        } else {
                            lemma_eval_frame(ms, mp, shift, a);
                            lemma_eval_frame(ms, mp, prev@[l], a);
                        }
                    }
                }
            }
            for j in step..n
                invariant
                    self.wf(),
                    self.extends_novar(m0),
                    self.extends_novar(ms),
                    res@.len() == n,
                    prev@.len() == n,
                    all_bool(*self, res@),
                    all_bool(ms, prev@),
                    step as nat == pow2(sb as nat),
                    step < n,
                    sb < y@.len(),
                    forall|l: int| j <= l < n ==> res@[l] == prev@[l],
                    forall|a: spec_fn(u32) -> Seq<bool>, l: int|
                        self.assignment_ok(a) && 0 <= l < step ==> #[trigger] self.eval(
                            res@[l],
                            a,
                        ) == seq![!ms.eval(shift, a)[0] && ms.eval(prev@[l], a)[0]],
                    forall|a: spec_fn(u32) -> Seq<bool>, l: int|
                        self.assignment_ok(a) && step <= l < j ==> #[trigger] self.eval(
                            res@[l],
                            a,
                        ) == seq![
                            if ms.eval(shift, a)[0] {
                                ms.eval(prev@[l - step], a)[0]
                            } else {
                                ms.eval(prev@[l], a)[0]
                            },
                        ],
                    forall|a: spec_fn(u32) -> Seq<bool>|
                        ms.assignment_ok(a) ==> #[trigger] bits_val(ms, prev@, a)
                            == crate::semantics::shl_by(
                            bits_val(ms, x@, a),
                            to_nat(bits_val(ms, y@.take(sb as int), a)),
                        ),
            {
                let ghost mp = *self;
                let hi = prev[j - step];
                let lo = prev[j];
                proof {
                    assert(mp.nodes@[shift.id as int] == m0.nodes@[shift.id as int]);
                    assert(mp.nodes@[hi.id as int] == ms.nodes@[hi.id as int]);
                    assert(mp.nodes@[lo.id as int] == ms.nodes@[lo.id as int]);
                }
                let t = self.mux_bit(shift, hi, lo);
                res.set(j, t);
                proof {
                    lemma_extends_novar_trans(m0, mp, *self);
                    lemma_extends_novar_trans(ms, mp, *self);
                    lemma_set_keeps_all_bool(mp, *self, res@, j as int, t);
                    assert forall|a: spec_fn(u32) -> Seq<bool>, l: int|
                        self.assignment_ok(a) && 0 <= l < j + 1 && l >= step implies #[trigger]
                    self.eval(res@[l], a) == seq![
                        if ms.eval(shift, a)[0] {
                            ms.eval(prev@[l - step], a)[0]
                        } else {
                            ms.eval(prev@[l], a)[0]
                        },
                    ] by {
                        lemma_assignment_frame(mp, *self, a);
                        lemma_assignment_frame(ms, mp, a);
                        if l < j {
                            lemma_eval_frame(mp, *self, res@[l], a);
                        } else {
                            lemma_eval_frame(ms, mp, shift, a);
                            lemma_eval_frame(ms, mp, prev@[l - step], a);
                            lemma_eval_frame(ms, mp, prev@[l], a);
                        }
                    }
                    assert forall|a: spec_fn(u32) -> Seq<bool>, l: int|
                        self.assignment_ok(a) && 0 <= l < step implies #[trigger] self.eval(
                        res@[l],
                        a,
                    ) == seq![!ms.eval(shift, a)[0] && ms.eval(prev@[l], a)[0]] by {
                        lemma_assignment_frame(mp, *self, a);
                        lemma_eval_frame(mp, *self, res@[l], a);
                    }
                }
            }
            proof {
                let mq = *self;
                assert forall|a: spec_fn(u32) -> Seq<bool>|
                    mq.assignment_ok(a) implies #[trigger] bits_val(mq, res@, a)
                    == crate::semantics::shl_by(
                    bits_val(mq, x@, a),
                    to_nat(bits_val(mq, y@.take(sb + 1), a)),
                ) by {
                    lemma_assignment_frame(ms, mq, a);
                    lemma_bits_val_frame(ms, mq, prev@, a);
                    lemma_bits_val_frame(m0, ms, x@, a);
                    lemma_bits_val_frame(m0, mq, x@, a);
                    assert(m0.all_valid(y@.take(sb as int))) by {
                        assert forall|l: int|
                            0 <= l < y@.take(sb as int).len() implies m0.valid(
                            #[trigger] y@.take(sb as int)[l],
                        ) by {
                            assert(y@.take(sb as int)[l] == y@[l]);
                        }
                    }
                    lemma_bits_val_frame(m0, ms, y@.take(sb as int), a);
                    lemma_bits_val_frame(m0, mq, y@.take(sb as int), a);
                    let xv = bits_val(mq, x@, a);
                    let pv = bits_val(ms, prev@, a);
                    let ytk = bits_val(mq, y@.take(sb as int), a);
                    let sv = ms.eval(shift, a)[0];
                    lemma_eval_frame(ms, mq, shift, a);
                    lemma_eval_frame(m0, ms, shift, a);
                    assert(pv == crate::semantics::shl_by(xv, to_nat(ytk)));
                    let target = if sv {
                        crate::semantics::shl_by(pv, step as nat)
                    } else {
                        pv
                    };
                    assert forall|l: int|
                        0 <= l < n implies #[trigger] bits_val(mq, res@, a)[l] == target[l] by {
                        assert(bits_val(mq, res@, a)[l] == mq.eval(res@[l], a)[0]);
                        if l < step {
                            assert(mq.eval(res@[l], a) == seq![!sv && ms.eval(prev@[l], a)[0]]);
                            assert(pv[l] == ms.eval(prev@[l], a)[0]);
                        } else {
                            assert(mq.eval(res@[l], a) == seq![
                                if sv {
                                    ms.eval(prev@[l - step], a)[0]
                                } else {
                                    ms.eval(prev@[l], a)[0]
                                },
                            ]);
                            assert(pv[l] == ms.eval(prev@[l], a)[0]);
                            assert(pv[l - step] == ms.eval(prev@[l - step], a)[0]);
                        }
                    }
                    assert(bits_val(mq, res@, a) =~= target);
                    let ytk1 = bits_val(mq, y@.take(sb + 1), a);
                    assert(ytk1 =~= ytk.push(sv)) by {
                        assert forall|l: int| 0 <= l < sb + 1 implies #[trigger] ytk1[l] == (
                        if l < sb {
                            ytk[l]
                        } else {
                            sv
                        }) by {
                            assert(y@.take(sb + 1)[l] == y@[l]);
                            if l < sb {
                                assert(y@.take(sb as int)[l] == y@[l]);
                            } else {
                                assert(y@[l] == shift);
                            }
                        }
                    }
                    crate::semantics::lemma_to_nat_snoc(ytk, sv);
                    if sv {
                        crate::semantics::lemma_shl_compose(xv, to_nat(ytk), step as nat);
                        assert(ytk.len() == sb);
                        assert(to_nat(ytk1) == to_nat(ytk) + pow2(sb as nat));
                    } else {
                        assert(to_nat(ytk1) == to_nat(ytk));
                    }
                }
            }
        }
        let ghost me = *self;
        let wb = self.usize_bits(n, n);
        let ghost m2 = *self;
        let less = self.ult_bits(y, &wb);
        let ghost m3 = *self;
        let f = self.bool_const(false);
        let ghost m4 = *self;
        let ghost pre = res@;
        proof {
            lemma_extends_novar_trans(m0, me, m2);
            lemma_extends_novar_trans(m0, m2, m3);
            lemma_extends_novar_trans(m0, m3, m4);
            lemma_extends_novar_trans(me, m2, m3);
            lemma_extends_novar_trans(me, m3, m4);
            lemma_extends_novar_trans(m2, m3, m4);
            lemma_all_bool_frame(res@, me, m4);
        }
        for j in 0..n
            invariant
                self.wf(),
                self.extends_novar(m0),
                self.extends_novar(m4),
                res@.len() == n,
                pre.len() == n,
                all_bool(*self, res@),
                all_bool(m4, pre),
                self.valid(less),
                self.sort_of(less) == Sort::Bv(1usize),
                self.valid(f),
                self.sort_of(f) == Sort::Bv(1usize),
                forall|l: int| j <= l < n ==> res@[l] == pre[l],
                forall|a: spec_fn(u32) -> Seq<bool>, l: int|
                    self.assignment_ok(a) && 0 <= l < j ==> #[trigger] self.eval(res@[l], a)
                        == seq![m4.eval(less, a)[0] && m4.eval(pre[l], a)[0]],
        {
            let ghost mp = *self;
            let rj = res[j];
            proof {
                assert(res@[j as int] == pre[j as int]);
                assert(m4.valid(pre[j as int]) && m4.sort_of(pre[j as int]) == Sort::Bv(1usize));
                assert(mp.nodes@[less.id as int] == m4.nodes@[less.id as int]);
                assert(mp.nodes@[rj.id as int] == m4.nodes@[rj.id as int]);
            }
            let t = self.mux_bit(less, rj, f);
            res.set(j, t);
            proof {
                lemma_extends_novar_trans(m0, mp, *self);
                lemma_extends_novar_trans(m4, mp, *self);
                lemma_set_keeps_all_bool(mp, *self, res@, j as int, t);
                assert forall|a: spec_fn(u32) -> Seq<bool>, l: int|
                    self.assignment_ok(a) && 0 <= l < j + 1 implies #[trigger] self.eval(
                    res@[l],
                    a,
                ) == seq![m4.eval(less, a)[0] && m4.eval(pre[l], a)[0]] by {
                    lemma_assignment_frame(mp, *self, a);
                    lemma_assignment_frame(m4, mp, a);
                    if l < j {
                        lemma_eval_frame(mp, *self, res@[l], a);
                    } else {
                        lemma_eval_frame(m4, mp, less, a);
                        lemma_eval_frame(m4, mp, pre[l], a);
                        assert(mp.eval(f, a) == seq![false]) by {
                            lemma_eval_frame(m4, mp, f, a);
                        }
                    }
                }
            }
        }
        proof {
            let mf = *self;
            assert forall|a: spec_fn(u32) -> Seq<bool>|
                mf.assignment_ok(a) implies #[trigger] bits_val(mf, res@, a)
                == crate::semantics::bv_sll(bits_val(mf, x@, a), bits_val(mf, y@, a)) by {
                lemma_assignment_frame(m4, mf, a);
                lemma_assignment_frame(me, m4, a);
                lemma_assignment_frame(m0, me, a);
                lemma_assignment_frame(me, m2, a);
                lemma_assignment_frame(m2, m3, a);
                lemma_assignment_frame(m3, m4, a);
                lemma_bits_val_frame(m0, mf, x@, a);
                lemma_bits_val_frame(m0, me, x@, a);
                lemma_bits_val_frame(m0, mf, y@, a);
                lemma_bits_val_frame(m0, m2, y@, a);
                lemma_bits_val_frame(me, m4, pre, a);
                let xv = bits_val(mf, x@, a);
                let yv = bits_val(mf, y@, a);
                let sh = to_nat(yv);
                // the width constant and the clamp condition
                assert(bits_val(m2, wb@, a) == crate::semantics::nat_to_bits(
                    n as nat,
                    n as nat,
                ));
                crate::semantics::lemma_bits_to_nat_of(n as nat, n as nat);
                lemma_nat_lt_pow2(n as nat);
                vstd::arithmetic::div_mod::lemma_small_mod(n as nat, pow2(n as nat));
                lemma_bits_val_frame(m2, m3, wb@, a);
                lemma_bits_val_frame(m0, m2, y@, a);
                lemma_bits_val_frame(m2, m3, y@, a);
                assert(m3.eval(less, a) == seq![sh < n]);
                // the pre-clamp pattern: the shift by the decoded amount
                assert(m0.all_valid(y@.take(ss as int))) by {
                    assert forall|l: int|
                        0 <= l < y@.take(ss as int).len() implies m0.valid(
                        #[trigger] y@.take(ss as int)[l],
                    ) by {
                        assert(y@.take(ss as int)[l] == y@[l]);
                    }
                }
                lemma_bits_val_frame(m0, me, y@.take(ss as int), a);
                lemma_bits_val_frame(m0, mf, y@.take(ss as int), a);
                let ytk = bits_val(mf, y@.take(ss as int), a);
                assert(bits_val(me, pre, a) == crate::semantics::shl_by(
                    bits_val(me, x@, a),
                    to_nat(bits_val(me, y@.take(ss as int), a)),
                ));
                assert(ytk =~= yv.take(ss as int)) by {
                    assert forall|l: int| 0 <= l < ss implies #[trigger] ytk[l] == yv.take(
                        ss as int,
                    )[l] by {
                        assert(y@.take(ss as int)[l] == y@[l]);
                    }
                }
                assert forall|l: int|
                    0 <= l < n implies #[trigger] bits_val(mf, res@, a)[l]
                    == crate::semantics::bv_sll(xv, yv)[l] by {
                    assert(bits_val(mf, res@, a)[l] == mf.eval(res@[l], a)[0]);
                    assert(mf.eval(res@[l], a) == seq![
                        m4.eval(less, a)[0] && m4.eval(pre[l], a)[0],
                    ]);
                    lemma_eval_frame(m3, m4, less, a);
                    assert(m4.eval(less, a)[0] == (sh < n));
                    assert(m4.eval(pre[l], a)[0] == bits_val(me, pre, a)[l]) by {
                        lemma_eval_frame(me, m4, pre[l], a);
                    }
                    if sh < n {
                        crate::semantics::lemma_to_nat_take(yv, ss as int);
                        assert(to_nat(ytk) == sh);
                        assert(bits_val(me, pre, a)[l] == crate::semantics::shl_by(xv, sh)[l]);
                    }
                }
                assert(bits_val(mf, res@, a) =~= crate::semantics::bv_sll(xv, yv));
            }
        }
        res
    }

    /// The logical-shift-right barrel network. The output pattern means
    /// exactly the logical right shift of the first operand pattern by
    /// the unsigned value of the second, for every assignment.
    #[verifier::loop_isolation(false)]
    #[verifier::rlimit(100)]
    fn srl_bits(&mut self, x: &Vec<Term>, y: &Vec<Term>) -> (r: Vec<Term>)
        requires
            old(self).wf(),
            all_bool(*old(self), x@),
            all_bool(*old(self), y@),
            x@.len() == y@.len(),
            0 < x@.len() <= 0x1000_0000,
        ensures
            final(self).wf(),
            final(self).extends_novar(*old(self)),
            all_bool(*final(self), r@),
            r@.len() == x@.len(),
            forall|a: spec_fn(u32) -> Seq<bool>|
                final(self).assignment_ok(a) ==> #[trigger] bits_val(*final(self), r@, a)
                    == crate::semantics::bv_srl(
                    bits_val(*final(self), x@, a),
                    bits_val(*final(self), y@, a),
                ),
    {
        let ghost m0 = *self;
        let n = x.len();
        if n == 1 {
            let t = self.and_not_bit(y[0], x[0]);
            let mut out: Vec<Term> = Vec::new();
            out.push(t);
            proof {
                let mf = *self;
                assert(all_bool(mf, out@));
                assert forall|a: spec_fn(u32) -> Seq<bool>|
                    mf.assignment_ok(a) implies #[trigger] bits_val(mf, out@, a)
                    == crate::semantics::bv_srl(bits_val(mf, x@, a), bits_val(mf, y@, a)) by {
                    lemma_assignment_frame(m0, mf, a);
                    lemma_eval_frame(m0, mf, x@[0], a);
                    lemma_eval_frame(m0, mf, y@[0], a);
                    lemma_eval_len(m0, x@[0], a);
                    lemma_eval_len(m0, y@[0], a);
                    let xv = bits_val(mf, x@, a);
                    let yv = bits_val(mf, y@, a);
                    assert(xv =~= seq![m0.eval(x@[0], a)[0]]);
                    assert(yv =~= seq![m0.eval(y@[0], a)[0]]);
                    assert(yv.skip(1) =~= Seq::<bool>::empty());
                    assert(to_nat(Seq::<bool>::empty()) == 0);
                    assert(to_nat(yv) == (if yv[0] {
                        1nat
                    } else {
                        0nat
                    }));
                    assert(bits_val(mf, out@, a) =~= crate::semantics::bv_srl(xv, yv));
                }
            }
            return out;
        }
        let ss = get_shift_size(n);
        proof {
            if ss > 0 {
                lemma_nat_lt_pow2((ss - 1) as nat);
            }
        }
        let mut res = copy_terms(x);
        proof {
            assert forall|a: spec_fn(u32) -> Seq<bool>|
                self.assignment_ok(a) implies #[trigger] bits_val(*self, res@, a)
                == crate::semantics::srl_by(
                bits_val(*self, x@, a),
                to_nat(bits_val(*self, y@.take(0), a)),
            ) by {
                assert(bits_val(*self, y@.take(0), a) =~= Seq::<bool>::empty());
                assert(to_nat(Seq::<bool>::empty()) == 0);
                assert(bits_val(*self, res@, a) =~= crate::semantics::srl_by(
                    bits_val(*self, x@, a),
                    0,
                ));
            }
        }
        for sb in 0..ss
            invariant
                self.wf(),
                self.extends_novar(m0),
                res@.len() == n,
                all_bool(*self, res@),
                ss <= n,
                forall|a: spec_fn(u32) -> Seq<bool>|
                    self.assignment_ok(a) ==> #[trigger] bits_val(*self, res@, a)
                        == crate::semantics::srl_by(
                        bits_val(*self, x@, a),
                        to_nat(bits_val(*self, y@.take(sb as int), a)),
                    ),
        {
            proof {
                if sb + 1 <= ss - 1 {
                    vstd::arithmetic::power2::lemma_pow2_strictly_increases(
                        sb as nat,
                        (ss - 1) as nat,
                    );
                }
                lemma_nat_lt_pow2(sb as nat);
                shl_is_pow2(sb as nat);
            }
            let step = 1usize << sb;
            let shift = y[sb];
            let prev = copy_terms(&res);
            let ghost ms = *self;
            for j in 0..n - step
                invariant
                    self.wf(),
                    self.extends_novar(m0),
                    self.extends_novar(ms),
                    res@.len() == n,
                    prev@.len() == n,
                    all_bool(*self, res@),
                    all_bool(ms, prev@),
                    step as nat == pow2(sb as nat),
                    step < n,
                    sb < y@.len(),
                    forall|l: int| j <= l < n ==> res@[l] == prev@[l],
                    forall|a: spec_fn(u32) -> Seq<bool>, l: int|
                        self.assignment_ok(a) && 0 <= l < j ==> #[trigger] self.eval(
                            res@[l],
                            a,
                        ) == seq![
                            if ms.eval(shift, a)[0] {
                                ms.eval(prev@[l + step], a)[0]
                            } else {
                                ms.eval(prev@[l], a)[0]
                            },
                        ],
                    forall|a: spec_fn(u32) -> Seq<bool>|
                        ms.assignment_ok(a) ==> #[trigger] bits_val(ms, prev@, a)
                            == crate::semantics::srl_by(
                            bits_val(ms, x@, a),
                            to_nat(bits_val(ms, y@.take(sb as int), a)),
                        ),
            {
                let ghost mp = *self;
                let hi = prev[j + step];
                let lo = prev[j];
                proof {
                    assert(mp.nodes@[shift.id as int] == m0.nodes@[shift.id as int]);
                    assert(mp.nodes@[hi.id as int] == ms.nodes@[hi.id as int]);
                    assert(mp.nodes@[lo.id as int] == ms.nodes@[lo.id as int]);
                }
                let t = self.mux_bit(shift, hi, lo);
                res.set(j, t);
                proof {
                    lemma_extends_novar_trans(m0, mp, *self);
                    lemma_extends_novar_trans(ms, mp, *self);
                    lemma_set_keeps_all_bool(mp, *self, res@, j as int, t);
                    assert forall|a: spec_fn(u32) -> Seq<bool>, l: int|
                        self.assignment_ok(a) && 0 <= l < j + 1 implies #[trigger] self.eval(
                        res@[l],
                        a,
                    ) == seq![
                        if ms.eval(shift, a)[0] {
                            ms.eval(prev@[l + step], a)[0]
                        } else {
                            ms.eval(prev@[l], a)[0]
                        },
                    ] by {
                        lemma_assignment_frame(mp, *self, a);
                        lemma_assignment_frame(ms, mp, a);
                        if l < j {
                            lemma_eval_frame(mp, *self, res@[l], a);
                        } else {
                            lemma_eval_frame(ms, mp, shift, a);
                            lemma_eval_frame(ms, mp, prev@[l + step], a);
                            lemma_eval_frame(ms, mp, prev@[l], a);
                        }
                    }
                }
            }
            for j in n - step..n
                invariant
                    self.wf(),
                    self.extends_novar(m0),
                    self.extends_novar(ms),
                    res@.len() == n,
                    prev@.len() == n,
                    all_bool(*self, res@),
                    all_bool(ms, prev@),
                    step as nat == pow2(sb as nat),
                    step < n,
                    sb < y@.len(),
                    forall|l: int| j <= l < n ==> res@[l] == prev@[l],
                    forall|a: spec_fn(u32) -> Seq<bool>, l: int|
                        self.assignment_ok(a) && 0 <= l < n - step ==> #[trigger] self.eval(
                            res@[l],
                            a,
                        ) == seq![
                            if ms.eval(shift, a)[0] {
                                ms.eval(prev@[l + step], a)[0]
                            } else {
                                ms.eval(prev@[l], a)[0]
                            },
                        ],
                    forall|a: spec_fn(u32) -> Seq<bool>, l: int|
                        self.assignment_ok(a) && n - step <= l < j ==> #[trigger] self.eval(
                            res@[l],
                            a,
                        ) == seq![!ms.eval(shift, a)[0] && ms.eval(prev@[l], a)[0]],
                    forall|a: spec_fn(u32) -> Seq<bool>|
                        ms.assignment_ok(a) ==> #[trigger] bits_val(ms, prev@, a)
                            == crate::semantics::srl_by(
                            bits_val(ms, x@, a),
                            to_nat(bits_val(ms, y@.take(sb as int), a)),
                        ),
            {
                let ghost mp = *self;
                let pj = prev[j];
                proof {
                    assert(mp.nodes@[shift.id as int] == m0.nodes@[shift.id as int]);
                    assert(mp.nodes@[pj.id as int] == ms.nodes@[pj.id as int]);
                }
                let t = self.and_not_bit(shift, pj);
                res.set(j, t);
                proof {
                    lemma_extends_novar_trans(m0, mp, *self);
                    lemma_extends_novar_trans(ms, mp, *self);
                    lemma_set_keeps_all_bool(mp, *self, res@, j as int, t);
                    assert forall|a: spec_fn(u32) -> Seq<bool>, l: int|
                        self.assignment_ok(a) && n - step <= l < j + 1 implies #[trigger]
                    self.eval(res@[l], a) == seq![
                        !ms.eval(shift, a)[0] && ms.eval(prev@[l], a)[0],
                    ] by {
                        lemma_assignment_frame(mp, *self, a);
                        lemma_assignment_frame(ms, mp, a);
                        if l < j {
                            lemma_eval_frame(mp, *self, res@[l], a);
                        } else {
                            lemma_eval_frame(ms, mp, shift, a);
                            lemma_eval_frame(ms, mp, prev@[l], a);
                        }
                    }
                    assert forall|a: spec_fn(u32) -> Seq<bool>, l: int|
                        self.assignment_ok(a) && 0 <= l < n - step implies #[trigger] self.eval(
                        res@[l],
                        a,
                    ) == seq![
                        if ms.eval(shift, a)[0] {
                            ms.eval(prev@[l + step], a)[0]
                        } else {
                            ms.eval(prev@[l], a)[0]
                        },
                    ] by {
                        lemma_assignment_frame(mp, *self, a);
                        lemma_eval_frame(mp, *self, res@[l], a);
                    }
                }
            }
            proof {
                let mq = *self;
                assert forall|a: spec_fn(u32) -> Seq<bool>|
                    mq.assignment_ok(a) implies #[trigger] bits_val(mq, res@, a)
                    == crate::semantics::srl_by(
                    bits_val(mq, x@, a),
                    to_nat(bits_val(mq, y@.take(sb + 1), a)),
                ) by {
                    lemma_assignment_frame(ms, mq, a);
                    lemma_bits_val_frame(ms, mq, prev@, a);
                    lemma_bits_val_frame(m0, ms, x@, a);
                    lemma_bits_val_frame(m0, mq, x@, a);
                    assert(m0.all_valid(y@.take(sb as int))) by {
                        assert forall|l: int|
                            0 <= l < y@.take(sb as int).len() implies m0.valid(
                            #[trigger] y@.take(sb as int)[l],
                        ) by {
                            assert(y@.take(sb as int)[l] == y@[l]);
                        }
                    }
                    lemma_bits_val_frame(m0, ms, y@.take(sb as int), a);
                    lemma_bits_val_frame(m0, mq, y@.take(sb as int), a);
                    let xv = bits_val(mq, x@, a);
                    let pv = bits_val(ms, prev@, a);
                    let ytk = bits_val(mq, y@.take(sb as int), a);
                    let sv = ms.eval(shift, a)[0];
                    lemma_eval_frame(ms, mq, shift, a);
                    lemma_eval_frame(m0, ms, shift, a);
                    assert(pv == crate::semantics::srl_by(xv, to_nat(ytk)));
                    let target = if sv {
                        crate::semantics::srl_by(pv, step as nat)
                    } else {
                        pv
                    };
                    assert forall|l: int|
                        0 <= l < n implies #[trigger] bits_val(mq, res@, a)[l] == target[l] by {
                        assert(bits_val(mq, res@, a)[l] == mq.eval(res@[l], a)[0]);
                        if l < n - step {
                            assert(mq.eval(res@[l], a) == seq![
                                if sv {
                                    ms.eval(prev@[l + step], a)[0]
                                } else {
                                    ms.eval(prev@[l], a)[0]
                                },
                            ]);
                            assert(pv[l] == ms.eval(prev@[l], a)[0]);
                            assert(pv[l + step] == ms.eval(prev@[l + step], a)[0]);
                        } else {
                            assert(mq.eval(res@[l], a) == seq![
                                !sv && ms.eval(prev@[l], a)[0],
                            ]);
                            assert(pv[l] == ms.eval(prev@[l], a)[0]);
                        }
                    }
                    assert(bits_val(mq, res@, a) =~= target);
                    let ytk1 = bits_val(mq, y@.take(sb + 1), a);
                    assert(ytk1 =~= ytk.push(sv)) by {
                        assert forall|l: int| 0 <= l < sb + 1 implies #[trigger] ytk1[l] == (
                        if l < sb {
                            ytk[l]
                        } else {
                            sv
                        }) by {
                            assert(y@.take(sb + 1)[l] == y@[l]);
                            if l < sb {
                                assert(y@.take(sb as int)[l] == y@[l]);
                            } else {
                                assert(y@[l] == shift);
                            }
                        }
                    }
                    crate::semantics::lemma_to_nat_snoc(ytk, sv);
                    if sv {
                        crate::semantics::lemma_srl_compose(xv, to_nat(ytk), step as nat);
                        assert(ytk.len() == sb);
                        assert(to_nat(ytk1) == to_nat(ytk) + pow2(sb as nat));
                    } else {
                        assert(to_nat(ytk1) == to_nat(ytk));
                    }
                }
            }
        }
        let ghost me = *self;
        let wb = self.usize_bits(n, n);
        let ghost m2 = *self;
        let less = self.ult_bits(y, &wb);
        let ghost m3 = *self;
        let f = self.bool_const(false);
        let ghost m4 = *self;
        let ghost pre = res@;
        proof {
            lemma_extends_novar_trans(m0, me, m2);
            lemma_extends_novar_trans(m0, m2, m3);
            lemma_extends_novar_trans(m0, m3, m4);
            lemma_extends_novar_trans(me, m2, m3);
            lemma_extends_novar_trans(me, m3, m4);
            lemma_extends_novar_trans(m2, m3, m4);
            lemma_all_bool_frame(res@, me, m4);
        }
        for j in 0..n
            invariant
                self.wf(),
                self.extends_novar(m0),
                self.extends_novar(m4),
                res@.len() == n,
                pre.len() == n,
                all_bool(*self, res@),
                all_bool(m4, pre),
                self.valid(less),
                self.sort_of(less) == Sort::Bv(1usize),
                self.valid(f),
                self.sort_of(f) == Sort::Bv(1usize),
                forall|l: int| j <= l < n ==> res@[l] == pre[l],
                forall|a: spec_fn(u32) -> Seq<bool>, l: int|
                    self.assignment_ok(a) && 0 <= l < j ==> #[trigger] self.eval(res@[l], a)
                        == seq![m4.eval(less, a)[0] && m4.eval(pre[l], a)[0]],
        {
            let ghost mp = *self;
            let rj = res[j];
            proof {
                assert(res@[j as int] == pre[j as int]);
                assert(m4.valid(pre[j as int]) && m4.sort_of(pre[j as int]) == Sort::Bv(1usize));
                assert(mp.nodes@[less.id as int] == m4.nodes@[less.id as int]);
                assert(mp.nodes@[rj.id as int] == m4.nodes@[rj.id as int]);
            }
            let t = self.mux_bit(less, rj, f);
            res.set(j, t);
            proof {
                lemma_extends_novar_trans(m0, mp, *self);
                lemma_extends_novar_trans(m4, mp, *self);
                lemma_set_keeps_all_bool(mp, *self, res@, j as int, t);
                assert forall|a: spec_fn(u32) -> Seq<bool>, l: int|
                    self.assignment_ok(a) && 0 <= l < j + 1 implies #[trigger] self.eval(
                    res@[l],
                    a,
                ) == seq![m4.eval(less, a)[0] && m4.eval(pre[l], a)[0]] by {
                    lemma_assignment_frame(mp, *self, a);
                    lemma_assignment_frame(m4, mp, a);
                    if l < j {
                        lemma_eval_frame(mp, *self, res@[l], a);
                    } else {
                        lemma_eval_frame(m4, mp, less, a);
                        lemma_eval_frame(m4, mp, pre[l], a);
                        assert(mp.eval(f, a) == seq![false]) by {
                            lemma_eval_frame(m4, mp, f, a);
                        }
                    }
                }
            }
        }
        proof {
            let mf = *self;
            assert forall|a: spec_fn(u32) -> Seq<bool>|
                mf.assignment_ok(a) implies #[trigger] bits_val(mf, res@, a)
                == crate::semantics::bv_srl(bits_val(mf, x@, a), bits_val(mf, y@, a)) by {
                lemma_assignment_frame(m4, mf, a);
                lemma_assignment_frame(me, m4, a);
                lemma_assignment_frame(m0, me, a);
                lemma_assignment_frame(me, m2, a);
                lemma_assignment_frame(m2, m3, a);
                lemma_assignment_frame(m3, m4, a);
                lemma_bits_val_frame(m0, mf, x@, a);
                lemma_bits_val_frame(m0, me, x@, a);
                lemma_bits_val_frame(m0, mf, y@, a);
                lemma_bits_val_frame(m0, m2, y@, a);
                lemma_bits_val_frame(me, m4, pre, a);
                let xv = bits_val(mf, x@, a);
                let yv = bits_val(mf, y@, a);
                let sh = to_nat(yv);
                assert(bits_val(m2, wb@, a) == crate::semantics::nat_to_bits(
                    n as nat,
                    n as nat,
                ));
                crate::semantics::lemma_bits_to_nat_of(n as nat, n as nat);
                lemma_nat_lt_pow2(n as nat);
                vstd::arithmetic::div_mod::lemma_small_mod(n as nat, pow2(n as nat));
                lemma_bits_val_frame(m2, m3, wb@, a);
                lemma_bits_val_frame(m2, m3, y@, a);
                assert(m3.eval(less, a) == seq![sh < n]);
                assert(m0.all_valid(y@.take(ss as int))) by {
                    assert forall|l: int|
                        0 <= l < y@.take(ss as int).len() implies m0.valid(
                        #[trigger] y@.take(ss as int)[l],
                    ) by {
                        assert(y@.take(ss as int)[l] == y@[l]);
                    }
                }
                lemma_bits_val_frame(m0, me, y@.take(ss as int), a);
                lemma_bits_val_frame(m0, mf, y@.take(ss as int), a);
                let ytk = bits_val(mf, y@.take(ss as int), a);
                assert(bits_val(me, pre, a) == crate::semantics::srl_by(
                    bits_val(me, x@, a),
                    to_nat(bits_val(me, y@.take(ss as int), a)),
                ));
                assert(ytk =~= yv.take(ss as int)) by {
                    assert forall|l: int| 0 <= l < ss implies #[trigger] ytk[l] == yv.take(
                        ss as int,
                    )[l] by {
                        assert(y@.take(ss as int)[l] == y@[l]);
                    }
                }
                assert forall|l: int|
                    0 <= l < n implies #[trigger] bits_val(mf, res@, a)[l]
                    == crate::semantics::bv_srl(xv, yv)[l] by {
                    assert(bits_val(mf, res@, a)[l] == mf.eval(res@[l], a)[0]);
                    assert(mf.eval(res@[l], a) == seq![
                        m4.eval(less, a)[0] && m4.eval(pre[l], a)[0],
                    ]);
                    lemma_eval_frame(m3, m4, less, a);
                    assert(m4.eval(less, a)[0] == (sh < n));
                    assert(m4.eval(pre[l], a)[0] == bits_val(me, pre, a)[l]) by {
                        lemma_eval_frame(me, m4, pre[l], a);
                    }
                    if sh < n {
                        crate::semantics::lemma_to_nat_take(yv, ss as int);
                        assert(to_nat(ytk) == sh);
                        assert(bits_val(me, pre, a)[l] == crate::semantics::srl_by(xv, sh)[l]);
                    }
                }
                assert(bits_val(mf, res@, a) =~= crate::semantics::bv_srl(xv, yv));
            }
        }
        res
    }

    /// The arithmetic-shift-right barrel network: vacated positions take
    /// the sign bit, and an over-wide amount floods with the sign bit.
    /// The output pattern means exactly the arithmetic right shift of the
    /// first operand pattern by the unsigned value of the second, for
    /// every assignment.
    #[verifier::loop_isolation(false)]
    #[verifier::rlimit(100)]
    fn sra_bits(&mut self, x: &Vec<Term>, y: &Vec<Term>) -> (r: Vec<Term>)
        requires
            old(self).wf(),
            all_bool(*old(self), x@),
            all_bool(*old(self), y@),
            x@.len() == y@.len(),
            0 < x@.len() <= 0x1000_0000,
        ensures
            final(self).wf(),
            final(self).extends_novar(*old(self)),
            all_bool(*final(self), r@),
            r@.len() == x@.len(),
            forall|a: spec_fn(u32) -> Seq<bool>|
                final(self).assignment_ok(a) ==> #[trigger] bits_val(*final(self), r@, a)
                    == crate::semantics::bv_sra(
                    bits_val(*final(self), x@, a),
                    bits_val(*final(self), y@, a),
                ),
    {
        let ghost m0 = *self;
        let n = x.len();
        if n == 1 {
            let out = copy_terms(x);
            proof {
                assert forall|a: spec_fn(u32) -> Seq<bool>|
                    self.assignment_ok(a) implies #[trigger] bits_val(*self, out@, a)
                    == crate::semantics::bv_sra(
                    bits_val(*self, x@, a),
                    bits_val(*self, y@, a),
                ) by {
                    let xv = bits_val(*self, x@, a);
                    let yv = bits_val(*self, y@, a);
                    assert(xv.len() == 1);
                    assert(bits_val(*self, out@, a) =~= crate::semantics::bv_sra(xv, yv));
                }
            }
            return out;
        }
        let ss = get_shift_size(n);
        proof {
            if ss > 0 {
                lemma_nat_lt_pow2((ss - 1) as nat);
            }
        }
        let mut res = copy_terms(x);
        proof {
            assert forall|a: spec_fn(u32) -> Seq<bool>|
                self.assignment_ok(a) implies #[trigger] bits_val(*self, res@, a)
                == crate::semantics::sra_by(
                bits_val(*self, x@, a),
                to_nat(bits_val(*self, y@.take(0), a)),
            ) by {
                assert(bits_val(*self, y@.take(0), a) =~= Seq::<bool>::empty());
                assert(to_nat(Seq::<bool>::empty()) == 0);
                assert(bits_val(*self, res@, a) =~= crate::semantics::sra_by(
                    bits_val(*self, x@, a),
                    0,
                ));
            }
        }
        for sb in 0..ss
            invariant
                self.wf(),
                self.extends_novar(m0),
                res@.len() == n,
                all_bool(*self, res@),
                ss <= n,
                forall|a: spec_fn(u32) -> Seq<bool>|
                    self.assignment_ok(a) ==> #[trigger] bits_val(*self, res@, a)
                        == crate::semantics::sra_by(
                        bits_val(*self, x@, a),
                        to_nat(bits_val(*self, y@.take(sb as int), a)),
                    ),
        {
            proof {
                if sb + 1 <= ss - 1 {
                    vstd::arithmetic::power2::lemma_pow2_strictly_increases(
                        sb as nat,
                        (ss - 1) as nat,
                    );
                }
                lemma_nat_lt_pow2(sb as nat);
                shl_is_pow2(sb as nat);
            }
            let step = 1usize << sb;
            let shift = y[sb];
            let prev = copy_terms(&res);
            let ghost ms = *self;
            for j in 0..n - step
                invariant
                    self.wf(),
                    self.extends_novar(m0),
                    self.extends_novar(ms),
                    res@.len() == n,
                    prev@.len() == n,
                    all_bool(*self, res@),
                    all_bool(ms, prev@),
                    step as nat == pow2(sb as nat),
                    step < n,
                    sb < y@.len(),
                    forall|l: int| j <= l < n ==> res@[l] == prev@[l],
                    forall|a: spec_fn(u32) -> Seq<bool>, l: int|
                        self.assignment_ok(a) && 0 <= l < j ==> #[trigger] self.eval(
                            res@[l],
                            a,
                        ) == seq![
                            if ms.eval(shift, a)[0] {
                                ms.eval(prev@[l + step], a)[0]
                            } else {
                                ms.eval(prev@[l], a)[0]
                            },
                        ],
                    forall|a: spec_fn(u32) -> Seq<bool>|
                        ms.assignment_ok(a) ==> #[trigger] bits_val(ms, prev@, a)
                            == crate::semantics::sra_by(
                            bits_val(ms, x@, a),
                            to_nat(bits_val(ms, y@.take(sb as int), a)),
                        ),
            {
                let ghost mp = *self;
                let hi = prev[j + step];
                let lo = prev[j];
                proof {
                    assert(mp.nodes@[shift.id as int] == m0.nodes@[shift.id as int]);
                    assert(mp.nodes@[hi.id as int] == ms.nodes@[hi.id as int]);
                    assert(mp.nodes@[lo.id as int] == ms.nodes@[lo.id as int]);
                }
                let t = self.mux_bit(shift, hi, lo);
                res.set(j, t);
                proof {
                    lemma_extends_novar_trans(m0, mp, *self);
                    lemma_extends_novar_trans(ms, mp, *self);
                    lemma_set_keeps_all_bool(mp, *self, res@, j as int, t);
                    assert forall|a: spec_fn(u32) -> Seq<bool>, l: int|
                        self.assignment_ok(a) && 0 <= l < j + 1 implies #[trigger] self.eval(
                        res@[l],
                        a,
                    ) == seq![
                        if ms.eval(shift, a)[0] {
                            ms.eval(prev@[l + step], a)[0]
                        } else {
                            ms.eval(prev@[l], a)[0]
                        },
                    ] by {
                        lemma_assignment_frame(mp, *self, a);
                        lemma_assignment_frame(ms, mp, a);
                        if l < j {
                            lemma_eval_frame(mp, *self, res@[l], a);
                        } else {
                            lemma_eval_frame(ms, mp, shift, a);
                            lemma_eval_frame(ms, mp, prev@[l + step], a);
                            lemma_eval_frame(ms, mp, prev@[l], a);
                        }
                    }
                }
            }
            for j in n - step..n
                invariant
                    self.wf(),
                    self.extends_novar(m0),
                    self.extends_novar(ms),
                    res@.len() == n,
                    prev@.len() == n,
                    all_bool(*self, res@),
                    all_bool(ms, prev@),
                    step as nat == pow2(sb as nat),
                    step < n,
                    sb < y@.len(),
                    forall|l: int| j <= l < n ==> res@[l] == prev@[l],
                    forall|a: spec_fn(u32) -> Seq<bool>, l: int|
                        self.assignment_ok(a) && 0 <= l < n - step ==> #[trigger] self.eval(
                            res@[l],
                            a,
                        ) == seq![
                            if ms.eval(shift, a)[0] {
                                ms.eval(prev@[l + step], a)[0]
                            } else {
                                ms.eval(prev@[l], a)[0]
                            },
                        ],
                    forall|a: spec_fn(u32) -> Seq<bool>, l: int|
                        self.assignment_ok(a) && n - step <= l < j ==> #[trigger] self.eval(
                            res@[l],
                            a,
                        ) == seq![
                            if ms.eval(shift, a)[0] {
                                ms.eval(prev@[n - 1], a)[0]
                            } else {
                                ms.eval(prev@[l], a)[0]
                            },
                        ],
                    forall|a: spec_fn(u32) -> Seq<bool>|
                        ms.assignment_ok(a) ==> #[trigger] bits_val(ms, prev@, a)
                            == crate::semantics::sra_by(
                            bits_val(ms, x@, a),
                            to_nat(bits_val(ms, y@.take(sb as int), a)),
                        ),
            {
                let ghost mp = *self;
                let sign = prev[n - 1];
                let pj = prev[j];
                proof {
                    assert(mp.nodes@[shift.id as int] == m0.nodes@[shift.id as int]);
                    assert(mp.nodes@[sign.id as int] == ms.nodes@[sign.id as int]);
                    assert(mp.nodes@[pj.id as int] == ms.nodes@[pj.id as int]);
                }
                let t = self.mux_bit(shift, sign, pj);
                res.set(j, t);
                proof {
                    lemma_extends_novar_trans(m0, mp, *self);
                    lemma_extends_novar_trans(ms, mp, *self);
                    lemma_set_keeps_all_bool(mp, *self, res@, j as int, t);
                    assert forall|a: spec_fn(u32) -> Seq<bool>, l: int|
                        self.assignment_ok(a) && n - step <= l < j + 1 implies #[trigger]
                    self.eval(res@[l], a) == seq![
                        if ms.eval(shift, a)[0] {
                            ms.eval(prev@[n - 1], a)[0]
                        } else {
                            ms.eval(prev@[l], a)[0]
                        },
                    ] by {
                        lemma_assignment_frame(mp, *self, a);
                        lemma_assignment_frame(ms, mp, a);
                        if l < j {
                            lemma_eval_frame(mp, *self, res@[l], a);
                        } else {
                            lemma_eval_frame(ms, mp, shift, a);
                            lemma_eval_frame(ms, mp, prev@[n - 1], a);
                            lemma_eval_frame(ms, mp, prev@[l], a);
                        }
                    }
                    assert forall|a: spec_fn(u32) -> Seq<bool>, l: int|
                        self.assignment_ok(a) && 0 <= l < n - step implies #[trigger] self.eval(
                        res@[l],
                        a,
                    ) == seq![
                        if ms.eval(shift, a)[0] {
                            ms.eval(prev@[l + step], a)[0]
                        } else {
                            ms.eval(prev@[l], a)[0]
                        },
                    ] by {
                        lemma_assignment_frame(mp, *self, a);
                        lemma_eval_frame(mp, *self, res@[l], a);
                    }
                }
            }
            proof {
                let mq = *self;
                assert forall|a: spec_fn(u32) -> Seq<bool>|
                    mq.assignment_ok(a) implies #[trigger] bits_val(mq, res@, a)
                    == crate::semantics::sra_by(
                    bits_val(mq, x@, a),
                    to_nat(bits_val(mq, y@.take(sb + 1), a)),
                ) by {
                    lemma_assignment_frame(ms, mq, a);
                    lemma_bits_val_frame(ms, mq, prev@, a);
                    lemma_bits_val_frame(m0, ms, x@, a);
                    lemma_bits_val_frame(m0, mq, x@, a);
                    assert(m0.all_valid(y@.take(sb as int))) by {
                        assert forall|l: int|
                            0 <= l < y@.take(sb as int).len() implies m0.valid(
                            #[trigger] y@.take(sb as int)[l],
                        ) by {
                            assert(y@.take(sb as int)[l] == y@[l]);
                        }
                    }
                    lemma_bits_val_frame(m0, ms, y@.take(sb as int), a);
                    lemma_bits_val_frame(m0, mq, y@.take(sb as int), a);
                    let xv = bits_val(mq, x@, a);
                    let pv = bits_val(ms, prev@, a);
                    let ytk = bits_val(mq, y@.take(sb as int), a);
                    let sv = ms.eval(shift, a)[0];
                    lemma_eval_frame(ms, mq, shift, a);
                    lemma_eval_frame(m0, ms, shift, a);
                    assert(pv == crate::semantics::sra_by(xv, to_nat(ytk)));
                    let target = if sv {
                        crate::semantics::sra_by(pv, step as nat)
                    } else {
                        pv
                    };
                    assert forall|l: int|
                        0 <= l < n implies #[trigger] bits_val(mq, res@, a)[l] == target[l] by {
                        assert(bits_val(mq, res@, a)[l] == mq.eval(res@[l], a)[0]);
                        assert(pv.last() == pv[n - 1]);
                        if l < n - step {
                            assert(mq.eval(res@[l], a) == seq![
                                if sv {
                                    ms.eval(prev@[l + step], a)[0]
                                } else {
                                    ms.eval(prev@[l], a)[0]
                                },
                            ]);
                            assert(pv[l] == ms.eval(prev@[l], a)[0]);
                            assert(pv[l + step] == ms.eval(prev@[l + step], a)[0]);
                        } else {
                            assert(mq.eval(res@[l], a) == seq![
                                if sv {
                                    ms.eval(prev@[n - 1], a)[0]
                                } else {
                                    ms.eval(prev@[l], a)[0]
                                },
                            ]);
                            assert(pv[l] == ms.eval(prev@[l], a)[0]);
                            assert(pv[n - 1] == ms.eval(prev@[n - 1], a)[0]);
                        }
                    }
                    assert(bits_val(mq, res@, a) =~= target);
                    let ytk1 = bits_val(mq, y@.take(sb + 1), a);
                    assert(ytk1 =~= ytk.push(sv)) by {
                        assert forall|l: int| 0 <= l < sb + 1 implies #[trigger] ytk1[l] == (
                        if l < sb {
                            ytk[l]
                        } else {
                            sv
                        }) by {
                            assert(y@.take(sb + 1)[l] == y@[l]);
                            if l < sb {
                                assert(y@.take(sb as int)[l] == y@[l]);
                            } else {
                                assert(y@[l] == shift);
                            }
                        }
                    }
                    crate::semantics::lemma_to_nat_snoc(ytk, sv);
                    if sv {
                        crate::semantics::lemma_sra_compose(xv, to_nat(ytk), step as nat);
                        assert(ytk.len() == sb);
                        assert(to_nat(ytk1) == to_nat(ytk) + pow2(sb as nat));
                    } else {
                        assert(to_nat(ytk1) == to_nat(ytk));
                    }
                }
            }
        }
        let ghost me = *self;
        let wb = self.usize_bits(n, n);
        let ghost m2 = *self;
        let less = self.ult_bits(y, &wb);
        let ghost m3 = *self;
        let ghost m4 = *self;
        let sign = x[n - 1];
        let ghost pre = res@;
        proof {
            lemma_extends_novar_trans(m0, me, m2);
            lemma_extends_novar_trans(m0, m2, m3);
            lemma_extends_novar_trans(me, m2, m3);
            lemma_all_bool_frame(res@, me, m4);
            lemma_all_bool_frame(x@, m0, m4);
        }
        for j in 0..n
            invariant
                self.wf(),
                self.extends_novar(m0),
                self.extends_novar(m4),
                res@.len() == n,
                pre.len() == n,
                all_bool(*self, res@),
                all_bool(m4, pre),
                all_bool(m4, x@),
                self.valid(less),
                self.sort_of(less) == Sort::Bv(1usize),
                forall|l: int| j <= l < n ==> res@[l] == pre[l],
                forall|a: spec_fn(u32) -> Seq<bool>, l: int|
                    self.assignment_ok(a) && 0 <= l < j ==> #[trigger] self.eval(res@[l], a)
                        == seq![
                            if m4.eval(less, a)[0] {
                                m4.eval(pre[l], a)[0]
                            } else {
                                m4.eval(sign, a)[0]
                            },
                        ],
        {
            let ghost mp = *self;
            let rj = res[j];
            proof {
                assert(res@[j as int] == pre[j as int]);
                assert(m4.valid(pre[j as int]) && m4.sort_of(pre[j as int]) == Sort::Bv(1usize));
                assert(mp.nodes@[less.id as int] == m4.nodes@[less.id as int]);
                assert(mp.nodes@[rj.id as int] == m4.nodes@[rj.id as int]);
                assert(mp.nodes@[sign.id as int] == m4.nodes@[sign.id as int]);
            }
            let t = self.mux_bit(less, rj, sign);
            res.set(j, t);
            proof {
                lemma_extends_novar_trans(m0, mp, *self);
                lemma_extends_novar_trans(m4, mp, *self);
                lemma_set_keeps_all_bool(mp, *self, res@, j as int, t);
                assert forall|a: spec_fn(u32) -> Seq<bool>, l: int|
                    self.assignment_ok(a) && 0 <= l < j + 1 implies #[trigger] self.eval(
                    res@[l],
                    a,
                ) == seq![
                    if m4.eval(less, a)[0] {
                        m4.eval(pre[l], a)[0]
                    } else {
                        m4.eval(sign, a)[0]
                    },
                ] by {
                    lemma_assignment_frame(mp, *self, a);
                    lemma_assignment_frame(m4, mp, a);
                    if l < j {
                        lemma_eval_frame(mp, *self, res@[l], a);
                    } else {
                        lemma_eval_frame(m4, mp, less, a);
                        lemma_eval_frame(m4, mp, pre[l], a);
                        lemma_eval_frame(m4, mp, sign, a);
                    }
                }
            }
        }
        proof {
            let mf = *self;
            assert forall|a: spec_fn(u32) -> Seq<bool>|
                mf.assignment_ok(a) implies #[trigger] bits_val(mf, res@, a)
                == crate::semantics::bv_sra(bits_val(mf, x@, a), bits_val(mf, y@, a)) by {
                lemma_assignment_frame(m4, mf, a);
                lemma_assignment_frame(me, m4, a);
                lemma_assignment_frame(m0, me, a);
                lemma_assignment_frame(me, m2, a);
                lemma_assignment_frame(m2, m3, a);
                lemma_bits_val_frame(m0, mf, x@, a);
                lemma_bits_val_frame(m0, me, x@, a);
                lemma_bits_val_frame(m0, mf, y@, a);
                lemma_bits_val_frame(m0, m2, y@, a);
                lemma_bits_val_frame(me, m4, pre, a);
                let xv = bits_val(mf, x@, a);
                let yv = bits_val(mf, y@, a);
                let sh = to_nat(yv);
                assert(bits_val(m2, wb@, a) == crate::semantics::nat_to_bits(
                    n as nat,
                    n as nat,
                ));
                crate::semantics::lemma_bits_to_nat_of(n as nat, n as nat);
                lemma_nat_lt_pow2(n as nat);
                vstd::arithmetic::div_mod::lemma_small_mod(n as nat, pow2(n as nat));
                lemma_bits_val_frame(m2, m3, wb@, a);
                lemma_bits_val_frame(m2, m3, y@, a);
                assert(m3.eval(less, a) == seq![sh < n]);
                assert(m0.all_valid(y@.take(ss as int))) by {
                    assert forall|l: int|
                        0 <= l < y@.take(ss as int).len() implies m0.valid(
                        #[trigger] y@.take(ss as int)[l],
                    ) by {
                        assert(y@.take(ss as int)[l] == y@[l]);
                    }
                }
                lemma_bits_val_frame(m0, me, y@.take(ss as int), a);
                lemma_bits_val_frame(m0, mf, y@.take(ss as int), a);
                let ytk = bits_val(mf, y@.take(ss as int), a);
                assert(bits_val(me, pre, a) == crate::semantics::sra_by(
                    bits_val(me, x@, a),
                    to_nat(bits_val(me, y@.take(ss as int), a)),
                ));
                assert(ytk =~= yv.take(ss as int)) by {
                    assert forall|l: int| 0 <= l < ss implies #[trigger] ytk[l] == yv.take(
                        ss as int,
                    )[l] by {
                        assert(y@.take(ss as int)[l] == y@[l]);
                    }
                }
                lemma_eval_frame(m0, m4, sign, a);
                assert(m4.eval(sign, a)[0] == xv[n - 1]) by {
                    lemma_eval_frame(m0, mf, sign, a);
                }
                assert forall|l: int|
                    0 <= l < n implies #[trigger] bits_val(mf, res@, a)[l]
                    == crate::semantics::bv_sra(xv, yv)[l] by {
                    assert(bits_val(mf, res@, a)[l] == mf.eval(res@[l], a)[0]);
                    assert(mf.eval(res@[l], a) == seq![
                        if m4.eval(less, a)[0] {
                            m4.eval(pre[l], a)[0]
                        } else {
                            m4.eval(sign, a)[0]
                        },
                    ]);
                    lemma_eval_frame(m3, m4, less, a);
                    assert(m4.eval(less, a)[0] == (sh < n));
                    assert(m4.eval(pre[l], a)[0] == bits_val(me, pre, a)[l]) by {
                        lemma_eval_frame(me, m4, pre[l], a);
                    }
                    assert(xv.last() == xv[n - 1]);
                    if sh < n {
                        crate::semantics::lemma_to_nat_take(yv, ss as int);
                        assert(to_nat(ytk) == sh);
                        assert(bits_val(me, pre, a)[l] == crate::semantics::sra_by(xv, sh)[l]);
                    }
                }
                assert(bits_val(mf, res@, a) =~= crate::semantics::bv_sra(xv, yv));
            }
        }
        res
    }

    /// The signed-less-than network: strict sign comparison, or equal
    /// signs and an unsigned comparison of the remaining bits. Its single
    /// output bit means exactly the two's-complement comparison of the
    /// two operand patterns, for every assignment.
    #[verifier::loop_isolation(false)]
    #[verifier::rlimit(100)]
    fn slt_bits(&mut self, x: &Vec<Term>, y: &Vec<Term>) -> (r: Term)
        requires
            old(self).wf(),
            all_bool(*old(self), x@),
            all_bool(*old(self), y@),
            x@.len() == y@.len(),
            0 < x@.len(),
        ensures
            final(self).wf(),
            final(self).extends_novar(*old(self)),
            final(self).valid(r),
            final(self).sort_of(r) == Sort::Bv(1usize),
            forall|a: spec_fn(u32) -> Seq<bool>|
                final(self).assignment_ok(a) ==> #[trigger] final(self).eval(r, a)
                    == crate::semantics::bv_slt(
                    bits_val(*final(self), x@, a),
                    bits_val(*final(self), y@, a),
                ),
    {
        let ghost m0 = *self;
        let n = x.len();
        let xs = x[n - 1];
        let ys = y[n - 1];
        let nys = self.new_op_term_rec(crate::construct::SIMPLIFY_FUEL, Op::Not, &vec![ys]);
        let ghost m1 = *self;
        let ls = self.new_op_term_rec(crate::construct::SIMPLIFY_FUEL, Op::And, &vec![xs, nys]);
        let ghost m2 = *self;
        let eqs = self.new_op_term_rec(crate::construct::SIMPLIFY_FUEL, Op::Eq, &vec![xs, ys]);
        let ghost m3 = *self;
        proof {
            lemma_extends_novar_trans(m0, m1, m2);
            lemma_extends_novar_trans(m0, m2, m3);
        }
        let mut lowx: Vec<Term> = Vec::new();
        let mut lowy: Vec<Term> = Vec::new();
        for k in 0..n - 1
            invariant
                lowx@ =~= x@.take(k as int),
                lowy@ =~= y@.take(k as int),
        {
            lowx.push(x[k]);
            lowy.push(y[k]);
        }
        proof {
            assert(all_bool(m3, lowx@)) by {
                assert forall|i: int| 0 <= i < lowx@.len() implies m3.valid(#[trigger] lowx@[i])
                    && m3.sort_of(lowx@[i]) == Sort::Bv(1usize) by {
                    assert(lowx@[i] == x@[i]);
                    assert(m3.nodes@[x@[i].id as int] == m0.nodes@[x@[i].id as int]);
                }
            }
            assert(all_bool(m3, lowy@)) by {
                assert forall|i: int| 0 <= i < lowy@.len() implies m3.valid(#[trigger] lowy@[i])
                    && m3.sort_of(lowy@[i]) == Sort::Bv(1usize) by {
                    assert(lowy@[i] == y@[i]);
                    assert(m3.nodes@[y@[i].id as int] == m0.nodes@[y@[i].id as int]);
                }
            }
        }
        let el = self.ult_bits(&lowx, &lowy);
        let ghost m5 = *self;
        let inner = self.new_op_term_rec(crate::construct::SIMPLIFY_FUEL, Op::And, &vec![
            eqs,
            el,
        ]);
        let ghost m6 = *self;
        let r = self.new_op_term_rec(crate::construct::SIMPLIFY_FUEL, Op::Or, &vec![ls, inner]);
        proof {
            let mf = *self;
            lemma_extends_novar_trans(m0, m3, m5);
            lemma_extends_novar_trans(m0, m5, m6);
            lemma_extends_novar_trans(m0, m6, mf);
            lemma_extends_novar_trans(m3, m5, m6);
            lemma_extends_novar_trans(m3, m6, mf);
            assert forall|a: spec_fn(u32) -> Seq<bool>|
                mf.assignment_ok(a) implies #[trigger] mf.eval(r, a)
                == crate::semantics::bv_slt(bits_val(mf, x@, a), bits_val(mf, y@, a)) by {
                lemma_assignment_frame(m6, mf, a);
                lemma_assignment_frame(m5, m6, a);
                lemma_assignment_frame(m3, m5, a);
                lemma_assignment_frame(m2, m3, a);
                lemma_assignment_frame(m1, m2, a);
                lemma_assignment_frame(m0, m1, a);
                lemma_eval_frame(m0, m1, ys, a);
                lemma_eval_frame(m0, m2, xs, a);
                lemma_eval_frame(m1, m2, nys, a);
                lemma_eval_frame(m0, m3, xs, a);
                lemma_eval_frame(m0, m3, ys, a);
                lemma_eval_frame(m2, m6, ls, a);
                lemma_eval_frame(m3, m6, eqs, a);
                lemma_eval_frame(m5, m6, el, a);
                lemma_eval_frame(m6, mf, inner, a);
                lemma_eval_frame(m2, mf, ls, a);
                lemma_eval_len(m0, xs, a);
                lemma_eval_len(m0, ys, a);
                let xsv = m0.eval(xs, a)[0];
                let ysv = m0.eval(ys, a)[0];
                assert(m1.eval_args(seq![ys], a) =~= seq![m0.eval(ys, a)]);
                assert(m2.eval_args(seq![xs, nys], a) =~= seq![
                    m0.eval(xs, a),
                    m1.eval(nys, a),
                ]);
                assert(m2.eval(ls, a) =~= seq![xsv && !ysv]);
                assert(m3.eval_args(seq![xs, ys], a) =~= seq![
                    m0.eval(xs, a),
                    m0.eval(ys, a),
                ]);
                assert(m3.eval(eqs, a) == crate::semantics::bv_eq(
                    m0.eval(xs, a),
                    m0.eval(ys, a),
                ));
                assert(m3.eval(eqs, a) =~= seq![xsv == ysv]) by {
                    if m0.eval(xs, a) =~= m0.eval(ys, a) {
                        assert(xsv == ysv);
                    } else if xsv == ysv {
                        assert(m0.eval(xs, a) =~= m0.eval(ys, a));
                    }
                }
                assert(m5.eval(el, a) == seq![
                    to_nat(bits_val(m5, lowx@, a)) < to_nat(bits_val(m5, lowy@, a)),
                ]);
                assert(m6.eval_args(seq![eqs, el], a) =~= seq![
                    m3.eval(eqs, a),
                    m5.eval(el, a),
                ]);
                assert(mf.eval_args(seq![ls, inner], a) =~= seq![
                    m2.eval(ls, a),
                    m6.eval(inner, a),
                ]);
                let xv = bits_val(mf, x@, a);
                let yv = bits_val(mf, y@, a);
                lemma_bits_val_frame(m0, mf, x@, a);
                lemma_bits_val_frame(m0, mf, y@, a);
                assert(all_bool(m0, lowx@)) by {
                    assert forall|i: int|
                        0 <= i < lowx@.len() implies m0.valid(#[trigger] lowx@[i])
                        && m0.sort_of(lowx@[i]) == Sort::Bv(1usize) by {
                        assert(lowx@[i] == x@[i]);
                    }
                }
                assert(all_bool(m0, lowy@)) by {
                    assert forall|i: int|
                        0 <= i < lowy@.len() implies m0.valid(#[trigger] lowy@[i])
                        && m0.sort_of(lowy@[i]) == Sort::Bv(1usize) by {
                        assert(lowy@[i] == y@[i]);
                    }
                }
                lemma_bits_val_frame(m0, m5, lowx@, a);
                lemma_bits_val_frame(m0, m5, lowy@, a);
                lemma_bits_val_frame(m0, mf, lowx@, a);
                lemma_bits_val_frame(m0, mf, lowy@, a);
                assert(bits_val(mf, lowx@, a) =~= xv.drop_last()) by {
                    assert forall|i: int|
                        0 <= i < n - 1 implies #[trigger] bits_val(mf, lowx@, a)[i]
                        == xv.drop_last()[i] by {
                        assert(lowx@[i] == x@[i]);
                    }
                }
                assert(bits_val(mf, lowy@, a) =~= yv.drop_last()) by {
                    assert forall|i: int|
                        0 <= i < n - 1 implies #[trigger] bits_val(mf, lowy@, a)[i]
                        == yv.drop_last()[i] by {
                        assert(lowy@[i] == y@[i]);
                    }
                }
                assert(xv.last() == xsv);
                assert(yv.last() == ysv);
                crate::semantics::lemma_slt_decompose(xv, yv);
                assert(mf.eval(r, a) =~= seq![
                    crate::semantics::to_int_signed(xv) < crate::semantics::to_int_signed(yv),
                ]);
            }
        }
        r
    }

    /// Equality over already-lowered bits: XNOR each pair, AND-reduce.
    /// The single output bit means exactly equality of the two operand
    /// patterns, for every assignment.
    #[verifier::rlimit(100)]
    fn eq_bits(&mut self, x: &Vec<Term>, y: &Vec<Term>) -> (r: Term)
        requires
            old(self).wf(),
            all_bool(*old(self), x@),
            all_bool(*old(self), y@),
            x@.len() == y@.len(),
            0 < x@.len(),
        ensures
            final(self).wf(),
            final(self).extends_novar(*old(self)),
            final(self).valid(r),
            final(self).sort_of(r) == Sort::Bv(1usize),
            forall|a: spec_fn(u32) -> Seq<bool>|
                final(self).assignment_ok(a) ==> #[trigger] final(self).eval(r, a) == seq![
                    bits_val(*final(self), x@, a) =~= bits_val(*final(self), y@, a),
                ],
    {
        let ghost m0 = *self;
        let es = self.new_op_terms_elementwise(Op::Eq, x, y);
        let ghost m1 = *self;
        let r = self.new_op_terms_fold(Op::And, &es);
        proof {
            let m2 = *self;
            lemma_extends_novar_trans(m0, m1, m2);
            assert forall|a: spec_fn(u32) -> Seq<bool>|
                m2.assignment_ok(a) implies #[trigger] m2.eval(r, a) == seq![
                bits_val(m2, x@, a) =~= bits_val(m2, y@, a),
            ] by {
                lemma_assignment_frame(m1, m2, a);
                lemma_assignment_frame(m0, m1, a);
                let vs = m2.eval_args(es@, a);
                assert(vs.len() == x@.len());
                assert forall|i: int| 0 <= i < vs.len() implies (#[trigger] vs[i]).len() == 1
                    && vs[i][0] == (m2.eval(x@[i], a)[0] == m2.eval(y@[i], a)[0]) by {
                    lemma_eval_frame(m1, m2, es@[i], a);
                    lemma_eval_frame(m0, m1, x@[i], a);
                    lemma_eval_frame(m0, m1, y@[i], a);
                    lemma_eval_frame(m0, m2, x@[i], a);
                    lemma_eval_frame(m0, m2, y@[i], a);
                    lemma_eval_len(m0, x@[i], a);
                    lemma_eval_len(m0, y@[i], a);
                    assert(m1.eval(es@[i], a) == crate::semantics::apply_core(
                        Op::Eq,
                        seq![m1.eval(x@[i], a), m1.eval(y@[i], a)],
                    ));
                    let ex = m0.eval(x@[i], a);
                    let ey = m0.eval(y@[i], a);
                    assert(m1.eval(es@[i], a) == seq![ex =~= ey]);
                    if ex =~= ey {
                        assert(ex[0] == ey[0]);
                    } else {
                        assert(ex.len() == 1 && ey.len() == 1);
                        if ex[0] == ey[0] {
                            assert(ex =~= ey);
                        }
                    }
                }
                crate::semantics::lemma_fold_and_bits(vs);
                assert(m2.eval(r, a) == crate::semantics::fold_apply(Op::And, vs));
                let bx = bits_val(m2, x@, a);
                let by = bits_val(m2, y@, a);
                assert(bx.len() == by.len());
                if m2.eval(r, a)[0] {
                    assert forall|i: int| 0 <= i < bx.len() implies #[trigger] bx[i]
                        == by[i] by {
                        assert(vs[i][0]);
                    }
                    assert(bx =~= by);
                } else {
                    let w = choose|i: int| 0 <= i < vs.len() && !(#[trigger] vs[i])[0];
                    assert(bx[w] != by[w]);
                    assert(!(bx =~= by));
                }
                assert(m2.eval(r, a) =~= seq![bx =~= by]);
            }
        }
        r
    }

    /// XOR-reduction of already-lowered bits to one bit, meaning exactly
    /// the parity of the operand pattern, for every assignment.
    #[verifier::rlimit(100)]
    fn redxor_bits(&mut self, x: &Vec<Term>) -> (r: Term)
        requires
            old(self).wf(),
            all_bool(*old(self), x@),
            0 < x@.len(),
        ensures
            final(self).wf(),
            final(self).extends_novar(*old(self)),
            final(self).valid(r),
            final(self).sort_of(r) == Sort::Bv(1usize),
            forall|a: spec_fn(u32) -> Seq<bool>|
                final(self).assignment_ok(a) ==> #[trigger] final(self).eval(r, a)
                    == crate::semantics::bv_redxor(bits_val(*final(self), x@, a)),
    {
        let ghost m0 = *self;
        let r = self.new_op_terms_fold(Op::Xor, x);
        proof {
            let mf = *self;
            assert forall|a: spec_fn(u32) -> Seq<bool>|
                mf.assignment_ok(a) implies #[trigger] mf.eval(r, a)
                == crate::semantics::bv_redxor(bits_val(mf, x@, a)) by {
                lemma_assignment_frame(m0, mf, a);
                let vs = mf.eval_args(x@, a);
                assert forall|i: int| 0 <= i < vs.len() implies (#[trigger] vs[i]).len()
                    == 1 by {
                    lemma_eval_frame(m0, mf, x@[i], a);
                    lemma_eval_len(m0, x@[i], a);
                }
                crate::semantics::lemma_fold_xor_bits(vs);
                assert(mf.eval(r, a) == fold_apply(Op::Xor, vs));
                assert(vs.map_values(|v: Seq<bool>| v[0]) =~= bits_val(mf, x@, a));
                assert(mf.eval(r, a) =~= seq![
                    crate::semantics::parity(bits_val(mf, x@, a)),
                ]);
            }
        }
        r
    }

    /// Decodes an index into its one-hot selector lines: line `j` is
    /// true exactly when the index bits spell `j`.
    #[verifier::loop_isolation(false)]
    fn onehot_encode(&mut self, x: &Vec<Term>) -> (r: Vec<Term>)
        requires
            old(self).wf(),
            all_bool(*old(self), x@),
            x@.len() < 28,
        ensures
            final(self).wf(),
            final(self).extends_novar(*old(self)),
            all_bool(*final(self), r@),
            r@.len() == pow2(x@.len()),
    {
        let ghost m0 = *self;
        let ilen = x.len();
        proof {
            assert(pow2(ilen as nat) <= pow2(27)) by {
                if ilen < 27 {
                    vstd::arithmetic::power2::lemma_pow2_strictly_increases(ilen as nat, 27);
                }
            }
            assert(pow2(27) == 0x800_0000) by {
                vstd::arithmetic::power2::lemma2_to64();
            }
            shl_is_pow2(ilen as nat);
        }
        let len = 1usize << ilen;
        let t0 = self.bool_const(true);
        let ghost m1 = *self;
        let f0 = self.bool_const(false);
        proof {
            lemma_extends_novar_trans(m0, m1, *self);
        }
        let mut res: Vec<Term> = Vec::new();
        res.push(t0);
        for k in 1..len
            invariant
                self.wf(),
                self.extends_novar(m0),
                res@.len() == k,
                all_bool(*self, res@),
                self.valid(f0),
                self.sort_of(f0) == Sort::Bv(1usize),
        {
            res.push(f0);
        }
        for sb in 0..ilen
            invariant
                self.wf(),
                self.extends_novar(m0),
                res@.len() == len,
                all_bool(*self, res@),
        {
            proof {
                if sb + 1 <= ilen - 1 {
                    vstd::arithmetic::power2::lemma_pow2_strictly_increases(
                        sb as nat,
                        (ilen - 1) as nat,
                    );
                }
                if sb + 1 <= ilen {
                    vstd::arithmetic::power2::lemma_pow2_strictly_increases(
                        sb as nat,
                        ilen as nat,
                    );
                }
                shl_is_pow2(sb as nat);
            }
            let step = 1usize << sb;
            let shift = x[sb];
            let prev = copy_terms(&res);
            for j in 0..step
                invariant
                    self.wf(),
                    self.extends_novar(m0),
                    res@.len() == len,
                    prev@.len() == len,
                    all_bool(*self, res@),
                    all_bool(*self, prev@),
                    step < len,
                    sb < x@.len(),
            {
                let ghost mp = *self;
                let ns = self.new_op_term_rec(
                    crate::construct::SIMPLIFY_FUEL,
                    Op::Not,
                    &vec![shift],
                );
                let ghost mr = *self;
                let pj = prev[j];
                let t = self.new_op_term_rec(
                    crate::construct::SIMPLIFY_FUEL,
                    Op::And,
                    &vec![ns, pj],
                );
                res.set(j, t);
                proof {
                    lemma_extends_novar_trans(m0, mp, mr);
                    lemma_extends_novar_trans(m0, mr, *self);
                    lemma_set_keeps_all_bool(mp, *self, res@, j as int, t);
                    lemma_all_bool_frame(prev@, mp, *self);
                }
            }
            for j in step..len
                invariant
                    self.wf(),
                    self.extends_novar(m0),
                    res@.len() == len,
                    prev@.len() == len,
                    all_bool(*self, res@),
                    all_bool(*self, prev@),
                    step < len,
                    sb < x@.len(),
            {
                let ghost mp = *self;
                let hi = prev[j - step];
                let lo = prev[j];
                let t = self.new_op_term_rec(
                    crate::construct::SIMPLIFY_FUEL,
                    Op::Ite,
                    &vec![shift, hi, lo],
                );
                res.set(j, t);
                proof {
                    lemma_extends_novar_trans(m0, mp, *self);
                    lemma_set_keeps_all_bool(mp, *self, res@, j as int, t);
                    lemma_all_bool_frame(prev@, mp, *self);
                }
            }
        }
        res
    }

    /// Array lookup over flattened bits: decode the index one-hot, then
    /// multiplex each element bit through the selector lines.
    #[verifier::loop_isolation(false)]
    fn read_bits(&mut self, array: &Vec<Term>, index: &Vec<Term>, elem: usize) -> (r: Vec<Term>)
        requires
            old(self).wf(),
            all_bool(*old(self), array@),
            all_bool(*old(self), index@),
            index@.len() < 28,
            array@.len() == pow2(index@.len()) * elem,
        ensures
            final(self).wf(),
            final(self).extends_novar(*old(self)),
            all_bool(*final(self), r@),
            r@.len() == elem,
    {
        let ghost m0 = *self;
        let onehot = self.onehot_encode(index);
        let ghost m1 = *self;
        proof {
            assert(pow2(index@.len()) <= pow2(27)) by {
                if index@.len() < 27 {
                    vstd::arithmetic::power2::lemma_pow2_strictly_increases(index@.len(), 27);
                }
            }
            assert(pow2(27) == 0x800_0000) by {
                vstd::arithmetic::power2::lemma2_to64();
            }
            shl_is_pow2(index@.len());
        }
        let range = 1usize << index.len();
        let alen = array.len();
        let mut out: Vec<Term> = Vec::new();
        for i in 0..elem
            invariant
                self.wf(),
                self.extends_novar(m0),
                out@.len() == i,
                all_bool(*self, out@),
                all_bool(*self, onehot@),
                onehot@.len() == range,
                range as nat == pow2(index@.len()),
                array@.len() == range * elem,
                alen == array@.len(),
        {
            let ghost mq = *self;
            let mut r = self.bool_const(false);
            proof {
                lemma_extends_novar_trans(m0, mq, *self);
                lemma_all_bool_frame(onehot@, mq, *self);
            }
            for j in 0..range
                invariant
                    self.wf(),
                    self.extends_novar(m0),
                    self.extends_novar(mq),
                    self.valid(r),
                    self.sort_of(r) == Sort::Bv(1usize),
                    all_bool(*self, onehot@),
                    onehot@.len() == range,
                    range as nat == pow2(index@.len()),
                    array@.len() == range * elem,
                    alen == array@.len(),
                    i < elem,
            {
                let ghost mp = *self;
                proof {
                    assert(elem * j + i < elem * range) by (nonlinear_arith)
                        requires
                            0 <= j < range,
                            0 <= i < elem,
                    ;
                    assert(elem * range == range * elem) by (nonlinear_arith);
                    assert(elem * j <= elem * range) by (nonlinear_arith)
                        requires 0 <= j <= range, 0 <= elem,
                    ;
                    assert(elem * j + i < alen);
                }
                let abit = array[elem * j + i];
                let sel = onehot[j];
                let t = self.new_op_term_rec(
                    crate::construct::SIMPLIFY_FUEL,
                    Op::Ite,
                    &vec![sel, abit, r],
                );
                r = t;
                proof {
                    lemma_extends_novar_trans(m0, mp, *self);
                    lemma_extends_novar_trans(mq, mp, *self);
                    lemma_all_bool_frame(onehot@, mp, *self);
                }
            }
            out.push(r);
            proof {
                lemma_all_bool_frame(out@.drop_last(), mq, *self);
                assert(out@.drop_last() =~= out@.take(out@.len() - 1));
            }
        }
        out
    }

    /// Array update over flattened bits: selectively overwrite each
    /// element's bits through the one-hot selector lines.
    #[verifier::loop_isolation(false)]
    fn write_bits(
        &mut self,
        array: &Vec<Term>,
        index: &Vec<Term>,
        value: &Vec<Term>,
    ) -> (r: Vec<Term>)
        requires
            old(self).wf(),
            all_bool(*old(self), array@),
            all_bool(*old(self), index@),
            all_bool(*old(self), value@),
            index@.len() < 28,
            array@.len() == pow2(index@.len()) * value@.len(),
        ensures
            final(self).wf(),
            final(self).extends_novar(*old(self)),
            all_bool(*final(self), r@),
            r@.len() == array@.len(),
    {
        let ghost m0 = *self;
        let onehot = self.onehot_encode(index);
        proof {
            assert(pow2(index@.len()) <= pow2(27)) by {
                if index@.len() < 27 {
                    vstd::arithmetic::power2::lemma_pow2_strictly_increases(index@.len(), 27);
                }
            }
            assert(pow2(27) == 0x800_0000) by {
                vstd::arithmetic::power2::lemma2_to64();
            }
            shl_is_pow2(index@.len());
        }
        let range = 1usize << index.len();
        let elem = value.len();
        let alen = array.len();
        let mut res = copy_terms(array);
        for i in 0..elem
            invariant
                self.wf(),
                self.extends_novar(m0),
                res@.len() == array@.len(),
                all_bool(*self, res@),
                all_bool(*self, onehot@),
                onehot@.len() == range,
                range as nat == pow2(index@.len()),
                array@.len() == range * elem,
                elem == value@.len(),
                alen == array@.len(),
        {
            for j in 0..range
                invariant
                    self.wf(),
                    self.extends_novar(m0),
                    res@.len() == array@.len(),
                    all_bool(*self, res@),
                    all_bool(*self, onehot@),
                    onehot@.len() == range,
                    range as nat == pow2(index@.len()),
                    array@.len() == range * elem,
                    elem == value@.len(),
                    alen == array@.len(),
                    i < elem,
            {
                let ghost mp = *self;
                proof {
                    assert(elem * j + i < elem * range) by (nonlinear_arith)
                        requires
                            0 <= j < range,
                            0 <= i < elem,
                    ;
                    assert(elem * range == range * elem) by (nonlinear_arith);
                    assert(elem * j <= elem * range) by (nonlinear_arith)
                        requires 0 <= j <= range, 0 <= elem,
                    ;
                    assert(elem * j + i < alen);
                }
                let pos = elem * j + i;
                let sel = onehot[j];
                let vbit = value[i];
                let rbit = res[pos];
                let t = self.new_op_term_rec(
                    crate::construct::SIMPLIFY_FUEL,
                    Op::Ite,
                    &vec![sel, vbit, rbit],
                );
                res.set(pos, t);
                proof {
                    lemma_extends_novar_trans(m0, mp, *self);
                    lemma_all_bool_frame(onehot@, mp, *self);
                    lemma_set_keeps_all_bool(mp, *self, res@, pos as int, t);
                }
            }
        }
        res
    }
}

/// After overwriting one slot with a valid boolean term, a vector of
/// boolean terms stays one.
proof fn lemma_set_keeps_all_bool(
    mp: TermManager,
    mq: TermManager,
    res: Seq<Term>,
    j: int,
    t: Term,
)
    requires
        mq.extends(mp),
        0 <= j < res.len(),
        res[j] == t,
        mq.valid(t),
        mq.sort_of(t) == Sort::Bv(1usize),
        forall|l: int|
            0 <= l < res.len() && l != j ==> mp.valid(#[trigger] res[l]) && mp.sort_of(res[l])
                == Sort::Bv(1usize),
    ensures
        all_bool(mq, res),
{
    assert forall|l: int|
        0 <= l < res.len() implies mq.valid(#[trigger] res[l]) && mq.sort_of(res[l]) == Sort::Bv(
        1usize,
    ) by {
        if l != j {
            assert(mp.valid(res[l]) && mp.sort_of(res[l]) == Sort::Bv(1usize));
            assert(mq.nodes@[res[l].id as int] == mp.nodes@[res[l].id as int]);
        }
    }
}

/// Indexing into the flattening of uniform-width rows.
proof fn lemma_flatten_index(ss: Seq<Seq<bool>>, e: nat, j: int, i: int)
    requires
        forall|l: int| 0 <= l < ss.len() ==> (#[trigger] ss[l]).len() == e,
        0 <= j < ss.len(),
        0 <= i < e,
    ensures
        0 <= j * e + i < ss.flatten().len(),
        ss.flatten()[j * e + i] == ss[j][i],
    decreases j,
{
    crate::term::lemma_flatten_uniform_len(ss, e);
    assert(j * e + i < ss.len() * e) by (nonlinear_arith)
        requires
            0 <= j < ss.len(),
            0 <= i < e,
    ;
    assert(j * e >= 0) by (nonlinear_arith)
        requires
            j >= 0,
            e >= 0,
    ;
    if j == 0 {
        assert(j * e + i == i) by (nonlinear_arith)
            requires j == 0,
        ;
        assert(ss.flatten() == ss.first().add(ss.drop_first().flatten()));
        assert(ss.first().len() == e);
        assert(ss.first() == ss[0]);
        assert(ss.first().add(ss.drop_first().flatten())[i] == ss.first()[i]);
    } else {
        assert forall|l: int|
            0 <= l < ss.drop_first().len() implies (#[trigger] ss.drop_first()[l]).len()
            == e by {
            assert(ss[l + 1].len() == e);
        }
        lemma_flatten_index(ss.drop_first(), e, j - 1, i);
        assert(ss.flatten() == ss.first().add(ss.drop_first().flatten()));
        assert((j - 1) * e + i == j * e + i - e) by (nonlinear_arith);
        assert(ss.flatten()[j * e + i] == ss.drop_first().flatten()[(j - 1) * e + i]);
        assert(ss.drop_first()[j - 1] == ss[j]);
    }
}

/// A constant payload whose rows all share one width.
pub open spec fn const_uniform(c: ConstTerm) -> bool {
    match c {
        ConstTerm::BV(_) => true,
        ConstTerm::Array(ar) => ar@.len() > 0 && (forall|j: int|
            0 <= j < ar@.len() ==> (#[trigger] ar@[j]).len() == ar@[0].len()) && ar@.len() * ar@[
            0
        ].len() <= usize::MAX,
    }
}

impl crate::term::BvConst {
    /// Lowers a literal bit pattern: one boolean constant per bit.
    #[verifier::loop_isolation(false)]
    pub fn bitblast(&self, tm: &mut TermManager) -> (r: Vec<Term>)
        requires
            old(tm).wf(),
        ensures
            final(tm).wf(),
            final(tm).extends_novar(*old(tm)),
            all_bool(*final(tm), r@),
            r@.len() == self@.len(),
            forall|k: int, a: spec_fn(u32) -> Seq<bool>|
                0 <= k < r@.len() ==> #[trigger] final(tm).eval(r@[k], a) == seq![self@[k]],
    {
        let ghost m0 = *tm;
        let mut out: Vec<Term> = Vec::new();
        let n = self.c.len();
        for k in 0..n
            invariant
                tm.wf(),
                tm.extends_novar(m0),
                out@.len() == k,
                all_bool(*tm, out@),
                forall|l: int, a: spec_fn(u32) -> Seq<bool>|
                    0 <= l < k ==> #[trigger] tm.eval(out@[l], a) == seq![self@[l]],
        {
            let ghost mp = *tm;
            let t = tm.bool_const(self.c[k]);
            out.push(t);
            proof {
                lemma_extends_novar_trans(m0, mp, *tm);
                lemma_all_bool_frame(out@.drop_last(), mp, *tm);
                assert(out@.drop_last() =~= out@.take(out@.len() - 1));
                assert forall|l: int, a: spec_fn(u32) -> Seq<bool>|
                    0 <= l < k + 1 implies #[trigger] tm.eval(out@[l], a) == seq![
                    self@[l],
                ] by {
                    if l < k {
                        lemma_eval_frame(mp, *tm, out@[l], a);
                    }
                }
            }
        }
        out
    }
}

impl ConstTerm {
    /// Lowers a constant leaf to its flattened bits, element 0 lowest.
    #[verifier::loop_isolation(false)]
    pub fn bitblast(&self, tm: &mut TermManager) -> (r: Vec<Term>)
        requires
            old(tm).wf(),
            const_uniform(*self),
        ensures
            final(tm).wf(),
            final(tm).extends_novar(*old(tm)),
            all_bool(*final(tm), r@),
            r@.len() == const_bits(*self).len(),
            forall|k: int, a: spec_fn(u32) -> Seq<bool>|
                0 <= k < r@.len() ==> #[trigger] final(tm).eval(r@[k], a) == seq![
                    const_bits(*self)[k],
                ],
    {
        match self {
            ConstTerm::BV(b) => b.bitblast(tm),
            ConstTerm::Array(ar) => {
                let ghost m0 = *tm;
                let rows = ar.c.len();
                let e = ar.c[0].bv_len();
                proof {
                    crate::term::lemma_flatten_uniform_len(ar@, e as nat);
                }
                let mut out: Vec<Term> = Vec::new();
                proof {
                    assert(0 * e == 0) by (nonlinear_arith);
                }
                for j in 0..rows
                    invariant
                        tm.wf(),
                        tm.extends_novar(m0),
                        out@.len() == j * e,
                        all_bool(*tm, out@),
                        e as nat == ar@[0].len(),
                        forall|l: int, a: spec_fn(u32) -> Seq<bool>|
                            0 <= l < out@.len() ==> #[trigger] tm.eval(out@[l], a) == seq![
                                const_bits(*self)[l],
                            ],
                {
                    proof {
                        assert(j * e + e == (j + 1) * e) by (nonlinear_arith);
                        assert((j + 1) * e <= rows * e) by (nonlinear_arith)
                            requires 0 <= j + 1 <= rows, 0 <= e,
                        ;
                        assert(ar@[j as int].len() == e);
                    }
                    for i in 0..e
                        invariant
                            tm.wf(),
                            tm.extends_novar(m0),
                            out@.len() == j * e + i,
                            all_bool(*tm, out@),
                            e as nat == ar@[0].len(),
                            ar@[j as int].len() == e,
                            j < rows,
                            j * e + e <= rows * e,
                            forall|l: int, a: spec_fn(u32) -> Seq<bool>|
                                0 <= l < out@.len() ==> #[trigger] tm.eval(out@[l], a)
                                    == seq![const_bits(*self)[l]],
                    {
                        let ghost mp = *tm;
                        let bit = ar.c[j].c[i];
                        let t = tm.bool_const(bit);
                        out.push(t);
                        proof {
                            lemma_extends_novar_trans(m0, mp, *tm);
                            lemma_all_bool_frame(out@.drop_last(), mp, *tm);
                            assert(out@.drop_last() =~= out@.take(out@.len() - 1));
                            lemma_flatten_index(ar@, e as nat, j as int, i as int);
                            assert(const_bits(*self)[j * e + i] == ar@[j as int][i as int]);
                            assert(ar@[j as int][i as int] == bit);
                            assert forall|l: int, a: spec_fn(u32) -> Seq<bool>|
                                0 <= l < out@.len() implies #[trigger] tm.eval(out@[l], a)
                                == seq![const_bits(*self)[l]] by {
                                if l < out@.len() - 1 {
                                    lemma_eval_frame(mp, *tm, out@[l], a);
                                }
                            }
                        }
                    }
                }
                proof {
                    assert(out@.len() == rows * e);
                }
                out
            },
        }
    }
}

/// The fresh boolean variables that lowering node `i` may still cost:
/// the width of an uncached variable node, nothing otherwise.
pub open spec fn blast_cost(m: TermManager, memo: BitblastMemo, i: int) -> nat {
    if 0 <= i < m.nodes@.len() && (m.nodes@[i].ty is Var) && memo_entry(memo, i) is None {
        m.nodes@[i].sort.spec_width()
    } else {
        0
    }
}

/// The total variable cost of the first `n` nodes.
pub open spec fn blast_budget(m: TermManager, memo: BitblastMemo, n: int) -> nat
    decreases n,
{
    if n <= 0 {
        0
    } else {
        blast_budget(m, memo, n - 1) + blast_cost(m, memo, n - 1)
    }
}

/// The variable headroom of a manager and memo: the allocated variables
/// plus everything the pass may still allocate. The pass never grows
/// this quantity.
pub open spec fn blast_head(m: TermManager, memo: BitblastMemo) -> nat {
    (m.num_var + blast_budget(m, memo, m.nodes@.len() as int)) as nat
}

/// Every single node's cost is within the total.
proof fn lemma_budget_lower(m: TermManager, memo: BitblastMemo, i: int, n: int)
    requires
        0 <= i < n,
    ensures
        blast_cost(m, memo, i) <= blast_budget(m, memo, n),
    decreases n,
{
    if i < n - 1 {
        lemma_budget_lower(m, memo, i, n - 1);
    }
}

/// Extending the arena with non-variable nodes, keeping the memo, keeps
/// the budget.
proof fn lemma_budget_novar_ext(m0: TermManager, m1: TermManager, memo: BitblastMemo, n: int)
    requires
        m1.extends(m0),
        m0.nodes@.len() <= n <= m1.nodes@.len(),
        forall|i: int|
            m0.nodes@.len() <= i < m1.nodes@.len() ==> !((#[trigger] m1.nodes@[i]).ty is Var),
    ensures
        blast_budget(m1, memo, n) == blast_budget(m0, memo, m0.nodes@.len() as int),
    decreases n,
{
    if n == m0.nodes@.len() {
        lemma_budget_frame(m0, m1, memo, n);
    } else {
        lemma_budget_novar_ext(m0, m1, memo, n - 1);
        assert(blast_cost(m1, memo, n - 1) == 0);
    }
}

/// The budget over a fixed prefix only reads that prefix.
proof fn lemma_budget_frame(m0: TermManager, m1: TermManager, memo: BitblastMemo, n: int)
    requires
        m1.extends(m0),
        n <= m0.nodes@.len(),
    ensures
        blast_budget(m1, memo, n) == blast_budget(m0, memo, n),
    decreases n,
{
    if n > 0 {
        lemma_budget_frame(m0, m1, memo, n - 1);
        assert(m1.nodes@[n - 1] == m0.nodes@[n - 1]);
    }
}

/// A memo that keeps every cached entry can only shrink the budget.
proof fn lemma_budget_memo_mono(m: TermManager, memo0: BitblastMemo, memo1: BitblastMemo, n: int)
    requires
        forall|i: int|
            memo_entry(memo0, i) is Some ==> #[trigger] memo_entry(memo1, i) == memo_entry(
                memo0,
                i,
            ),
    ensures
        blast_budget(m, memo1, n) <= blast_budget(m, memo0, n),
    decreases n,
{
    if n > 0 {
        lemma_budget_memo_mono(m, memo0, memo1, n - 1);
        if memo_entry(memo1, n - 1) is None {
            assert(memo_entry(memo0, n - 1) is None);
        }
    }
}

/// Caching one node removes exactly its cost from the budget.
proof fn lemma_budget_put(
    m: TermManager,
    memo0: BitblastMemo,
    memo1: BitblastMemo,
    i: int,
    n: int,
)
    requires
        memo_entry(memo0, i) is None,
        memo_entry(memo1, i) is Some,
        forall|j: int| j != i ==> #[trigger] memo_entry(memo1, j) == memo_entry(memo0, j),
    ensures
        blast_budget(m, memo1, n) + (if 0 <= i < n {
            blast_cost(m, memo0, i)
        } else {
            0
        }) == blast_budget(m, memo0, n),
    decreases n,
{
    if n > 0 {
        lemma_budget_put(m, memo0, memo1, i, n - 1);
        if i != n - 1 {
            assert(memo_entry(memo1, n - 1) == memo_entry(memo0, n - 1));
        }
    }
}

/// Concatenation of already-lowered bits: the low part first.
#[verifier::loop_isolation(false)]
fn concat_bits(hi: &Vec<Term>, lo: &Vec<Term>) -> (r: Vec<Term>)
    requires
        hi@.len() + lo@.len() <= usize::MAX,
    ensures
        r@ == lo@ + hi@,
{
    let mut out = copy_terms(lo);
    let n = hi.len();
    for k in 0..n
        invariant
            out@ =~= lo@ + hi@.take(k as int),
    {
        out.push(hi[k]);
    }
    proof {
        assert(out@ =~= lo@ + hi@);
    }
    out
}

/// Sign extension of already-lowered bits: replicate the top bit.
#[verifier::loop_isolation(false)]
fn sext_bits(x: &Vec<Term>, k: usize) -> (r: Vec<Term>)
    requires
        0 < x@.len(),
        x@.len() + k <= usize::MAX,
    ensures
        r@.len() == x@.len() + k,
        forall|i: int| 0 <= i < x@.len() ==> #[trigger] r@[i] == x@[i],
        forall|i: int| x@.len() <= i < r@.len() ==> #[trigger] r@[i] == x@.last(),
{
    let mut out = copy_terms(x);
    let sign = x[x.len() - 1];
    for j in 0..k
        invariant
            out@.len() == x@.len() + j,
            forall|i: int| 0 <= i < x@.len() ==> #[trigger] out@[i] == x@[i],
            forall|i: int| x@.len() <= i < out@.len() ==> #[trigger] out@[i] == x@.last(),
    {
        out.push(sign);
    }
    out
}

/// The inclusive slice of already-lowered bits.
#[verifier::loop_isolation(false)]
fn slice_bits(x: &Vec<Term>, hi: usize, lo: usize) -> (r: Vec<Term>)
    requires
        lo <= hi < x@.len(),
    ensures
        r@ == x@.subrange(lo as int, hi + 1),
{
    let n = x.len();
    let mut out: Vec<Term> = Vec::new();
    for j in lo..hi + 1
        invariant
            hi < n == x@.len(),
            out@ =~= x@.subrange(lo as int, j as int),
    {
        out.push(x[j]);
    }
    proof {
        assert(out@ =~= x@.subrange(lo as int, hi + 1));
    }
    out
}

impl TermManager {
    /// Whether the node is a variable leaf.
    pub(crate) fn is_var_node(&self, t: Term) -> (r: bool)
        requires
            self.valid(t),
        ensures
            r == (self.node(t).ty is Var),
    {
        matches!(&self.nodes[t.id].ty, TermType::Var(_))
    }

    /// Whether the node is a constant leaf.
    pub(crate) fn is_const_node(&self, t: Term) -> (r: bool)
        requires
            self.valid(t),
        ensures
            r == (self.node(t).ty is Const),
    {
        matches!(&self.nodes[t.id].ty, TermType::Const(_))
    }

    /// Copies the flattened bits of a constant node out of the arena.
    #[verifier::loop_isolation(false)]
    fn const_payload_bits(&self, t: Term) -> (v: Vec<bool>)
        requires
            self.wf(),
            self.valid(t),
            self.node(t).ty is Const,
        ensures
            v@ == const_bits(self.node(t).ty->Const_0),
            v@.len() == self.sort_of(t).spec_width(),
    {
        proof {
            assert(self.node_wf(t.id as int));
        }
        match &self.nodes[t.id].ty {
            TermType::Const(ConstTerm::BV(b)) => {
                let mut v: Vec<bool> = Vec::new();
                let n = b.c.len();
                for k in 0..n
                    invariant
                        v@ =~= b.c@.take(k as int),
                {
                    v.push(b.c[k]);
                }
                proof {
                    assert(v@ =~= b.c@);
                }
                v
            },
            TermType::Const(ConstTerm::Array(ar)) => {
                let ghost c = self.node(t).ty->Const_0;
                proof {
                    match self.node(t).sort {
                        Sort::Array(iw, ew) => {
                            vstd::arithmetic::power2::lemma_pow2_pos(iw as nat);
                            assert(ar@.len() == pow2(iw as nat));
                        },
                        Sort::Bv(..) => {
                            assert(false);
                        },
                    }
                }
                let rows = ar.c.len();
                let e = ar.c[0].bv_len();
                proof {
                    assert forall|l: int| 0 <= l < ar@.len() implies (#[trigger] ar@[l]).len()
                        == e as nat by {
                        assert(ar@[l].len() == self.sort_of(t)->Array_1);
                        assert(ar@[0].len() == self.sort_of(t)->Array_1);
                    }
                    crate::term::lemma_flatten_uniform_len(ar@, e as nat);
                    assert(0 * e == 0) by (nonlinear_arith);
                }
                let mut v: Vec<bool> = Vec::new();
                for j in 0..rows
                    invariant
                        v@.len() == j * e,
                        e as nat == ar@[0].len(),
                        forall|l: int| 0 <= l < v@.len() ==> #[trigger] v@[l] == const_bits(c)[l],
                        v@.len() <= rows * e,
                {
                    proof {
                        assert(j * e + e == (j + 1) * e) by (nonlinear_arith);
                        assert((j + 1) * e <= rows * e) by (nonlinear_arith)
                            requires 0 <= j + 1 <= rows, 0 <= e,
                        ;
                        assert(ar@[j as int].len() == e);
                    }
                    for i in 0..e
                        invariant
                            v@.len() == j * e + i,
                            e as nat == ar@[0].len(),
                            ar@[j as int].len() == e,
                            j < rows,
                            j * e + e <= rows * e,
                            forall|l: int|
                                0 <= l < v@.len() ==> #[trigger] v@[l] == const_bits(c)[l],
                    {
                        v.push(ar.c[j].c[i]);
                        proof {
                            lemma_flatten_index(ar@, e as nat, j as int, i as int);
                        }
                    }
                }
                proof {
                    assert(v@ =~= const_bits(c));
                }
                v
            },
            TermType::Var(_) => unreached(),
            TermType::Op(_) => unreached(),
        }
    }
}

impl Term {
    /// Lowers the term into one boolean term per bit, LSB first, reusing
    /// and extending the caller's memo table.
    ///
    /// Lowering is memoized by term identity: a term already present in
    /// the memo returns the cached bit vector, touching neither the
    /// manager nor the memo. Constants lower to boolean constants bit by
    /// bit; variables allocate one fresh boolean variable per bit;
    /// operator nodes lower structurally.
    #[verifier::loop_isolation(false)]
    #[verifier::rlimit(100)]
    pub fn bitblast(self, tm: &mut TermManager, memo: &mut BitblastMemo) -> (r: Vec<Term>)
        requires
            old(tm).wf(),
            old(tm).valid(self),
            old(memo).wf(*old(tm)),
            blast_head(*old(tm), *old(memo)) <= u32::MAX,
        ensures
            final(tm).wf(),
            final(tm).extends(*old(tm)),
            final(memo).wf(*final(tm)),
            blast_head(*final(tm), *final(memo)) <= blast_head(*old(tm), *old(memo)),
            forall|i: int|
                memo_entry(*old(memo), i) is Some ==> #[trigger] memo_entry(*final(memo), i)
                    == memo_entry(*old(memo), i),
            forall|i: int|
                self.id < i < old(tm).spec_len() ==> #[trigger] memo_entry(*final(memo), i)
                    == memo_entry(*old(memo), i),
            memo_entry(*final(memo), self.id as int) == Some(r@),
            r@.len() == old(tm).sort_of(self).spec_width(),
            all_bool(*final(tm), r@),
            memo_entry(*old(memo), self.id as int) matches Some(e) ==> r@ == e && *final(tm)
                == *old(tm) && *final(memo) == *old(memo),
            (old(tm).node(self).ty matches TermType::Const(c) ==> forall|
                k: int,
                a: spec_fn(u32) -> Seq<bool>,
            |
                0 <= k < r@.len() ==> #[trigger] final(tm).eval(r@[k], a) == seq![
                    const_bits(c)[k],
                ]),
        decreases self.id,
    {
        proof {
            assert(tm.node_wf(self.id as int));
        }
        if let Some(hit) = memo.get(self) {
            return hit;
        }
        let ghost m0 = *tm;
        let ghost memo0 = *memo;
        if tm.is_const_node(self) {
            let plain = tm.const_payload_bits(self);
            let packed = crate::term::BvConst { c: plain };
            let bits = packed.bitblast(tm);
            let copy = copy_terms(&bits);
            let ghost m1 = *tm;
            proof {
                lemma_memo_frame(memo0, m0, m1);
            }
            memo.put(self, copy);
            proof {
                lemma_budget_put(m1, memo0, *memo, self.id as int, m1.spec_len() as int);
                lemma_budget_novar_keep(m0, m1, memo0);
                assert(blast_cost(m1, memo0, self.id as int) == 0) by {
                    assert(m1.nodes@[self.id as int] == m0.nodes@[self.id as int]);
                }
                lemma_pass_entry_wf(m1, *memo, memo0, self, bits@);
            }
            return bits;
        }
        if tm.is_var_node(self) {
            let sort = tm.term_sort(self);
            proof {
                lemma_budget_lower(m0, memo0, self.id as int, m0.spec_len() as int);
            }
            let bits = tm.var_bitblast(sort);
            let ghost m1 = *tm;
            proof {
                lemma_memo_frame(memo0, m0, m1);
            }
            let n = bits.len();
            for k in 0..n
                invariant
                    tm.wf(),
                    *tm == m1,
                    memo.wf(*tm),
                    all_bool(*tm, bits@),
                    bits@.len() == n,
                    forall|l: int|
                        0 <= l < n ==> (#[trigger] bits@[l]).id == m0.spec_len() + l,
                    forall|i: int|
                        !(m0.spec_len() <= i < m0.spec_len() + k)
                            ==> #[trigger] memo_entry(*memo, i) == memo_entry(memo0, i),
                    forall|l: int|
                        0 <= l < k ==> #[trigger] memo_entry(*memo, m0.spec_len() + l) == Some(
                            seq![bits@[l]],
                        ),
                    blast_budget(*tm, *memo, tm.spec_len() as int) + k == blast_budget(
                        *tm,
                        memo0,
                        tm.spec_len() as int,
                    ),
            {
                let ghost memop = *memo;
                let one = copy_terms_one(bits[k]);
                proof {
                    assert(memo_entry(memop, bits@[k as int].id as int) is None) by {
                        assert(memo_entry(memo0, bits@[k as int].id as int) is None);
                    }
                }
                memo.put(bits[k], one);
                proof {
                    lemma_budget_put(
                        *tm,
                        memop,
                        *memo,
                        bits@[k as int].id as int,
                        tm.spec_len() as int,
                    );
                    assert(blast_cost(*tm, memop, bits@[k as int].id as int) == 1);
                    assert(all_bool(*tm, seq![bits@[k as int]]));
                    lemma_pass_entry_wf(*tm, *memo, memop, bits@[k as int], seq![
                        bits@[k as int],
                    ]);
                }
            }
            let ghost memoq = *memo;
            let copy = copy_terms(&bits);
            memo.put(self, copy);
            proof {
                lemma_budget_put(m1, memoq, *memo, self.id as int, m1.spec_len() as int);
                assert(memo_entry(memoq, self.id as int) == memo_entry(memo0, self.id as int));
                assert(blast_cost(m1, memoq, self.id as int) == m0.sort_of(
                    self,
                ).spec_width()) by {
                    assert(m1.nodes@[self.id as int] == m0.nodes@[self.id as int]);
                }
                assert forall|i: int|
                    i >= m0.nodes@.len() implies #[trigger] memo_entry(memo0, i) is None by {
                    if 0 <= i < memo0.map@.len() {
                        match memo_entry(memo0, i) {
                            Some(_) => {
                                assert(i < m0.nodes@.len());
                            },
                            None => {},
                        }
                    }
                }
                lemma_budget_var_ext(m0, m1, memo0, m1.spec_len() as int);
                lemma_pass_entry_wf(m1, *memo, memoq, self, bits@);
            }
            return bits;
        }
        // an operator node: lower the operands, then apply the
        // operator's network
        let opv = match tm.node_op_of(self) {
            Some(op) => op,
            None => unreached(),
        };
        let arity = opv.num_operand();
        let mut args: Vec<Term> = Vec::new();
        for j in 0..arity
            invariant
                *tm == m0,
                *memo == memo0,
                args@.len() == j,
                arity as nat == opv.spec_num_operand(),
                tm.node(self).ty is Op,
                tm.node(self).ty->Op_0.op == opv,
                tm.node(self).ty->Op_0.terms@.len() == arity,
                forall|l: int|
                    0 <= l < j ==> #[trigger] args@[l] == tm.node(self).ty->Op_0.terms@[l],
        {
            let a = tm.node_operand(self, j);
            args.push(a);
        }
        proof {
            assert(args@ =~= m0.node(self).ty->Op_0.terms@);
        }
        let blasted = blast_args(self, tm, memo, &args);
        let ghost m2 = *tm;
        let ghost memo2 = *memo;
        let bits = apply_network(tm, opv, self, &args, &blasted);
        let ghost m3 = *tm;
        proof {
            lemma_memo_frame(memo2, m2, m3);
            lemma_budget_novar_keep(m2, m3, memo2);
            assert(memo_entry(*memo, self.id as int) is None);
        }
        let copy = copy_terms(&bits);
        memo.put(self, copy);
        proof {
            lemma_budget_put(m3, memo2, *memo, self.id as int, m3.spec_len() as int);
            lemma_pass_entry_wf(m3, *memo, memo2, self, bits@);
        }
        bits
    }
}

/// A variable-free extension keeps the full budget.
proof fn lemma_budget_novar_keep(m0: TermManager, m1: TermManager, memo: BitblastMemo)
    requires
        m1.extends_novar(m0),
    ensures
        blast_budget(m1, memo, m1.nodes@.len() as int) == blast_budget(
            m0,
            memo,
            m0.nodes@.len() as int,
        ),
{
    lemma_budget_novar_ext(m0, m1, memo, m1.nodes@.len() as int);
}

/// Appending fresh one-bit variable nodes, none of them cached, adds
/// one to the budget per node.
proof fn lemma_budget_var_ext(m0: TermManager, m1: TermManager, memo: BitblastMemo, n: int)
    requires
        m1.extends(m0),
        m0.nodes@.len() <= n <= m1.nodes@.len(),
        forall|i: int|
            m0.nodes@.len() <= i < m1.nodes@.len() ==> ((#[trigger] m1.nodes@[i]).ty is Var)
                && m1.nodes@[i].sort == Sort::Bv(1usize),
        forall|i: int| i >= m0.nodes@.len() ==> #[trigger] memo_entry(memo, i) is None,
    ensures
        blast_budget(m1, memo, n) == blast_budget(m0, memo, m0.nodes@.len() as int) + (n
            - m0.nodes@.len()),
    decreases n,
{
    if n == m0.nodes@.len() {
        lemma_budget_frame(m0, m1, memo, n);
    } else {
        lemma_budget_var_ext(m0, m1, memo, n - 1);
        assert(blast_cost(m1, memo, n - 1) == 1);
    }
}

/// Caching a correct entry keeps the memo well formed.
proof fn lemma_pass_entry_wf(
    m: TermManager,
    memo1: BitblastMemo,
    memo0: BitblastMemo,
    t: Term,
    bits: Seq<Term>,
)
    requires
        memo0.wf(m),
        m.valid(t),
        memo_entry(memo1, t.id as int) == Some(bits),
        forall|i: int| i != t.id ==> #[trigger] memo_entry(memo1, i) == memo_entry(memo0, i),
        all_bool(m, bits),
        bits.len() == m.node(t).sort.spec_width(),
        match m.node(t).ty {
            TermType::Const(c) => forall|k: int, a: spec_fn(u32) -> Seq<bool>|
                0 <= k < bits.len() ==> #[trigger] m.eval(bits[k], a) == seq![const_bits(c)[k]],
            _ => true,
        },
    ensures
        memo1.wf(m),
{
    assert forall|i: int|
        0 <= i < memo1.map@.len() implies (match #[trigger] memo_entry(memo1, i) {
        Some(b) => i < m.nodes@.len() && all_bool(m, b) && b.len()
            == m.nodes@[i].sort.spec_width() && (match m.nodes@[i].ty {
            TermType::Const(c) => forall|k: int, a: spec_fn(u32) -> Seq<bool>|
                0 <= k < b.len() ==> #[trigger] m.eval(b[k], a) == seq![const_bits(c)[k]],
            _ => true,
        }),
        None => true,
    }) by {
        if i == t.id {
        } else {
            assert(memo_entry(memo1, i) == memo_entry(memo0, i));
            if 0 <= i < memo0.map@.len() {
                assert(memo_entry(memo0, i) == memo_entry(memo0, i));
            } else {
                assert(memo_entry(memo0, i) is None);
            }
        }
    }
}

/// Lowers every operand of an operator node, left to right, sharing the
/// memo.
#[verifier::loop_isolation(false)]
fn blast_args(
    parent: Term,
    tm: &mut TermManager,
    memo: &mut BitblastMemo,
    args: &Vec<Term>,
) -> (r: Vec<Vec<Term>>)
    requires
        old(tm).wf(),
        old(tm).valid(parent),
        old(memo).wf(*old(tm)),
        blast_head(*old(tm), *old(memo)) <= u32::MAX,
        old(tm).node(parent).ty is Op,
        args@ == old(tm).node(parent).ty->Op_0.terms@,
    ensures
        final(tm).wf(),
        final(tm).extends(*old(tm)),
        final(memo).wf(*final(tm)),
        blast_head(*final(tm), *final(memo)) <= blast_head(*old(tm), *old(memo)),
        forall|i: int|
            memo_entry(*old(memo), i) is Some ==> #[trigger] memo_entry(*final(memo), i)
                == memo_entry(*old(memo), i),
        forall|i: int|
            parent.id <= i < old(tm).spec_len() ==> #[trigger] memo_entry(*final(memo), i)
                == memo_entry(*old(memo), i),
        r@.len() == args@.len(),
        forall|j: int|
            0 <= j < r@.len() ==> all_bool(*final(tm), (#[trigger] r@[j])@) && r@[j]@.len()
                == old(tm).sort_of(args@[j]).spec_width(),
    decreases parent.id, 0int,
{
    proof {
        assert(tm.node_wf(parent.id as int));
    }
    let ghost m0 = *tm;
    let ghost memo0 = *memo;
    let mut out: Vec<Vec<Term>> = Vec::new();
    let n = args.len();
    for j in 0..n
        invariant
            tm.wf(),
            tm.extends(m0),
            memo.wf(*tm),
            blast_head(*tm, *memo) <= blast_head(m0, memo0),
            out@.len() == j,
            forall|i: int|
                memo_entry(memo0, i) is Some ==> #[trigger] memo_entry(*memo, i) == memo_entry(
                    memo0,
                    i,
                ),
            forall|i: int|
                parent.id <= i < m0.spec_len() ==> #[trigger] memo_entry(*memo, i)
                    == memo_entry(memo0, i),
            forall|l: int|
                0 <= l < j ==> all_bool(*tm, (#[trigger] out@[l])@) && out@[l]@.len()
                    == m0.sort_of(args@[l]).spec_width(),
    {
        let ghost mp = *tm;
        let ghost memop = *memo;
        proof {
            assert(args@[j as int].id < parent.id);
            assert(tm.nodes@[args@[j as int].id as int] == m0.nodes@[args@[j as int].id
                as int]);
        }
        let bv = args[j].bitblast(tm, memo);
        out.push(bv);
        proof {
            lemma_extends_trans(m0, mp, *tm);
            assert forall|i: int|
                memo_entry(memo0, i) is Some implies #[trigger] memo_entry(*memo, i)
                == memo_entry(memo0, i) by {
                assert(memo_entry(memop, i) == memo_entry(memo0, i));
            }
            assert forall|i: int|
                parent.id <= i < m0.spec_len() implies #[trigger] memo_entry(*memo, i)
                == memo_entry(memo0, i) by {
                assert(args@[j as int].id < i < mp.spec_len());
                assert(memo_entry(*memo, i) == memo_entry(memop, i));
            }
            assert forall|l: int|
                0 <= l < j + 1 implies all_bool(*tm, (#[trigger] out@[l])@) && out@[l]@.len()
                == m0.sort_of(args@[l]).spec_width() by {
                if l < j {
                    lemma_all_bool_frame(out@[l]@, mp, *tm);
                } else {
                    assert(out@[l]@ == bv@);
                    assert(mp.sort_of(args@[l]) == m0.sort_of(args@[l]));
                }
            }
        }
    }
    out
}

/// Applies one core operator's lowering network to the operands'
/// already-lowered bits.
#[verifier::loop_isolation(false)]
fn apply_network(
    tm: &mut TermManager,
    op: Op,
    parent: Term,
    args: &Vec<Term>,
    blasted: &Vec<Vec<Term>>,
) -> (r: Vec<Term>)
    requires
        old(tm).wf(),
        old(tm).valid(parent),
        old(tm).node(parent).ty is Op,
        old(tm).node(parent).ty->Op_0.op == op,
        args@ == old(tm).node(parent).ty->Op_0.terms@,
        blasted@.len() == args@.len(),
        forall|j: int|
            0 <= j < blasted@.len() ==> all_bool(*old(tm), (#[trigger] blasted@[j])@)
                && blasted@[j]@.len() == old(tm).sort_of(args@[j]).spec_width(),
    ensures
        final(tm).wf(),
        final(tm).extends_novar(*old(tm)),
        all_bool(*final(tm), r@),
        r@.len() == old(tm).sort_of(parent).spec_width(),
{
    let ghost m0 = *tm;
    let ghost ss = m0.sorts_of(args@);
    proof {
        assert(tm.node_wf(parent.id as int));
        assert forall|j: int| 0 <= j < args@.len() implies #[trigger] ss[j] == m0.sort_of(
            args@[j],
        ) by {}
        assert(op.args_wf(ss));
        assert(m0.sort_of(parent) == op.result_sort(ss));
    }
    match op {
        Op::Not => tm.not_bits(&blasted[0]),
        Op::And | Op::Or | Op::Xor => {
            let r = tm.new_op_terms_elementwise(op, &blasted[0], &blasted[1]);
            proof {
                assert forall|i: int| 0 <= i < r@.len() implies tm.valid(#[trigger] r@[i])
                    && tm.sort_of(r@[i]) == Sort::Bv(1usize) by {}
            }
            r
        },
        Op::Eq => {
            proof {
                crate::sort::lemma_sort_width_pos(ss[0]);
            }
            let t = tm.eq_bits(&blasted[0], &blasted[1]);
            copy_terms_one(t)
        },
        Op::Ult => {
            let t = tm.ult_bits(&blasted[0], &blasted[1]);
            copy_terms_one(t)
        },
        Op::Slt => {
            proof {
                crate::sort::lemma_sort_width_pos(ss[0]);
            }
            let t = tm.slt_bits(&blasted[0], &blasted[1]);
            copy_terms_one(t)
        },
        Op::Sll => {
            proof {
                crate::sort::lemma_sort_width_pos(ss[0]);
            }
            tm.sll_bits(&blasted[0], &blasted[1])
        },
        Op::Srl => {
            proof {
                crate::sort::lemma_sort_width_pos(ss[0]);
            }
            tm.srl_bits(&blasted[0], &blasted[1])
        },
        Op::Sra => {
            proof {
                crate::sort::lemma_sort_width_pos(ss[0]);
            }
            tm.sra_bits(&blasted[0], &blasted[1])
        },
        Op::Ite => {
            let c = blasted[0][0];
            tm.ite_bits(c, &blasted[1], &blasted[2])
        },
        Op::Concat => {
            let r = concat_bits(&blasted[0], &blasted[1]);
            proof {
                assert forall|i: int| 0 <= i < r@.len() implies tm.valid(#[trigger] r@[i])
                    && tm.sort_of(r@[i]) == Sort::Bv(1usize) by {
                    if i < blasted@[1]@.len() {
                        assert(r@[i] == blasted@[1]@[i]);
                    } else {
                        assert(r@[i] == blasted@[0]@[i - blasted@[1]@.len()]);
                    }
                }
            }
            r
        },
        Op::Sext => {
            proof {
                crate::sort::lemma_sort_width_pos(ss[0]);
            }
            let k = blasted[1].len();
            let r = sext_bits(&blasted[0], k);
            proof {
                assert forall|i: int| 0 <= i < r@.len() implies tm.valid(#[trigger] r@[i])
                    && tm.sort_of(r@[i]) == Sort::Bv(1usize) by {
                    if i < blasted@[0]@.len() {
                        assert(r@[i] == blasted@[0]@[i]);
                    } else {
                        assert(r@[i] == blasted@[0]@.last());
                    }
                }
            }
            r
        },
        Op::Slice => {
            let hi = blasted[1].len();
            let lo = blasted[2].len();
            let r = slice_bits(&blasted[0], hi, lo);
            proof {
                assert forall|i: int| 0 <= i < r@.len() implies tm.valid(#[trigger] r@[i])
                    && tm.sort_of(r@[i]) == Sort::Bv(1usize) by {
                    assert(r@[i] == blasted@[0]@[i + lo]);
                }
            }
            r
        },
        Op::Redxor => {
            proof {
                crate::sort::lemma_sort_width_pos(ss[0]);
            }
            let t = tm.redxor_bits(&blasted[0]);
            copy_terms_one(t)
        },
        Op::Add => tm.add_bits(&blasted[0], &blasted[1]),
        Op::Mul => {
            proof {
                crate::sort::lemma_sort_width_pos(ss[0]);
            }
            tm.mul_bits(&blasted[0], &blasted[1])
        },
        Op::Read => {
            let e = match tm.term_sort(args[0]) {
                Sort::Array(_iw, ew) => ew,
                Sort::Bv(..) => unreached(),
            };
            tm.read_bits(&blasted[0], &blasted[1], e)
        },
        Op::Write => tm.write_bits(&blasted[0], &blasted[1], &blasted[2]),
        _ => {
            proof {
                assert(op.spec_is_core());
                assert(false);
            }
            unreached()
        },
    }
}

/// Lowers each term of a batch, sharing the memo and the manager, so
/// DAG structure shared across the batch is lowered once.
#[verifier::loop_isolation(false)]
pub fn bitblast_terms(
    terms: &Vec<Term>,
    tm: &mut TermManager,
    memo: &mut BitblastMemo,
) -> (r: Vec<Vec<Term>>)
    requires
        old(tm).wf(),
        old(tm).all_valid(terms@),
        old(memo).wf(*old(tm)),
        blast_head(*old(tm), *old(memo)) <= u32::MAX,
    ensures
        final(tm).wf(),
        final(tm).extends(*old(tm)),
        final(memo).wf(*final(tm)),
        blast_head(*final(tm), *final(memo)) <= blast_head(*old(tm), *old(memo)),
        r@.len() == terms@.len(),
        forall|j: int|
            0 <= j < r@.len() ==> memo_entry(*final(memo), terms@[j].id as int) == Some(
                (#[trigger] r@[j])@,
            ) && r@[j]@.len() == old(tm).sort_of(terms@[j]).spec_width() && all_bool(
                *final(tm),
                r@[j]@,
            ),
{
    let ghost m0 = *tm;
    let ghost memo0 = *memo;
    let mut out: Vec<Vec<Term>> = Vec::new();
    let n = terms.len();
    for k in 0..n
        invariant
            tm.wf(),
            tm.extends(m0),
            memo.wf(*tm),
            blast_head(*tm, *memo) <= blast_head(m0, memo0),
            out@.len() == k,
            forall|i: int|
                memo_entry(memo0, i) is Some ==> #[trigger] memo_entry(*memo, i) == memo_entry(
                    memo0,
                    i,
                ),
            forall|j: int|
                0 <= j < k ==> memo_entry(*memo, terms@[j].id as int) == Some(
                    (#[trigger] out@[j])@,
                ) && out@[j]@.len() == m0.sort_of(terms@[j]).spec_width() && all_bool(
                    *tm,
                    out@[j]@,
                ),
    {
        let ghost mp = *tm;
        let ghost memop = *memo;
        proof {
            assert(tm.nodes@[terms@[k as int].id as int] == m0.nodes@[terms@[k as int].id
                as int]);
        }
        let bv = terms[k].bitblast(tm, memo);
        out.push(bv);
        proof {
            lemma_extends_trans(m0, mp, *tm);
            assert forall|i: int|
                memo_entry(memo0, i) is Some implies #[trigger] memo_entry(*memo, i)
                == memo_entry(memo0, i) by {
                assert(memo_entry(memop, i) == memo_entry(memo0, i));
            }
            assert forall|j: int|
                0 <= j < k + 1 implies memo_entry(*memo, terms@[j].id as int) == Some(
                (#[trigger] out@[j])@,
            ) && out@[j]@.len() == m0.sort_of(terms@[j]).spec_width() && all_bool(
                *tm,
                out@[j]@,
            ) by {
                if j < k {
                    assert(memo_entry(memop, terms@[j].id as int) == Some(out@[j]@));
                    lemma_all_bool_frame(out@[j]@, mp, *tm);
                } else {
                    assert(mp.sort_of(terms@[j]) == m0.sort_of(terms@[j]));
                }
            }
        }
    }
    out
}

/// A single-term vector.
fn copy_terms_one(t: Term) -> (r: Vec<Term>)
    ensures
        r@ =~= seq![t],
{
    let mut v: Vec<Term> = Vec::new();
    v.push(t);
    v
}

/// `1usize << i` is `pow2(i)` when that power fits.
proof fn shl_is_pow2(i: nat)
    requires
        i < 32,
        pow2(i) <= 0x1000_0000,
    ensures
        (1usize << i) == pow2(i),
        pow2(i) >= 1,
{
    vstd::arithmetic::power2::lemma_pow2_pos(i);
    assert(1usize * pow2(i) == pow2(i));
    vstd::bits::lemma_usize_shl_is_mul(1usize, i as usize);
}

} // verus!
