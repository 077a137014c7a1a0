//! The hash-consed term graph and its canonicalizing factory.
//!
//! A `Term` is a handle (a stable index) into the node arena owned by its
//! `TermManager`. The manager interns every node: two structurally equal
//! node descriptions always resolve to the same handle, so equality of
//! handles is equality of structure. Operands of an operator node are
//! always previously constructed (older) nodes, so the graph is a DAG by
//! construction.

use crate::op::Op;
use crate::semantics::{apply_core, to_nat};
use crate::sort::Sort;
use vstd::arithmetic::power2::pow2;
use vstd::prelude::*;

verus! {

/// A literal bit pattern; bit 0 is the least significant bit.
#[derive(Clone, Debug)]
pub struct BvConst {
    pub c: Vec<bool>,
}

impl View for BvConst {
    type V = Seq<bool>;

    open spec fn view(&self) -> Seq<bool> {
        self.c@
    }
}

impl BvConst {
    pub fn new(c: &[bool]) -> (r: Self)
        ensures
            r@ == c@,
    {
        BvConst { c: vstd::slice::slice_to_vec(c) }
    }

    pub fn bv_len(&self) -> (r: usize)
        ensures
            r == self@.len(),
    {
        self.c.len()
    }
}

/// An array literal: one bit-vector constant per element.
#[derive(Clone, Debug)]
pub struct ArrayConst {
    pub c: Vec<BvConst>,
}

impl View for ArrayConst {
    type V = Seq<Seq<bool>>;

    open spec fn view(&self) -> Seq<Seq<bool>> {
        self.c@.map_values(|b: BvConst| b@)
    }
}

/// A constant leaf payload.
#[derive(Clone, Debug)]
pub enum ConstTerm {
    BV(BvConst),
    Array(ArrayConst),
}

/// A handle onto a node of the term graph. Handles are produced only by a
/// `TermManager`; comparing handles compares identity, which by the
/// interning invariant is structural equality.
#[derive(Clone, Copy, PartialEq, Eq, Structural, Debug, Hash)]
pub struct Term {
    pub id: usize,
}

/// An interior node: a core operator applied to operand handles.
#[derive(Clone, Debug)]
pub struct OpTerm {
    pub op: Op,
    pub terms: Vec<Term>,
}

/// The description of a node: a constant, a variable, or an operator
/// application.
#[derive(Clone, Debug)]
pub enum TermType {
    Const(ConstTerm),
    Var(u32),
    Op(OpTerm),
}

/// A stored node: its description and its sort.
#[derive(Clone, Debug)]
pub struct TermInner {
    pub sort: Sort,
    pub ty: TermType,
}

impl TermInner {
    pub fn sort(&self) -> (r: Sort)
        ensures
            r == self.sort,
    {
        self.sort
    }
}

/// Structural equality of constant payloads.
pub open spec fn const_eq(a: ConstTerm, b: ConstTerm) -> bool {
    match (a, b) {
        (ConstTerm::BV(x), ConstTerm::BV(y)) => x@ == y@,
        (ConstTerm::Array(x), ConstTerm::Array(y)) => x@ == y@,
        _ => false,
    }
}

/// Structural equality of node descriptions: the relation the interning
/// table canonicalizes by.
pub open spec fn ty_eq(a: TermType, b: TermType) -> bool {
    match (a, b) {
        (TermType::Const(x), TermType::Const(y)) => const_eq(x, y),
        (TermType::Var(x), TermType::Var(y)) => x == y,
        (TermType::Op(x), TermType::Op(y)) => x.op == y.op && x.terms@ == y.terms@,
        _ => false,
    }
}

/// Whether a constant payload fits a sort.
pub open spec fn const_sort_ok(c: ConstTerm, sort: Sort) -> bool {
    match (c, sort) {
        (ConstTerm::BV(b), Sort::Bv(w)) => b@.len() == w,
        (ConstTerm::Array(ar), Sort::Array(i, e)) => ar@.len() == pow2(i as nat) && (forall|j: int|
            0 <= j < ar@.len() ==> (#[trigger] ar@[j]).len() == e),
        _ => false,
    }
}

/// The flattened bits of a constant payload, element 0 lowest.
pub open spec fn const_bits(c: ConstTerm) -> Seq<bool> {
    match c {
        ConstTerm::BV(b) => b@,
        ConstTerm::Array(ar) => ar@.flatten(),
    }
}

/// The canonicalizing factory and exclusive owner of the node arena.
#[derive(Debug)]
pub struct TermManager {
    pub nodes: Vec<TermInner>,
    pub num_var: u32,
}

impl TermManager {
    pub open spec fn spec_len(self) -> nat {
        self.nodes@.len()
    }

    /// A handle is valid when it points into this manager's arena.
    pub open spec fn valid(self, t: Term) -> bool {
        t.id < self.nodes@.len()
    }

    pub open spec fn all_valid(self, ts: Seq<Term>) -> bool {
        forall|i: int| 0 <= i < ts.len() ==> self.valid(#[trigger] ts[i])
    }

    pub open spec fn node(self, t: Term) -> TermInner {
        self.nodes@[t.id as int]
    }

    pub open spec fn sort_of(self, t: Term) -> Sort {
        self.node(t).sort
    }

    pub open spec fn sorts_of(self, ts: Seq<Term>) -> Seq<Sort> {
        ts.map_values(|t: Term| self.sort_of(t))
    }

    /// Well-formedness of one stored node: its sort is well formed and
    /// matches its description, and an operator node applies a core
    /// operator of the right arity to older, sort-correct operands.
    pub open spec fn node_wf(self, i: int) -> bool {
        let n = self.nodes@[i];
        n.sort.wf() && match n.ty {
            TermType::Const(c) => const_sort_ok(c, n.sort),
            TermType::Var(v) => v < self.num_var,
            TermType::Op(ot) => ot.op.spec_is_core() && (forall|j: int|
                0 <= j < ot.terms@.len() ==> (#[trigger] ot.terms@[j]).id < i) && ot.op.args_wf(
                self.sorts_of(ot.terms@),
            ) && n.sort == ot.op.result_sort(self.sorts_of(ot.terms@)),
        }
    }

    /// The manager invariant: every node is well formed and no two nodes
    /// share a description (the hash-consing invariant).
    pub open spec fn wf(self) -> bool {
        (forall|i: int| 0 <= i < self.nodes@.len() ==> #[trigger] self.node_wf(i)) && (forall|
            i: int,
            j: int,
        |
            0 <= i < j < self.nodes@.len() ==> !ty_eq(
                (#[trigger] self.nodes@[i]).ty,
                (#[trigger] self.nodes@[j]).ty,
            ))
    }

    /// `self` extends `m0`: every node of `m0` is still present, at the
    /// same index. Handles never dangle and nodes never change.
    pub open spec fn extends(self, m0: TermManager) -> bool {
        m0.nodes@.len() <= self.nodes@.len() && m0.num_var <= self.num_var && (forall|i: int|
            0 <= i < m0.nodes@.len() ==> #[trigger] self.nodes@[i] == m0.nodes@[i])
    }

    /// `self` extends `m0` without allocating variables.
    pub open spec fn extends_novar(self, m0: TermManager) -> bool {
        self.extends(m0) && self.num_var == m0.num_var && (forall|i: int|
            m0.nodes@.len() <= i < self.nodes@.len() ==> !((#[trigger] self.nodes@[i]).ty
                is Var))
    }

    /// An assignment gives every variable of the graph a bit pattern of
    /// its sort's width.
    pub open spec fn var_ok(self, i: int, a: spec_fn(u32) -> Seq<bool>) -> bool {
        match self.nodes@[i].ty {
            TermType::Var(v) => a(v).len() == self.nodes@[i].sort.spec_width(),
            _ => true,
        }
    }

    pub open spec fn assignment_ok(self, a: spec_fn(u32) -> Seq<bool>) -> bool {
        forall|i: int| 0 <= i < self.nodes@.len() ==> #[trigger] self.var_ok(i, a)
    }

    /// The meaning of a term under an assignment: its flattened bit
    /// pattern, computed structurally over the DAG.
    pub open spec fn eval(self, t: Term, a: spec_fn(u32) -> Seq<bool>) -> Seq<bool>
        decreases t.id,
        when self.wf() && self.valid(t)
    {
        match self.node(t).ty {
            TermType::Const(c) => const_bits(c),
            TermType::Var(v) => a(v),
            TermType::Op(ot) => {
                proof {
                    assert(self.node_wf(t.id as int));
                }
                let ts = ot.terms@;
                if ts.len() == 1 {
                    apply_core(ot.op, seq![self.eval(ts[0], a)])
                } else if ts.len() == 2 {
                    apply_core(ot.op, seq![self.eval(ts[0], a), self.eval(ts[1], a)])
                } else if ts.len() == 3 {
                    apply_core(
                        ot.op,
                        seq![
                            self.eval(ts[0], a),
                            self.eval(ts[1], a),
                            self.eval(ts[2], a),
                        ],
                    )
                } else {
                    Seq::empty()
                }
            },
        }
    }

    /// Whether node `i` is the bit-vector constant with these bits.
    pub open spec fn is_bv_const_node(self, i: int, bits: Seq<bool>) -> bool {
        0 <= i < self.nodes@.len() && match self.nodes@[i].ty {
            TermType::Const(ConstTerm::BV(b)) => b@ == bits,
            _ => false,
        }
    }

    pub open spec fn has_bv_const(self, bits: Seq<bool>) -> bool {
        exists|i: int| self.is_bv_const_node(i, bits)
    }

    /// Whether node `i` applies `op` to exactly these operand handles.
    pub open spec fn is_op_node(self, i: int, op: Op, args: Seq<Term>) -> bool {
        0 <= i < self.nodes@.len() && match self.nodes@[i].ty {
            TermType::Op(ot) => ot.op == op && ot.terms@ == args,
            _ => false,
        }
    }

    pub open spec fn has_op_node(self, op: Op, args: Seq<Term>) -> bool {
        exists|i: int| self.is_op_node(i, op, args)
    }

    /// The operand meanings of a sequence of terms.
    pub open spec fn eval_args(
        self,
        ts: Seq<Term>,
        a: spec_fn(u32) -> Seq<bool>,
    ) -> Seq<Seq<bool>> {
        ts.map_values(|t: Term| self.eval(t, a))
    }

    /// Whether node `i` is the constant with all bits equal to `val`.
    pub open spec fn is_const_fill_node(self, i: int, val: bool) -> bool {
        0 <= i < self.nodes@.len() && match self.nodes@[i].ty {
            TermType::Const(ConstTerm::BV(b)) => forall|k: int| 0 <= k < b@.len() ==> b@[k] == val,
            _ => false,
        }
    }

    /// Whether node `x` is the operator `op` applied to exactly `[y]`.
    pub open spec fn is_not_of(self, x: Term, y: Term) -> bool {
        self.valid(x) && match self.node(x).ty {
            TermType::Op(ot) => ot.op == Op::Not && ot.terms@ == seq![y],
            _ => false,
        }
    }

    /// Whether some node already carries this description.
    pub open spec fn has_ty(self, ty: TermType) -> bool {
        exists|i: int| 0 <= i < self.nodes@.len() && ty_eq(self.nodes@[i].ty, ty)
    }

    /// The index of the node carrying this description (unique under
    /// `wf`).
    pub open spec fn index_of_ty(self, ty: TermType) -> int {
        choose|i: int| 0 <= i < self.nodes@.len() && ty_eq(self.nodes@[i].ty, ty)
    }
}

/// Evaluation reads only the nodes reachable from `t`, all of which an
/// extension keeps unchanged, so extending the arena never changes the
/// meaning of an existing term.
pub proof fn lemma_eval_frame(
    m0: TermManager,
    m1: TermManager,
    t: Term,
    a: spec_fn(u32) -> Seq<bool>,
)
    requires
        m0.wf(),
        m1.wf(),
        m1.extends(m0),
        m0.valid(t),
    ensures
        m1.eval(t, a) == m0.eval(t, a),
    decreases t.id,
{
    assert(m0.node_wf(t.id as int));
    assert(m1.nodes@[t.id as int] == m0.nodes@[t.id as int]);
    match m0.node(t).ty {
        TermType::Const(c) => {},
        TermType::Var(v) => {},
        TermType::Op(ot) => {
            let ts = ot.terms@;
            assert forall|j: int| 0 <= j < ts.len() implies m1.eval(#[trigger] ts[j], a)
                == m0.eval(ts[j], a) by {
                lemma_eval_frame(m0, m1, ts[j], a);
            }
            if ts.len() == 1 {
                assert(seq![m1.eval(ts[0], a)] =~= seq![m0.eval(ts[0], a)]);
            } else if ts.len() == 2 {
                assert(seq![m1.eval(ts[0], a), m1.eval(ts[1], a)] =~= seq![
                    m0.eval(ts[0], a),
                    m0.eval(ts[1], a),
                ]);
            } else if ts.len() == 3 {
                assert(seq![m1.eval(ts[0], a), m1.eval(ts[1], a), m1.eval(ts[2], a)] =~= seq![
                    m0.eval(ts[0], a),
                    m0.eval(ts[1], a),
                    m0.eval(ts[2], a),
                ]);
            }
        },
    }
}

/// An extension that allocates no variables accepts exactly the same
/// assignments.
pub proof fn lemma_assignment_frame(
    m0: TermManager,
    m1: TermManager,
    a: spec_fn(u32) -> Seq<bool>,
)
    requires
        m1.extends_novar(m0),
    ensures
        m1.assignment_ok(a) == m0.assignment_ok(a),
{
    if m1.assignment_ok(a) {
        assert forall|i: int| 0 <= i < m0.nodes@.len() implies #[trigger] m0.var_ok(i, a) by {
            assert(m1.var_ok(i, a));
        }
    }
    if m0.assignment_ok(a) {
        assert forall|i: int| 0 <= i < m1.nodes@.len() implies #[trigger] m1.var_ok(i, a) by {
            if i < m0.nodes@.len() {
                assert(m0.var_ok(i, a));
            }
        }
    }
}

// ----------------------------------------------------------------------
// executable structural equality, used by the interning lookup
// ----------------------------------------------------------------------
#[verifier::loop_isolation(false)]
fn bools_eq(x: &Vec<bool>, y: &Vec<bool>) -> (r: bool)
    ensures
        r == (x@ == y@),
{
    if x.len() != y.len() {
        proof {
            assert(x@ != y@);
        }
        return false;
    }
    let n = x.len();
    for k in 0..n
        invariant
            n == x.len() == y.len(),
            forall|j: int| 0 <= j < k ==> x@[j] == y@[j],
    {
        if x[k] != y[k] {
            proof {
                assert(x@[k as int] != y@[k as int]);
            }
            return false;
        }
    }
    proof {
        assert(x@ =~= y@);
    }
    true
}

#[verifier::loop_isolation(false)]
fn const_equal(x: &ConstTerm, y: &ConstTerm) -> (r: bool)
    ensures
        r == const_eq(*x, *y),
{
    match (x, y) {
        (ConstTerm::BV(a), ConstTerm::BV(b)) => bools_eq(&a.c, &b.c),
        (ConstTerm::Array(a), ConstTerm::Array(b)) => {
            if a.c.len() != b.c.len() {
                proof {
                    assert(a@.len() != b@.len());
                }
                return false;
            }
            let n = a.c.len();
            for k in 0..n
                invariant
                    n == a.c.len() == b.c.len(),
                    forall|j: int| 0 <= j < k ==> a@[j] == b@[j],
            {
                proof {
                    assert(a@[k as int] == a.c@[k as int]@);
                    assert(b@[k as int] == b.c@[k as int]@);
                }
                if !bools_eq(&a.c[k].c, &b.c[k].c) {
                    proof {
                        assert(a@[k as int] != b@[k as int]);
                    }
                    return false;
                }
                proof {
                    assert(a@[k as int] == b@[k as int]);
                }
            }
            proof {
                assert(a@ =~= b@);
            }
            true
        },
        _ => false,
    }
}

#[verifier::loop_isolation(false)]
fn terms_eq(x: &Vec<Term>, y: &Vec<Term>) -> (r: bool)
    ensures
        r == (x@ == y@),
{
    if x.len() != y.len() {
        proof {
            assert(x@ != y@);
        }
        return false;
    }
    let n = x.len();
    for k in 0..n
        invariant
            n == x.len() == y.len(),
            forall|j: int| 0 <= j < k ==> x@[j] == y@[j],
    {
        if x[k] != y[k] {
            proof {
                assert(x@[k as int] != y@[k as int]);
            }
            return false;
        }
    }
    proof {
        assert(x@ =~= y@);
    }
    true
}

fn ty_equal(x: &TermType, y: &TermType) -> (r: bool)
    ensures
        r == ty_eq(*x, *y),
{
    match (x, y) {
        (TermType::Const(a), TermType::Const(b)) => const_equal(a, b),
        (TermType::Var(a), TermType::Var(b)) => *a == *b,
        (TermType::Op(a), TermType::Op(b)) => a.op == b.op && terms_eq(&a.terms, &b.terms),
        _ => false,
    }
}

impl TermManager {
    pub fn new() -> (r: TermManager)
        ensures
            r.wf(),
            r.nodes@.len() == 0,
            r.num_var == 0,
    {
        TermManager { nodes: Vec::new(), num_var: 0 }
    }

    /// How many nodes the manager holds.
    pub fn size(&self) -> (r: usize)
        ensures
            r == self.spec_len(),
    {
        self.nodes.len()
    }

    /// Node reclamation is a declared but inert hook: all nodes stay live
    /// for the manager's lifetime.
    pub fn garbage_collect(&mut self)
        ensures
            *final(self) == *old(self),
    {
    }

    /// Interns a node description: returns the existing handle when one
    /// node already carries an equal description (leaving the manager
    /// untouched), and appends a fresh node otherwise.
    #[verifier::loop_isolation(false)]
    pub(crate) fn new_term(&mut self, ty: TermType, sort: Sort) -> (r: Term)
        requires
            old(self).wf(),
            sort.wf(),
            match ty {
                TermType::Const(c) => const_sort_ok(c, sort),
                TermType::Var(v) => v < old(self).num_var,
                TermType::Op(ot) => ot.op.spec_is_core() && (forall|j: int|
                    0 <= j < ot.terms@.len() ==> (#[trigger] ot.terms@[j]).id
                        < old(self).nodes@.len()) && ot.op.args_wf(
                    old(self).sorts_of(ot.terms@),
                ) && sort == ot.op.result_sort(old(self).sorts_of(ot.terms@)),
            },
        ensures
            final(self).wf(),
            final(self).extends(*old(self)),
            final(self).num_var == old(self).num_var,
            final(self).valid(r),
            ty_eq(final(self).node(r).ty, ty),
            old(self).has_ty(ty) ==> *final(self) == *old(self) && r.id == old(self).index_of_ty(
                ty,
            ),
            !old(self).has_ty(ty) ==> final(self).nodes@ == old(self).nodes@.push(
                TermInner { sort, ty },
            ) && r.id == old(self).nodes@.len() && final(self).node(r).sort == sort
                && final(self).node(r).ty == ty,
    {
        let n = self.nodes.len();
        for k in 0..n
            invariant
                *self == *old(self),
                n == self.nodes@.len(),
                forall|j: int| 0 <= j < k ==> !ty_eq(self.nodes@[j].ty, ty),
        {
            if ty_equal(&self.nodes[k].ty, &ty) {
                proof {
                    assert(ty_eq(self.nodes@[k as int].ty, ty));
                    assert(self.has_ty(ty));
                    let w = self.index_of_ty(ty);
                    if w != k {
                        if w < k {
                            assert(!ty_eq(self.nodes@[w].ty, ty));
                        } else {
                            assert(!ty_eq(self.nodes@[k as int].ty, self.nodes@[w].ty));
                            lemma_ty_eq_trans(self.nodes@[k as int].ty, ty, self.nodes@[w].ty);
                        }
                    }
                }
                return Term { id: k };
            }
        }
        proof {
            assert(!self.has_ty(ty));
        }
        let id = self.nodes.len();
        self.nodes.push(TermInner { sort, ty });
        proof {
            let m0 = *old(self);
            let m1 = *self;
            assert forall|i: int| 0 <= i < m1.nodes@.len() implies #[trigger] m1.node_wf(i) by {
                if i < m0.nodes@.len() {
                    assert(m0.node_wf(i));
                    lemma_node_wf_frame(m0, m1, i);
                } else {
                    assert(m1.nodes@[i] == TermInner { sort, ty });
                    match ty {
                        TermType::Op(ot) => {
                            assert(m1.sorts_of(ot.terms@) =~= m0.sorts_of(ot.terms@));
                        },
                        _ => {},
                    }
                }
            }
            assert forall|i: int, j: int| 0 <= i < j < m1.nodes@.len() implies !ty_eq(
                (#[trigger] m1.nodes@[i]).ty,
                (#[trigger] m1.nodes@[j]).ty,
            ) by {
                if j < m0.nodes@.len() {
                } else {
                    assert(m1.nodes@[j].ty == ty);
                    assert(m1.nodes@[i] == m0.nodes@[i]);
                }
            }
        }
        Term { id }
    }
}

fn fill_vec(len: usize, val: bool) -> (r: Vec<bool>)
    ensures
        r@ == Seq::new(len as nat, |i: int| val),
{
    let mut v: Vec<bool> = Vec::new();
    for k in 0..len
        invariant
            v@ =~= Seq::new(k as nat, |i: int| val),
    {
        v.push(val);
    }
    proof {
        assert(v@ =~= Seq::new(len as nat, |i: int| val));
    }
    v
}

impl TermManager {
    /// Interns the bit-vector constant with exactly these bits: repeated
    /// calls with equal bit patterns return the identical handle.
    pub(crate) fn intern_bv_const(&mut self, bits: Vec<bool>) -> (r: Term)
        requires
            old(self).wf(),
            0 < bits@.len() <= 0x1000_0000,
        ensures
            final(self).wf(),
            final(self).extends_novar(*old(self)),
            final(self).valid(r),
            final(self).is_bv_const_node(r.id as int, bits@),
            final(self).sort_of(r) == Sort::Bv(bits@.len() as usize),
            forall|a: spec_fn(u32) -> Seq<bool>| #[trigger] final(self).eval(r, a) == bits@,
            old(self).has_bv_const(bits@) ==> *final(self) == *old(self),
            !old(self).has_bv_const(bits@) ==> final(self).nodes@.len() == old(
                self,
            ).nodes@.len() + 1 && r.id == old(self).nodes@.len(),
    {
        let ghost bs = bits@;
        let len = bits.len();
        let ty = TermType::Const(ConstTerm::BV(BvConst { c: bits }));
        let sort = Sort::Bv(len);
        proof {
            if old(self).has_bv_const(bs) {
                let i = choose|i: int| old(self).is_bv_const_node(i, bs);
                assert(ty_eq(old(self).nodes@[i].ty, ty));
                assert(old(self).has_ty(ty));
            }
            if old(self).has_ty(ty) {
                let i = choose|i: int|
                    0 <= i < old(self).nodes@.len() && ty_eq(old(self).nodes@[i].ty, ty);
                assert(old(self).is_bv_const_node(i, bs));
                assert(old(self).has_bv_const(bs));
            }
        }
        let r = self.new_term(ty, sort);
        proof {
            assert(ty_eq(self.node(r).ty, ty));
            assert(self.node_wf(r.id as int));
            match self.node(r).ty {
                TermType::Const(c) => {
                    assert(const_sort_ok(c, self.node(r).sort));
                },
                _ => {
                    assert(false);
                },
            }
            if !old(self).has_ty(ty) {
                assert(self.nodes@ == old(self).nodes@.push(TermInner { sort, ty }));
            }
            assert forall|i: int|
                old(self).nodes@.len() <= i < self.nodes@.len() implies !((
            #[trigger] self.nodes@[i]).ty is Var) by {}
            assert forall|a: spec_fn(u32) -> Seq<bool>| #[trigger] self.eval(r, a) == bs by {
                match self.node(r).ty {
                    TermType::Const(c) => {
                        assert(const_bits(c) == bs);
                    },
                    _ => {
                        assert(false);
                    },
                }
            }
        }
        r
    }

    /// Interns the one-bit constant `true` or `false`: the boolean
    /// constants.
    pub fn bool_const(&mut self, c: bool) -> (r: Term)
        requires
            old(self).wf(),
        ensures
            final(self).wf(),
            final(self).extends_novar(*old(self)),
            final(self).valid(r),
            final(self).is_bv_const_node(r.id as int, seq![c]),
            final(self).sort_of(r) == Sort::Bv(1usize),
            forall|a: spec_fn(u32) -> Seq<bool>| #[trigger] final(self).eval(r, a) == seq![c],
            old(self).has_bv_const(seq![c]) ==> *final(self) == *old(self),
    {
        let mut v: Vec<bool> = Vec::new();
        v.push(c);
        proof {
            assert(v@ =~= seq![c]);
        }
        self.intern_bv_const(v)
    }

    /// Interns a bit-vector constant from a slice of bits, bit 0 the
    /// least significant: equal bit patterns give the identical handle.
    pub fn bv_const(&mut self, c: &[bool]) -> (r: Term)
        requires
            old(self).wf(),
            0 < c@.len() <= 0x1000_0000,
        ensures
            final(self).wf(),
            final(self).extends_novar(*old(self)),
            final(self).valid(r),
            final(self).is_bv_const_node(r.id as int, c@),
            final(self).sort_of(r) == Sort::Bv(c@.len() as usize),
            forall|a: spec_fn(u32) -> Seq<bool>| #[trigger] final(self).eval(r, a) == c@,
            old(self).has_bv_const(c@) ==> *final(self) == *old(self),
    {
        self.intern_bv_const(vstd::slice::slice_to_vec(c))
    }

    /// The all-zero constant of a width.
    pub fn bv_const_zero(&mut self, len: usize) -> (r: Term)
        requires
            old(self).wf(),
            0 < len <= 0x1000_0000,
        ensures
            final(self).wf(),
            final(self).extends_novar(*old(self)),
            final(self).valid(r),
            final(self).is_bv_const_node(r.id as int, Seq::new(len as nat, |i: int| false)),
            final(self).sort_of(r) == Sort::Bv(len),
            forall|a: spec_fn(u32) -> Seq<bool>| #[trigger] final(self).eval(r, a) == Seq::new(
                len as nat,
                |i: int| false,
            ),
    {
        self.intern_bv_const(fill_vec(len, false))
    }

    /// The constant one of a width: bit 0 set, all others clear.
    pub fn bv_const_one(&mut self, len: usize) -> (r: Term)
        requires
            old(self).wf(),
            0 < len <= 0x1000_0000,
        ensures
            final(self).wf(),
            final(self).extends_novar(*old(self)),
            final(self).valid(r),
            final(self).is_bv_const_node(r.id as int, Seq::new(len as nat, |i: int| i == 0)),
            final(self).sort_of(r) == Sort::Bv(len),
            forall|a: spec_fn(u32) -> Seq<bool>| #[trigger] final(self).eval(r, a) == Seq::new(
                len as nat,
                |i: int| i == 0,
            ),
            old(self).has_bv_const(Seq::new(len as nat, |i: int| i == 0)) ==> *final(self)
                == *old(self),
    {
        let mut v = fill_vec(len, false);
        v.set(0, true);
        proof {
            assert(v@ =~= Seq::new(len as nat, |i: int| i == 0));
        }
        self.intern_bv_const(v)
    }

    /// The all-ones constant of a width.
    pub fn bv_const_ones(&mut self, len: usize) -> (r: Term)
        requires
            old(self).wf(),
            0 < len <= 0x1000_0000,
        ensures
            final(self).wf(),
            final(self).extends_novar(*old(self)),
            final(self).valid(r),
            final(self).is_bv_const_node(r.id as int, Seq::new(len as nat, |i: int| true)),
            final(self).sort_of(r) == Sort::Bv(len),
            forall|a: spec_fn(u32) -> Seq<bool>| #[trigger] final(self).eval(r, a) == Seq::new(
                len as nat,
                |i: int| true,
            ),
    {
        self.intern_bv_const(fill_vec(len, true))
    }

    /// Allocates a fresh variable of the given sort. Two calls never
    /// return aliasing handles, even with equal sorts: ids are unique per
    /// manager.
    pub fn new_var(&mut self, sort: Sort) -> (r: Term)
        requires
            old(self).wf(),
            sort.wf(),
            old(self).num_var < u32::MAX,
        ensures
            final(self).wf(),
            final(self).extends(*old(self)),
            final(self).num_var == old(self).num_var + 1,
            final(self).nodes@ == old(self).nodes@.push(
                TermInner { sort, ty: TermType::Var(old(self).num_var) },
            ),
            r.id == old(self).nodes@.len(),
            final(self).valid(r),
            final(self).sort_of(r) == sort,
            final(self).node(r).ty == TermType::Var(old(self).num_var),
            forall|a: spec_fn(u32) -> Seq<bool>| #[trigger] final(self).eval(r, a) == a(
                old(self).num_var,
            ),
    {
        let id = self.num_var;
        self.num_var = self.num_var + 1;
        proof {
            assert forall|i: int| 0 <= i < self.nodes@.len() implies #[trigger] self.node_wf(
                i,
            ) by {
                assert(old(self).node_wf(i));
                match self.nodes@[i].ty {
                    TermType::Op(ot) => {
                        assert(self.sorts_of(ot.terms@) =~= old(self).sorts_of(ot.terms@));
                    },
                    _ => {},
                }
            }
            let ty = TermType::Var(id);
            if self.has_ty(ty) {
                let i = choose|i: int|
                    0 <= i < self.nodes@.len() && ty_eq(self.nodes@[i].ty, ty);
                assert(old(self).node_wf(i));
                assert(false);
            }
        }
        let r = self.new_term(TermType::Var(id), sort);
        r
    }
}

impl TermManager {
    /// The operator at the root of a term, if it is an operator node.
    pub fn node_op_of(&self, t: Term) -> (r: Option<Op>)
        requires
            self.valid(t),
        ensures
            match self.node(t).ty {
                TermType::Op(ot) => r == Some(ot.op),
                _ => r is None,
            },
    {
        match &self.nodes[t.id].ty {
            TermType::Op(ot) => Some(ot.op),
            _ => None,
        }
    }

    /// Operand `j` of an operator node.
    pub fn node_operand(&self, t: Term, j: usize) -> (r: Term)
        requires
            self.valid(t),
            self.node(t).ty is Op,
            j < self.node(t).ty->Op_0.terms@.len(),
        ensures
            r == self.node(t).ty->Op_0.terms@[j as int],
    {
        match &self.nodes[t.id].ty {
            TermType::Op(ot) => ot.terms[j],
            _ => unreached(),
        }
    }

    /// Whether the term is a bit-vector constant node.
    pub fn is_bv_const(&self, t: Term) -> (r: bool)
        requires
            self.valid(t),
        ensures
            r == (self.node(t).ty matches TermType::Const(ConstTerm::BV(_))),
    {
        match &self.nodes[t.id].ty {
            TermType::Const(ConstTerm::BV(_)) => true,
            _ => false,
        }
    }

    /// Whether the term is a constant whose bits all equal `val`.
    #[verifier::loop_isolation(false)]
    pub fn is_const_fill(&self, t: Term, val: bool) -> (r: bool)
        requires
            self.valid(t),
        ensures
            r == self.is_const_fill_node(t.id as int, val),
    {
        match &self.nodes[t.id].ty {
            TermType::Const(ConstTerm::BV(b)) => {
                let n = b.c.len();
                for k in 0..n
                    invariant
                        n == b.c@.len(),
                        forall|j: int| 0 <= j < k ==> b.c@[j] == val,
                {
                    if b.c[k] != val {
                        proof {
                            assert(b@[k as int] != val);
                            assert(!self.is_const_fill_node(t.id as int, val));
                        }
                        return false;
                    }
                }
                true
            },
            _ => false,
        }
    }

    /// Whether `x` is the node `Not(y)`.
    pub fn term_is_not_of(&self, x: Term, y: Term) -> (r: bool)
        requires
            self.valid(x),
        ensures
            r == self.is_not_of(x, y),
    {
        match &self.nodes[x.id].ty {
            TermType::Op(ot) => {
                if matches!(ot.op, Op::Not) && ot.terms.len() == 1 {
                    let r = ot.terms[0] == y;
                    proof {
                        if r {
                            assert(ot.terms@ =~= seq![y]);
                        } else {
                            assert(ot.terms@[0] != y);
                        }
                    }
                    r
                } else {
                    false
                }
            },
            _ => false,
        }
    }

    /// Whether `x` and `y` are complements of one another: one is the
    /// negation node of the other, or they are constants with pointwise
    /// opposite bits.
    pub open spec fn is_complement(self, x: Term, y: Term) -> bool {
        self.is_not_of(x, y) || self.is_not_of(y, x) || (match (
            self.node(x).ty,
            self.node(y).ty,
        ) {
            (TermType::Const(ConstTerm::BV(bx)), TermType::Const(ConstTerm::BV(by))) => bx@.len()
                == by@.len() && forall|k: int| 0 <= k < bx@.len() ==> bx@[k] == !by@[k],
            _ => false,
        })
    }

    #[verifier::loop_isolation(false)]
    pub fn term_is_complement(&self, x: Term, y: Term) -> (r: bool)
        requires
            self.valid(x),
            self.valid(y),
        ensures
            r == self.is_complement(x, y),
    {
        if self.term_is_not_of(x, y) || self.term_is_not_of(y, x) {
            return true;
        }
        match (&self.nodes[x.id].ty, &self.nodes[y.id].ty) {
            (TermType::Const(ConstTerm::BV(bx)), TermType::Const(ConstTerm::BV(by))) => {
                if bx.c.len() != by.c.len() {
                    return false;
                }
                let n = bx.c.len();
                for k in 0..n
                    invariant
                        n == bx.c@.len() == by.c@.len(),
                        forall|j: int| 0 <= j < k ==> bx.c@[j] == !by.c@[j],
                {
                    if bx.c[k] == by.c[k] {
                        return false;
                    }
                }
                true
            },
            _ => false,
        }
    }

    /// Whether the term has the boolean sort.
    pub fn is_bool(&self, t: Term) -> (r: bool)
        requires
            self.valid(t),
        ensures
            r == (self.sort_of(t) == Sort::Bv(1usize)),
    {
        match &self.nodes[t.id].sort {
            Sort::Bv(w) => *w == 1,
            _ => false,
        }
    }

    /// The sort of a term.
    pub fn term_sort(&self, t: Term) -> (r: Sort)
        requires
            self.valid(t),
        ensures
            r == self.sort_of(t),
    {
        self.nodes[t.id].sort
    }

    /// The bit-vector width of a term; a contract violation on arrays.
    pub fn term_bv_len(&self, t: Term) -> (r: usize)
        requires
            self.valid(t),
            self.sort_of(t).is_bv(),
        ensures
            r as nat == self.sort_of(t).spec_width(),
    {
        self.term_sort(t).bv_len()
    }
}

/// Hash-consing idempotence: a well-formed manager never holds two
/// nodes with one description, so two valid handles whose descriptions
/// are structurally equal are the same handle. Repeated construction of
/// one description therefore always resolves to the identical handle,
/// and equality of handles is equality of structure.
pub proof fn lemma_hash_consing_unique(m: TermManager, t1: Term, t2: Term)
    requires
        m.wf(),
        m.valid(t1),
        m.valid(t2),
        ty_eq(m.node(t1).ty, m.node(t2).ty),
    ensures
        t1 == t2,
{
    if t1.id < t2.id {
        assert(!ty_eq(m.nodes@[t1.id as int].ty, m.nodes@[t2.id as int].ty));
    } else if t2.id < t1.id {
        assert(!ty_eq(m.nodes@[t2.id as int].ty, m.nodes@[t1.id as int].ty));
        lemma_ty_eq_sym(m.node(t1).ty, m.node(t2).ty);
    }
}

/// Structural description equality is symmetric.
pub proof fn lemma_ty_eq_sym(a: TermType, b: TermType)
    requires
        ty_eq(a, b),
    ensures
        ty_eq(b, a),
{
}

/// Structural description equality is transitive.
pub proof fn lemma_ty_eq_trans(a: TermType, b: TermType, c: TermType)
    requires
        ty_eq(a, b),
        ty_eq(b, c),
    ensures
        ty_eq(a, c),
{
}

/// Extension is transitive.
pub proof fn lemma_extends_trans(m0: TermManager, m1: TermManager, m2: TermManager)
    requires
        m1.extends(m0),
        m2.extends(m1),
    ensures
        m2.extends(m0),
{
    assert forall|i: int| 0 <= i < m0.nodes@.len() implies #[trigger] m2.nodes@[i]
        == m0.nodes@[i] by {
        assert(m1.nodes@[i] == m0.nodes@[i]);
    }
}

/// Variable-free extension is transitive.
pub proof fn lemma_extends_novar_trans(m0: TermManager, m1: TermManager, m2: TermManager)
    requires
        m1.extends_novar(m0),
        m2.extends_novar(m1),
    ensures
        m2.extends_novar(m0),
{
    lemma_extends_trans(m0, m1, m2);
    assert forall|i: int| m0.nodes@.len() <= i < m2.nodes@.len() implies !((
    #[trigger] m2.nodes@[i]).ty is Var) by {
        if i < m1.nodes@.len() {
            assert(m2.nodes@[i] == m1.nodes@[i]);
        }
    }
}

/// An operator node means its operator applied to its operands'
/// meanings.
pub proof fn lemma_eval_op_node(
    m: TermManager,
    r: Term,
    op: Op,
    args: Seq<Term>,
    a: spec_fn(u32) -> Seq<bool>,
)
    requires
        m.wf(),
        m.is_op_node(r.id as int, op, args),
    ensures
        m.eval(r, a) == apply_core(op, m.eval_args(args, a)),
{
    assert(m.node_wf(r.id as int));
    match m.node(r).ty {
        TermType::Op(ot) => {
            let ts = ot.terms@;
            assert(ts == args);
            assert(1 <= ot.op.spec_num_operand() <= 3);
            if ts.len() == 1 {
                assert(seq![m.eval(ts[0], a)] =~= m.eval_args(args, a));
            } else if ts.len() == 2 {
                assert(seq![m.eval(ts[0], a), m.eval(ts[1], a)] =~= m.eval_args(args, a));
            } else if ts.len() == 3 {
                assert(seq![m.eval(ts[0], a), m.eval(ts[1], a), m.eval(ts[2], a)]
                    =~= m.eval_args(args, a));
            } else {
                assert(false);
            }
        },
        _ => {
            assert(false);
        },
    }
}

/// Flattening a sequence of equal-length sequences multiplies the
/// lengths.
pub proof fn lemma_flatten_uniform_len(ss: Seq<Seq<bool>>, e: nat)
    requires
        forall|j: int| 0 <= j < ss.len() ==> (#[trigger] ss[j]).len() == e,
    ensures
        ss.flatten().len() == ss.len() * e,
    decreases ss.len(),
{
    if ss.len() == 0 {
    } else {
        assert forall|j: int| 0 <= j < ss.drop_first().len() implies (#[trigger] ss.drop_first()[
            j
        ]).len() == e by {
            assert(ss[j + 1].len() == e);
        }
        lemma_flatten_uniform_len(ss.drop_first(), e);
        assert(ss.flatten() == ss.first().add(ss.drop_first().flatten()));
        assert(e + (ss.len() - 1) * e == ss.len() * e) by (nonlinear_arith);
    }
}

/// A well-formed term evaluates, under any fitting assignment, to
/// exactly as many bits as its sort describes.
pub proof fn lemma_eval_len(m: TermManager, t: Term, a: spec_fn(u32) -> Seq<bool>)
    requires
        m.wf(),
        m.valid(t),
        m.assignment_ok(a),
    ensures
        m.eval(t, a).len() == m.sort_of(t).spec_width(),
    decreases t.id,
{
    assert(m.node_wf(t.id as int));
    match m.node(t).ty {
        TermType::Const(c) => match c {
            ConstTerm::BV(b) => {},
            ConstTerm::Array(ar) => {
                let st = m.sort_of(t);
                lemma_flatten_uniform_len(ar@, st->Array_1 as nat);
            },
        },
        TermType::Var(v) => {
            assert(m.var_ok(t.id as int, a));
        },
        TermType::Op(ot) => {
            let ts = ot.terms@;
            let ss = m.sorts_of(ts);
            assert forall|j: int| 0 <= j < ts.len() implies m.eval(#[trigger] ts[j], a).len()
                == ss[j].spec_width() by {
                lemma_eval_len(m, ts[j], a);
            }
            let e0 = m.eval(ts[0], a);
            match ot.op {
                Op::Add | Op::Mul => {
                    let e1 = m.eval(ts[1], a);
                    crate::semantics::lemma_nat_to_bits_len(
                        to_nat(e0) + to_nat(e1),
                        e0.len(),
                    );
                    crate::semantics::lemma_nat_to_bits_len(
                        to_nat(e0) * to_nat(e1),
                        e0.len(),
                    );
                },
                Op::Read => {
                    let e1 = m.eval(ts[1], a);
                    let iw = ss[0]->Array_0;
                    let ew = ss[0]->Array_1;
                    assert(e0.len() == pow2(iw as nat) * ew);
                    assert(e1.len() == iw as nat);
                    crate::semantics::lemma_to_nat_bound(e1);
                    let k = to_nat(e1);
                    assert(pow2(iw as nat) > 0) by {
                        vstd::arithmetic::power2::lemma_pow2_pos(iw as nat);
                    }
                    assert((pow2(iw as nat) * ew) as int / pow2(iw as nat) as int
                        == ew as int) by {
                        vstd::arithmetic::div_mod::lemma_div_multiples_vanish(
                            ew as int,
                            pow2(iw as nat) as int,
                        );
                    }
                    assert(k * ew + ew == (k + 1) * ew) by (nonlinear_arith);
                    assert((k + 1) * ew <= pow2(iw as nat) * ew) by {
                        vstd::arithmetic::mul::lemma_mul_inequality(
                            (k + 1) as int,
                            pow2(iw as nat) as int,
                            ew as int,
                        );
                    }
                },
                _ => {},
            }
        },
    }
}

/// Node well-formedness depends only on the node and its (older)
/// operands, so it survives extension.
pub proof fn lemma_node_wf_frame(m0: TermManager, m1: TermManager, i: int)
    requires
        0 <= i < m0.nodes@.len(),
        m1.extends(m0),
        m0.node_wf(i),
    ensures
        m1.node_wf(i),
{
    assert(m1.nodes@[i] == m0.nodes@[i]);
    match m0.nodes@[i].ty {
        TermType::Op(ot) => {
            assert(m1.sorts_of(ot.terms@) =~= m0.sorts_of(ot.terms@));
        },
        _ => {},
    }
}

} // verus!
