//! The Tseitin CNF encoder: lowers a one-bit boolean term graph into a
//! literal inside a CNF builder, one fresh propositional variable and one
//! defining clause set per gate. The pass is memoized by term identity.
//!
//! Variable 0 is reserved: the builder starts with the unit clause that
//! forces it false, so its negation serves as the constant-true literal.

use crate::op::Op;
use crate::sort::Sort;
use crate::term::{Term, TermManager, TermType};
use vstd::prelude::*;

verus! {

/// A propositional literal: variable number and polarity packed as
/// `2 * var + (if positive { 0 } else { 1 })`.
#[derive(Clone, Copy, PartialEq, Eq, Structural, Debug, Hash)]
pub struct Lit {
    pub code: u32,
}

impl Lit {
    pub open spec fn spec_var(self) -> u32 {
        self.code / 2
    }

    pub open spec fn spec_positive(self) -> bool {
        self.code % 2 == 0
    }

    /// The same variable, opposite polarity.
    pub open spec fn spec_not(self) -> Lit {
        if self.code % 2 == 0 {
            Lit { code: (self.code + 1) as u32 }
        } else {
            Lit { code: (self.code - 1) as u32 }
        }
    }

    pub fn new(var: u32, positive: bool) -> (r: Lit)
        requires
            var < 0x8000_0000,
        ensures
            r.spec_var() == var,
            r.spec_positive() == positive,
    {
        Lit {
            code: 2 * var + if positive {
                0
            } else {
                1
            },
        }
    }

    pub fn var(self) -> (r: u32)
        ensures
            r == self.spec_var(),
    {
        self.code / 2
    }

    pub fn positive(self) -> (r: bool)
        ensures
            r == self.spec_positive(),
    {
        self.code % 2 == 0
    }

    pub fn negate(self) -> (r: Lit)
        ensures
            r == self.spec_not(),
    {
        if self.code % 2 == 0 {
            Lit { code: self.code + 1 }
        } else {
            Lit { code: self.code - 1 }
        }
    }

    /// The constant-true or constant-false literal, over the reserved
    /// variable 0 (which the builder forces to false).
    pub fn constant(positive: bool) -> (r: Lit)
        ensures
            r.spec_var() == 0,
            r.spec_positive() == !positive,
            r == spec_const_lit(positive),
    {
        Lit {
            code: if positive {
                1
            } else {
                0
            },
        }
    }
}

pub open spec fn spec_const_lit(positive: bool) -> Lit {
    Lit {
        code: if positive {
            1u32
        } else {
            0u32
        },
    }
}

/// Whether an assignment of truth values to variables satisfies a
/// literal.
pub open spec fn lit_sat(a: spec_fn(u32) -> bool, l: Lit) -> bool {
    a(l.spec_var()) == l.spec_positive()
}

/// Whether an assignment satisfies a clause: some literal holds.
pub open spec fn clause_sat(a: spec_fn(u32) -> bool, c: Seq<Lit>) -> bool {
    exists|i: int| 0 <= i < c.len() && lit_sat(a, c[i])
}

/// Whether an assignment satisfies every clause of a clause list.
pub open spec fn cnf_sat(a: spec_fn(u32) -> bool, cs: Seq<Seq<Lit>>) -> bool {
    forall|i: int| 0 <= i < cs.len() ==> clause_sat(a, #[trigger] cs[i])
}

/// The defining clause set of `n <-> x /\ y`.
pub open spec fn and_clauses(n: Lit, x: Lit, y: Lit) -> Seq<Seq<Lit>> {
    seq![seq![n.spec_not(), x], seq![n.spec_not(), y], seq![n, x.spec_not(), y.spec_not()]]
}

/// The defining clause set of `n <-> x \/ y`.
pub open spec fn or_clauses(n: Lit, x: Lit, y: Lit) -> Seq<Seq<Lit>> {
    seq![seq![n, x.spec_not()], seq![n, y.spec_not()], seq![n.spec_not(), x, y]]
}

/// The defining clause set of `n <-> x (+) y`.
pub open spec fn xor_clauses(n: Lit, x: Lit, y: Lit) -> Seq<Seq<Lit>> {
    seq![
        seq![x.spec_not(), y, n],
        seq![x, y.spec_not(), n],
        seq![x, y, n.spec_not()],
        seq![x.spec_not(), y.spec_not(), n.spec_not()],
    ]
}

/// The defining clause set of `n <-> !(x (+) y)`.
pub open spec fn xnor_clauses(n: Lit, x: Lit, y: Lit) -> Seq<Seq<Lit>> {
    seq![
        seq![x.spec_not(), y, n.spec_not()],
        seq![x, y.spec_not(), n.spec_not()],
        seq![x, y, n],
        seq![x.spec_not(), y.spec_not(), n],
    ]
}

/// The defining clause set of `n <-> if c then t else e`.
pub open spec fn ite_clauses(n: Lit, c: Lit, t: Lit, e: Lit) -> Seq<Seq<Lit>> {
    seq![
        seq![t, c.spec_not(), n.spec_not()],
        seq![t.spec_not(), c.spec_not(), n],
        seq![e, c, n.spec_not()],
        seq![e.spec_not(), c, n],
    ]
}

/// Negating a literal negates its truth value.
pub proof fn lemma_lit_not(a: spec_fn(u32) -> bool, l: Lit)
    ensures
        lit_sat(a, l.spec_not()) == !lit_sat(a, l),
{
}

proof fn lemma_clause_sat2(a: spec_fn(u32) -> bool, p: Lit, q: Lit)
    ensures
        clause_sat(a, seq![p, q]) == (lit_sat(a, p) || lit_sat(a, q)),
{
    let c = seq![p, q];
    if lit_sat(a, p) {
        assert(lit_sat(a, c[0]));
    } else if lit_sat(a, q) {
        assert(lit_sat(a, c[1]));
    } else {
        assert forall|i: int| 0 <= i < c.len() implies !lit_sat(a, c[i]) by {
            if i == 0 {
            } else {
            }
        }
    }
}

proof fn lemma_clause_sat3(a: spec_fn(u32) -> bool, p: Lit, q: Lit, s: Lit)
    ensures
        clause_sat(a, seq![p, q, s]) == (lit_sat(a, p) || lit_sat(a, q) || lit_sat(a, s)),
{
    let c = seq![p, q, s];
    if lit_sat(a, p) {
        assert(lit_sat(a, c[0]));
    } else if lit_sat(a, q) {
        assert(lit_sat(a, c[1]));
    } else if lit_sat(a, s) {
        assert(lit_sat(a, c[2]));
    } else {
        assert forall|i: int| 0 <= i < c.len() implies !lit_sat(a, c[i]) by {}
    }
}

/// Tseitin equivalence for `And`: an assignment satisfies the three
/// defining clauses if and only if the fresh literal and the
/// conjunction of the two operand literals have one truth value.
pub proof fn lemma_tseitin_and(a: spec_fn(u32) -> bool, n: Lit, x: Lit, y: Lit)
    ensures
        cnf_sat(a, and_clauses(n, x, y)) == (lit_sat(a, n) == (lit_sat(a, x) && lit_sat(a, y))),
{
    let cs = and_clauses(n, x, y);
    lemma_clause_sat2(a, n.spec_not(), x);
    lemma_clause_sat2(a, n.spec_not(), y);
    lemma_clause_sat3(a, n, x.spec_not(), y.spec_not());
    lemma_lit_not(a, n);
    lemma_lit_not(a, x);
    lemma_lit_not(a, y);
    if clause_sat(a, cs[0]) && clause_sat(a, cs[1]) && clause_sat(a, cs[2]) {
        assert(cnf_sat(a, cs)) by {
            assert forall|i: int| 0 <= i < cs.len() implies clause_sat(a, #[trigger] cs[i]) by {
                if i == 0 {
                } else if i == 1 {
                } else {
                }
            }
        }
    }
    if cnf_sat(a, cs) {
        assert(clause_sat(a, cs[0]));
        assert(clause_sat(a, cs[1]));
        assert(clause_sat(a, cs[2]));
    }
}

/// Tseitin soundness and completeness for the `Or` gate.
pub proof fn lemma_tseitin_or(a: spec_fn(u32) -> bool, n: Lit, x: Lit, y: Lit)
    ensures
        cnf_sat(a, or_clauses(n, x, y)) == (lit_sat(a, n) == (lit_sat(a, x) || lit_sat(a, y))),
{
    let cs = or_clauses(n, x, y);
    lemma_clause_sat2(a, n, x.spec_not());
    lemma_clause_sat2(a, n, y.spec_not());
    lemma_clause_sat3(a, n.spec_not(), x, y);
    lemma_lit_not(a, n);
    lemma_lit_not(a, x);
    lemma_lit_not(a, y);
    if clause_sat(a, cs[0]) && clause_sat(a, cs[1]) && clause_sat(a, cs[2]) {
        assert(cnf_sat(a, cs)) by {
            assert forall|i: int| 0 <= i < cs.len() implies clause_sat(a, #[trigger] cs[i]) by {
                if i == 0 {
                } else if i == 1 {
                } else {
                }
            }
        }
    }
    if cnf_sat(a, cs) {
        assert(clause_sat(a, cs[0]));
        assert(clause_sat(a, cs[1]));
        assert(clause_sat(a, cs[2]));
    }
}

/// Tseitin soundness and completeness for the `Xor` gate.
pub proof fn lemma_tseitin_xor(a: spec_fn(u32) -> bool, n: Lit, x: Lit, y: Lit)
    ensures
        cnf_sat(a, xor_clauses(n, x, y)) == (lit_sat(a, n) == (lit_sat(a, x) != lit_sat(a, y))),
{
    let cs = xor_clauses(n, x, y);
    lemma_clause_sat3(a, x.spec_not(), y, n);
    lemma_clause_sat3(a, x, y.spec_not(), n);
    lemma_clause_sat3(a, x, y, n.spec_not());
    lemma_clause_sat3(a, x.spec_not(), y.spec_not(), n.spec_not());
    lemma_lit_not(a, n);
    lemma_lit_not(a, x);
    lemma_lit_not(a, y);
    if clause_sat(a, cs[0]) && clause_sat(a, cs[1]) && clause_sat(a, cs[2]) && clause_sat(
        a,
        cs[3],
    ) {
        assert(cnf_sat(a, cs)) by {
            assert forall|i: int| 0 <= i < cs.len() implies clause_sat(a, #[trigger] cs[i]) by {
                if i == 0 {
                } else if i == 1 {
                } else if i == 2 {
                } else {
                }
            }
        }
    }
    if cnf_sat(a, cs) {
        assert(clause_sat(a, cs[0]));
        assert(clause_sat(a, cs[1]));
        assert(clause_sat(a, cs[2]));
        assert(clause_sat(a, cs[3]));
    }
}

/// Tseitin soundness and completeness for the `Eq` (XNOR) gate.
pub proof fn lemma_tseitin_xnor(a: spec_fn(u32) -> bool, n: Lit, x: Lit, y: Lit)
    ensures
        cnf_sat(a, xnor_clauses(n, x, y)) == (lit_sat(a, n) == (lit_sat(a, x) == lit_sat(a, y))),
{
    let cs = xnor_clauses(n, x, y);
    lemma_clause_sat3(a, x.spec_not(), y, n.spec_not());
    lemma_clause_sat3(a, x, y.spec_not(), n.spec_not());
    lemma_clause_sat3(a, x, y, n);
    lemma_clause_sat3(a, x.spec_not(), y.spec_not(), n);
    lemma_lit_not(a, n);
    lemma_lit_not(a, x);
    lemma_lit_not(a, y);
    if clause_sat(a, cs[0]) && clause_sat(a, cs[1]) && clause_sat(a, cs[2]) && clause_sat(
        a,
        cs[3],
    ) {
        assert(cnf_sat(a, cs)) by {
            assert forall|i: int| 0 <= i < cs.len() implies clause_sat(a, #[trigger] cs[i]) by {
                if i == 0 {
                } else if i == 1 {
                } else if i == 2 {
                } else {
                }
            }
        }
    }
    if cnf_sat(a, cs) {
        assert(clause_sat(a, cs[0]));
        assert(clause_sat(a, cs[1]));
        assert(clause_sat(a, cs[2]));
        assert(clause_sat(a, cs[3]));
    }
}

/// Tseitin soundness and completeness for the `Ite` gate.
pub proof fn lemma_tseitin_ite(a: spec_fn(u32) -> bool, n: Lit, c: Lit, t: Lit, e: Lit)
    ensures
        cnf_sat(a, ite_clauses(n, c, t, e)) == (lit_sat(a, n) == (if lit_sat(a, c) {
            lit_sat(a, t)
        } else {
            lit_sat(a, e)
        })),
{
    let cs = ite_clauses(n, c, t, e);
    lemma_clause_sat3(a, t, c.spec_not(), n.spec_not());
    lemma_clause_sat3(a, t.spec_not(), c.spec_not(), n);
    lemma_clause_sat3(a, e, c, n.spec_not());
    lemma_clause_sat3(a, e.spec_not(), c, n);
    lemma_lit_not(a, n);
    lemma_lit_not(a, c);
    lemma_lit_not(a, t);
    lemma_lit_not(a, e);
    if clause_sat(a, cs[0]) && clause_sat(a, cs[1]) && clause_sat(a, cs[2]) && clause_sat(
        a,
        cs[3],
    ) {
        assert(cnf_sat(a, cs)) by {
            assert forall|i: int| 0 <= i < cs.len() implies clause_sat(a, #[trigger] cs[i]) by {
                if i == 0 {
                } else if i == 1 {
                } else if i == 2 {
                } else {
                }
            }
        }
    }
    if cnf_sat(a, cs) {
        assert(clause_sat(a, cs[0]));
        assert(clause_sat(a, cs[1]));
        assert(clause_sat(a, cs[2]));
        assert(clause_sat(a, cs[3]));
    }
}

/// The CNF builder that receives encoded clauses: a variable allocator
/// and a growing clause list.
pub struct DagCnf {
    pub max_var: u32,
    pub clauses: Vec<Vec<Lit>>,
}

/// The clause list as a sequence of literal sequences.
pub open spec fn cnf_view(dc: DagCnf) -> Seq<Seq<Lit>> {
    dc.clauses@.map_values(|c: Vec<Lit>| c@)
}

impl DagCnf {
    /// A fresh builder: no user variables, one unit clause forcing the
    /// reserved variable 0 false, so the constant-true literal holds.
    pub fn new() -> (r: DagCnf)
        ensures
            r.max_var == 0,
            cnf_view(r) =~= seq![seq![spec_const_lit(true)]],
    {
        let mut base: Vec<Lit> = Vec::new();
        base.push(Lit::constant(true));
        let mut clauses: Vec<Vec<Lit>> = Vec::new();
        proof {
            assert(base@ =~= seq![spec_const_lit(true)]);
        }
        clauses.push(base);
        DagCnf { max_var: 0, clauses }
    }

    /// Allocates a fresh propositional variable.
    pub fn new_var(&mut self) -> (r: u32)
        requires
            old(self).max_var < 0x7fff_ffff,
        ensures
            final(self).max_var == old(self).max_var + 1,
            r == final(self).max_var,
            cnf_view(*final(self)) == cnf_view(*old(self)),
    {
        self.max_var = self.max_var + 1;
        self.max_var
    }

    /// Appends one clause.
    fn push_clause(&mut self, c: Vec<Lit>)
        ensures
            final(self).max_var == old(self).max_var,
            cnf_view(*final(self)) =~= cnf_view(*old(self)).push(c@),
    {
        self.clauses.push(c);
    }

    /// Asserts the defining clauses of `n <-> x /\ y`.
    pub fn add_and_rel(&mut self, n: Lit, x: Lit, y: Lit)
        ensures
            final(self).max_var == old(self).max_var,
            cnf_view(*final(self)) =~= cnf_view(*old(self)) + and_clauses(n, x, y),
    {
        let mut c0: Vec<Lit> = Vec::new();
        c0.push(n.negate());
        c0.push(x);
        let mut c1: Vec<Lit> = Vec::new();
        c1.push(n.negate());
        c1.push(y);
        let mut c2: Vec<Lit> = Vec::new();
        c2.push(n);
        c2.push(x.negate());
        c2.push(y.negate());
        proof {
            assert(c0@ =~= and_clauses(n, x, y)[0]);
            assert(c1@ =~= and_clauses(n, x, y)[1]);
            assert(c2@ =~= and_clauses(n, x, y)[2]);
        }
        self.push_clause(c0);
        self.push_clause(c1);
        self.push_clause(c2);
    }

    /// Asserts the defining clauses of `n <-> x \/ y`.
    pub fn add_or_rel(&mut self, n: Lit, x: Lit, y: Lit)
        ensures
            final(self).max_var == old(self).max_var,
            cnf_view(*final(self)) =~= cnf_view(*old(self)) + or_clauses(n, x, y),
    {
        let mut c0: Vec<Lit> = Vec::new();
        c0.push(n);
        c0.push(x.negate());
        let mut c1: Vec<Lit> = Vec::new();
        c1.push(n);
        c1.push(y.negate());
        let mut c2: Vec<Lit> = Vec::new();
        c2.push(n.negate());
        c2.push(x);
        c2.push(y);
        proof {
            assert(c0@ =~= or_clauses(n, x, y)[0]);
            assert(c1@ =~= or_clauses(n, x, y)[1]);
            assert(c2@ =~= or_clauses(n, x, y)[2]);
        }
        self.push_clause(c0);
        self.push_clause(c1);
        self.push_clause(c2);
    }

    /// Asserts the defining clauses of `n <-> x (+) y`.
    pub fn add_xor_rel(&mut self, n: Lit, x: Lit, y: Lit)
        ensures
            final(self).max_var == old(self).max_var,
            cnf_view(*final(self)) =~= cnf_view(*old(self)) + xor_clauses(n, x, y),
    {
        let mut c0: Vec<Lit> = Vec::new();
        c0.push(x.negate());
        c0.push(y);
        c0.push(n);
        let mut c1: Vec<Lit> = Vec::new();
        c1.push(x);
        c1.push(y.negate());
        c1.push(n);
        let mut c2: Vec<Lit> = Vec::new();
        c2.push(x);
        c2.push(y);
        c2.push(n.negate());
        let mut c3: Vec<Lit> = Vec::new();
        c3.push(x.negate());
        c3.push(y.negate());
        c3.push(n.negate());
        proof {
            assert(c0@ =~= xor_clauses(n, x, y)[0]);
            assert(c1@ =~= xor_clauses(n, x, y)[1]);
            assert(c2@ =~= xor_clauses(n, x, y)[2]);
            assert(c3@ =~= xor_clauses(n, x, y)[3]);
        }
        self.push_clause(c0);
        self.push_clause(c1);
        self.push_clause(c2);
        self.push_clause(c3);
    }

    /// Asserts the defining clauses of `n <-> !(x (+) y)`.
    pub fn add_xnor_rel(&mut self, n: Lit, x: Lit, y: Lit)
        ensures
            final(self).max_var == old(self).max_var,
            cnf_view(*final(self)) =~= cnf_view(*old(self)) + xnor_clauses(n, x, y),
    {
        let mut c0: Vec<Lit> = Vec::new();
        c0.push(x.negate());
        c0.push(y);
        c0.push(n.negate());
        let mut c1: Vec<Lit> = Vec::new();
        c1.push(x);
        c1.push(y.negate());
        c1.push(n.negate());
        let mut c2: Vec<Lit> = Vec::new();
        c2.push(x);
        c2.push(y);
        c2.push(n);
        let mut c3: Vec<Lit> = Vec::new();
        c3.push(x.negate());
        c3.push(y.negate());
        c3.push(n);
        proof {
            assert(c0@ =~= xnor_clauses(n, x, y)[0]);
            assert(c1@ =~= xnor_clauses(n, x, y)[1]);
            assert(c2@ =~= xnor_clauses(n, x, y)[2]);
            assert(c3@ =~= xnor_clauses(n, x, y)[3]);
        }
        self.push_clause(c0);
        self.push_clause(c1);
        self.push_clause(c2);
        self.push_clause(c3);
    }

    /// Asserts the defining clauses of `n <-> if c then t else e`.
    pub fn add_ite_rel(&mut self, n: Lit, c: Lit, t: Lit, e: Lit)
        ensures
            final(self).max_var == old(self).max_var,
            cnf_view(*final(self)) =~= cnf_view(*old(self)) + ite_clauses(n, c, t, e),
    {
        let mut c0: Vec<Lit> = Vec::new();
        c0.push(t);
        c0.push(c.negate());
        c0.push(n.negate());
        let mut c1: Vec<Lit> = Vec::new();
        c1.push(t.negate());
        c1.push(c.negate());
        c1.push(n);
        let mut c2: Vec<Lit> = Vec::new();
        c2.push(e);
        c2.push(c);
        c2.push(n.negate());
        let mut c3: Vec<Lit> = Vec::new();
        c3.push(e.negate());
        c3.push(c);
        c3.push(n);
        proof {
            assert(c0@ =~= ite_clauses(n, c, t, e)[0]);
            assert(c1@ =~= ite_clauses(n, c, t, e)[1]);
            assert(c2@ =~= ite_clauses(n, c, t, e)[2]);
            assert(c3@ =~= ite_clauses(n, c, t, e)[3]);
        }
        self.push_clause(c0);
        self.push_clause(c1);
        self.push_clause(c2);
        self.push_clause(c3);
    }
}

/// Whether a clause occurs in a clause list.
pub open spec fn clause_in(cs: Seq<Seq<Lit>>, c: Seq<Lit>) -> bool {
    exists|k: int| 0 <= k < cs.len() && cs[k] == c
}

/// Whether every clause of `sub` occurs in `cs`.
pub open spec fn clauses_in(cs: Seq<Seq<Lit>>, sub: Seq<Seq<Lit>>) -> bool {
    forall|t: int| 0 <= t < sub.len() ==> clause_in(cs, #[trigger] sub[t])
}

/// Clause membership survives appending more clauses.
pub proof fn lemma_clause_in_prefix(cs: Seq<Seq<Lit>>, cs2: Seq<Seq<Lit>>, c: Seq<Lit>)
    requires
        clause_in(cs, c),
        cs.is_prefix_of(cs2),
    ensures
        clause_in(cs2, c),
{
    let k = choose|k: int| 0 <= k < cs.len() && cs[k] == c;
    assert(cs2[k] == c);
}

/// A satisfying assignment of a clause list satisfies every member
/// clause, so it satisfies any contained clause set.
pub proof fn lemma_sat_contained(a: spec_fn(u32) -> bool, cs: Seq<Seq<Lit>>, sub: Seq<Seq<Lit>>)
    requires
        cnf_sat(a, cs),
        clauses_in(cs, sub),
    ensures
        cnf_sat(a, sub),
{
    assert forall|t: int| 0 <= t < sub.len() implies clause_sat(a, #[trigger] sub[t]) by {
        let k = choose|k: int| 0 <= k < cs.len() && cs[k] == sub[t];
        assert(clause_sat(a, cs[k]));
    }
}

/// The memo table of the CNF encoder, keyed by term identity.
pub struct CnfMemo {
    pub map: Vec<Option<Lit>>,
}

/// The cached literal for node `i`, if any.
pub open spec fn cnf_memo_entry(memo: CnfMemo, i: int) -> Option<Lit> {
    if 0 <= i < memo.map@.len() {
        memo.map@[i]
    } else {
        None
    }
}

/// The literal cached for node `i`; meaningful only when one is cached.
pub open spec fn cnf_lit_of(memo: CnfMemo, i: int) -> Lit {
    cnf_memo_entry(memo, i)->Some_0
}

/// Whether node `i` owns a propositional variable of its own when it is
/// encoded: variable leaves and the gates that allocate, so every gate
/// but `Not`, which reuses its operand's variable with the polarity
/// flipped.
pub open spec fn cnf_allocating(m: TermManager, i: int) -> bool {
    0 <= i < m.nodes@.len() && (match m.nodes@[i].ty {
        TermType::Var(_) => true,
        TermType::Op(ot) => !(ot.op is Not),
        TermType::Const(_) => false,
    })
}

/// The freshness a gate's literal carries: it is positive, over a real
/// variable (never the reserved constant variable), and its variable is
/// strictly above every operand literal's variable, so a gate never
/// aliases what it is defined from.
pub open spec fn gate_lit_fresh(memo: CnfMemo, l: Lit, ts: Seq<Term>, arity: int) -> bool {
    l.spec_positive() && 1 <= l.spec_var() && (forall|j: int|
        0 <= j < arity ==> l.spec_var() > cnf_lit_of(memo, (#[trigger] ts[j]).id as int).spec_var())
}

/// What a cached entry certifies: a constant node's literal is the
/// constant literal of its bit; a gate node's literal is a fresh,
/// positive variable defined, inside the clause list, in terms of its
/// operands' cached literals.
pub open spec fn cnf_entry_ok(memo: CnfMemo, m: TermManager, dc: DagCnf, i: int, l: Lit) -> bool {
    i < m.nodes@.len() && l.spec_var() <= dc.max_var && (match m.nodes@[i].ty {
        TermType::Const(c) => l == spec_const_lit(crate::term::const_bits(c)[0]),
        TermType::Var(_) => l.spec_positive() && 1 <= l.spec_var(),
        TermType::Op(ot) => {
            let ts = ot.terms@;
            match ot.op {
                Op::Not => cnf_memo_entry(memo, ts[0].id as int) is Some && l == cnf_lit_of(
                    memo,
                    ts[0].id as int,
                ).spec_not(),
                Op::And => cnf_memo_entry(memo, ts[0].id as int) is Some && cnf_memo_entry(
                    memo,
                    ts[1].id as int,
                ) is Some && gate_lit_fresh(memo, l, ts, 2) && clauses_in(
                    cnf_view(dc),
                    and_clauses(
                        l,
                        cnf_lit_of(memo, ts[0].id as int),
                        cnf_lit_of(memo, ts[1].id as int),
                    ),
                ),
                Op::Or => cnf_memo_entry(memo, ts[0].id as int) is Some && cnf_memo_entry(
                    memo,
                    ts[1].id as int,
                ) is Some && gate_lit_fresh(memo, l, ts, 2) && clauses_in(
                    cnf_view(dc),
                    or_clauses(
                        l,
                        cnf_lit_of(memo, ts[0].id as int),
                        cnf_lit_of(memo, ts[1].id as int),
                    ),
                ),
                Op::Xor => cnf_memo_entry(memo, ts[0].id as int) is Some && cnf_memo_entry(
                    memo,
                    ts[1].id as int,
                ) is Some && gate_lit_fresh(memo, l, ts, 2) && clauses_in(
                    cnf_view(dc),
                    xor_clauses(
                        l,
                        cnf_lit_of(memo, ts[0].id as int),
                        cnf_lit_of(memo, ts[1].id as int),
                    ),
                ),
                Op::Eq => cnf_memo_entry(memo, ts[0].id as int) is Some && cnf_memo_entry(
                    memo,
                    ts[1].id as int,
                ) is Some && gate_lit_fresh(memo, l, ts, 2) && clauses_in(
                    cnf_view(dc),
                    xnor_clauses(
                        l,
                        cnf_lit_of(memo, ts[0].id as int),
                        cnf_lit_of(memo, ts[1].id as int),
                    ),
                ),
                Op::Ite => cnf_memo_entry(memo, ts[0].id as int) is Some && cnf_memo_entry(
                    memo,
                    ts[1].id as int,
                ) is Some && cnf_memo_entry(memo, ts[2].id as int) is Some && gate_lit_fresh(
                    memo,
                    l,
                    ts,
                    3,
                ) && clauses_in(
                    cnf_view(dc),
                    ite_clauses(
                        l,
                        cnf_lit_of(memo, ts[0].id as int),
                        cnf_lit_of(memo, ts[1].id as int),
                        cnf_lit_of(memo, ts[2].id as int),
                    ),
                ),
                _ => false,
            }
        },
    })
}

/// No two allocating nodes ever share a propositional variable: each
/// variable leaf and each allocating gate owns the variable it was
/// given.
pub open spec fn cnf_vars_distinct(memo: CnfMemo, m: TermManager) -> bool {
    forall|i: int, j: int|
        cnf_allocating(m, i) && cnf_allocating(m, j) && i != j && #[trigger] cnf_memo_entry(
            memo,
            i,
        ) is Some && #[trigger] cnf_memo_entry(memo, j) is Some ==> cnf_lit_of(
            memo,
            i,
        ).spec_var() != cnf_lit_of(memo, j).spec_var()
}

/// Every cached entry certifies its node.
pub open spec fn cnf_memo_wf(memo: CnfMemo, m: TermManager, dc: DagCnf) -> bool {
    forall|i: int|
        0 <= i < memo.map@.len() ==> (match #[trigger] cnf_memo_entry(memo, i) {
            Some(l) => cnf_entry_ok(memo, m, dc, i, l),
            None => true,
        })
}

impl CnfMemo {
    /// An empty memo.
    pub fn new() -> (r: CnfMemo)
        ensures
            r.map@.len() == 0,
            forall|i: int| cnf_memo_entry(r, i) is None,
    {
        CnfMemo { map: Vec::new() }
    }

    fn get(&self, t: Term) -> (r: Option<Lit>)
        ensures
            r == cnf_memo_entry(*self, t.id as int),
    {
        if t.id < self.map.len() {
            self.map[t.id]
        } else {
            None
        }
    }

    #[verifier::loop_isolation(false)]
    fn put(&mut self, t: Term, l: Lit)
        requires
            cnf_memo_entry(*old(self), t.id as int) is None,
        ensures
            cnf_memo_entry(*final(self), t.id as int) == Some(l),
            forall|i: int|
                i != t.id ==> #[trigger] cnf_memo_entry(*final(self), i) == cnf_memo_entry(
                    *old(self),
                    i,
                ),
    {
        while self.map.len() <= t.id
            invariant
                forall|i: int|
                    #[trigger] cnf_memo_entry(*self, i) == cnf_memo_entry(*old(self), i),
            decreases t.id + 1 - self.map.len(),
        {
            let ghost pre = *self;
            self.map.push(None);
            proof {
                assert forall|i: int|
                    #[trigger] cnf_memo_entry(*self, i) == cnf_memo_entry(pre, i) by {
                    if 0 <= i < self.map@.len() - 1 {
                        assert(self.map@[i] == pre.map@[i]);
                    }
                }
            }
        }
        let ghost pre = *self;
        self.map.set(t.id, Some(l));
        proof {
            assert forall|i: int|
                i != t.id implies #[trigger] cnf_memo_entry(*self, i) == cnf_memo_entry(
                pre,
                i,
            ) by {
                if 0 <= i < self.map@.len() {
                    assert(self.map@[i] == pre.map@[i]);
                }
            }
        }
    }
}

/// The boolean sub-graph the encoder accepts: one-bit constants and
/// variables, and the boolean gates with a direct CNF encoding.
pub open spec fn bool_dag(m: TermManager, t: Term) -> bool
    decreases t.id,
    when m.wf() && m.valid(t)
{
    m.sort_of(t) == Sort::Bv(1usize) && match m.node(t).ty {
        TermType::Const(c) => c is BV,
        TermType::Var(_) => true,
        TermType::Op(ot) => {
            proof {
                assert(m.node_wf(t.id as int));
            }
            let ts = ot.terms@;
            match ot.op {
                Op::Not => bool_dag(m, ts[0]),
                Op::And | Op::Or | Op::Xor | Op::Eq => bool_dag(m, ts[0]) && bool_dag(m, ts[1]),
                Op::Ite => bool_dag(m, ts[0]) && bool_dag(m, ts[1]) && bool_dag(m, ts[2]),
                _ => false,
            }
        },
    }
}

/// The fresh propositional variables that encoding node `i` may still
/// cost.
pub open spec fn cnf_cost(m: TermManager, memo: CnfMemo, i: int) -> nat {
    if 0 <= i < m.nodes@.len() && !(m.nodes@[i].ty is Const) && cnf_memo_entry(memo, i)
        is None {
        1
    } else {
        0
    }
}

/// The total variable cost of the first `n` nodes.
pub open spec fn cnf_budget(m: TermManager, memo: CnfMemo, n: int) -> nat
    decreases n,
{
    if n <= 0 {
        0
    } else {
        cnf_budget(m, memo, n - 1) + cnf_cost(m, memo, n - 1)
    }
}

/// The variable headroom of the encoder.
pub open spec fn cnf_head(m: TermManager, memo: CnfMemo, dc: DagCnf) -> nat {
    (dc.max_var + cnf_budget(m, memo, m.nodes@.len() as int)) as nat
}

proof fn lemma_cnf_budget_lower(m: TermManager, memo: CnfMemo, i: int, n: int)
    requires
        0 <= i < n,
    ensures
        cnf_cost(m, memo, i) <= cnf_budget(m, memo, n),
    decreases n,
{
    if i < n - 1 {
        lemma_cnf_budget_lower(m, memo, i, n - 1);
    }
}

proof fn lemma_cnf_budget_put(
    m: TermManager,
    memo0: CnfMemo,
    memo1: CnfMemo,
    i: int,
    n: int,
)
    requires
        cnf_memo_entry(memo0, i) is None,
        cnf_memo_entry(memo1, i) is Some,
        forall|j: int| j != i ==> #[trigger] cnf_memo_entry(memo1, j) == cnf_memo_entry(memo0, j),
    ensures
        cnf_budget(m, memo1, n) + (if 0 <= i < n {
            cnf_cost(m, memo0, i)
        } else {
            0
        }) == cnf_budget(m, memo0, n),
    decreases n,
{
    if n > 0 {
        lemma_cnf_budget_put(m, memo0, memo1, i, n - 1);
        if i != n - 1 {
            assert(cnf_memo_entry(memo1, n - 1) == cnf_memo_entry(memo0, n - 1));
        }
    }
}

/// A certified entry stays certified when the memo keeps its entries,
/// the clause list grows, and the variable counter only advances.
proof fn lemma_cnf_memo_wf_frame(
    memo0: CnfMemo,
    memo1: CnfMemo,
    m: TermManager,
    dc0: DagCnf,
    dc1: DagCnf,
)
    requires
        cnf_memo_wf(memo0, m, dc0),
        forall|i: int|
            cnf_memo_entry(memo0, i) is Some ==> #[trigger] cnf_memo_entry(memo1, i)
                == cnf_memo_entry(memo0, i),
        forall|i: int|
            cnf_memo_entry(memo1, i) is Some ==> #[trigger] cnf_memo_entry(memo0, i)
                == cnf_memo_entry(memo1, i),
        cnf_view(dc0).is_prefix_of(cnf_view(dc1)),
        dc0.max_var <= dc1.max_var,
    ensures
        cnf_memo_wf(memo1, m, dc1),
{
    assert forall|i: int|
        0 <= i < memo1.map@.len() implies (match #[trigger] cnf_memo_entry(memo1, i) {
        Some(l) => cnf_entry_ok(memo1, m, dc1, i, l),
        None => true,
    }) by {
        match cnf_memo_entry(memo1, i) {
            Some(l) => {
                assert(cnf_memo_entry(memo0, i) == Some(l));
                if 0 <= i < memo0.map@.len() {
                } else {
                    assert(cnf_memo_entry(memo0, i) is None);
                }
                assert(cnf_entry_ok(memo0, m, dc0, i, l));
                match m.nodes@[i].ty {
                    TermType::Op(ot) => {
                        let ts = ot.terms@;
                        match ot.op {
                            Op::And => {
                                lemma_gate_frame_sub(
                                    memo0,
                                    memo1,
                                    dc0,
                                    dc1,
                                    and_clauses(
                                        l,
                                        cnf_lit_of(memo0, ts[0].id as int),
                                        cnf_lit_of(memo0, ts[1].id as int),
                                    ),
                                );
                            },
                            Op::Or => {
                                lemma_gate_frame_sub(
                                    memo0,
                                    memo1,
                                    dc0,
                                    dc1,
                                    or_clauses(
                                        l,
                                        cnf_lit_of(memo0, ts[0].id as int),
                                        cnf_lit_of(memo0, ts[1].id as int),
                                    ),
                                );
                            },
                            Op::Xor => {
                                lemma_gate_frame_sub(
                                    memo0,
                                    memo1,
                                    dc0,
                                    dc1,
                                    xor_clauses(
                                        l,
                                        cnf_lit_of(memo0, ts[0].id as int),
                                        cnf_lit_of(memo0, ts[1].id as int),
                                    ),
                                );
                            },
                            Op::Eq => {
                                lemma_gate_frame_sub(
                                    memo0,
                                    memo1,
                                    dc0,
                                    dc1,
                                    xnor_clauses(
                                        l,
                                        cnf_lit_of(memo0, ts[0].id as int),
                                        cnf_lit_of(memo0, ts[1].id as int),
                                    ),
                                );
                            },
                            Op::Ite => {
                                lemma_gate_frame_sub(
                                    memo0,
                                    memo1,
                                    dc0,
                                    dc1,
                                    ite_clauses(
                                        l,
                                        cnf_lit_of(memo0, ts[0].id as int),
                                        cnf_lit_of(memo0, ts[1].id as int),
                                        cnf_lit_of(memo0, ts[2].id as int),
                                    ),
                                );
                            },
                            _ => {},
                        }
                    },
                    _ => {},
                }
            },
            None => {},
        }
    }
}

proof fn lemma_gate_frame_sub(
    memo0: CnfMemo,
    memo1: CnfMemo,
    dc0: DagCnf,
    dc1: DagCnf,
    sub: Seq<Seq<Lit>>,
)
    requires
        clauses_in(cnf_view(dc0), sub),
        cnf_view(dc0).is_prefix_of(cnf_view(dc1)),
    ensures
        clauses_in(cnf_view(dc1), sub),
{
    assert forall|t: int| 0 <= t < sub.len() implies clause_in(cnf_view(dc1), #[trigger] sub[
        t
    ]) by {
        lemma_clause_in_prefix(cnf_view(dc0), cnf_view(dc1), sub[t]);
    }
}

/// Caching an entry whose variable clashes with no cached one keeps the
/// allocating nodes' variables distinct.
proof fn lemma_cnf_put_distinct(
    memo0: CnfMemo,
    memo1: CnfMemo,
    m: TermManager,
    t: Term,
    l: Lit,
)
    requires
        cnf_vars_distinct(memo0, m),
        cnf_memo_entry(memo0, t.id as int) is None,
        cnf_memo_entry(memo1, t.id as int) == Some(l),
        forall|i: int|
            i != t.id ==> #[trigger] cnf_memo_entry(memo1, i) == cnf_memo_entry(memo0, i),
        cnf_allocating(m, t.id as int) ==> forall|j: int|
            j != t.id && #[trigger] cnf_memo_entry(memo0, j) is Some ==> l.spec_var()
                != cnf_lit_of(memo0, j).spec_var(),
    ensures
        cnf_vars_distinct(memo1, m),
{
    assert forall|i: int, j: int|
        cnf_allocating(m, i) && cnf_allocating(m, j) && i != j && #[trigger] cnf_memo_entry(
            memo1,
            i,
        ) is Some && #[trigger] cnf_memo_entry(memo1, j) is Some implies cnf_lit_of(
        memo1,
        i,
    ).spec_var() != cnf_lit_of(memo1, j).spec_var() by {
        if i == t.id {
            assert(cnf_memo_entry(memo1, j) == cnf_memo_entry(memo0, j));
        } else if j == t.id {
            assert(cnf_memo_entry(memo1, i) == cnf_memo_entry(memo0, i));
        } else {
            assert(cnf_memo_entry(memo1, i) == cnf_memo_entry(memo0, i));
            assert(cnf_memo_entry(memo1, j) == cnf_memo_entry(memo0, j));
        }
    }
}

/// Caching a certified entry keeps the memo certified.
#[verifier::rlimit(100)]
proof fn lemma_cnf_put_wf(
    memo0: CnfMemo,
    memo1: CnfMemo,
    m: TermManager,
    dc: DagCnf,
    t: Term,
    l: Lit,
)
    requires
        cnf_memo_wf(memo0, m, dc),
        cnf_memo_entry(memo0, t.id as int) is None,
        cnf_memo_entry(memo1, t.id as int) == Some(l),
        forall|i: int|
            i != t.id ==> #[trigger] cnf_memo_entry(memo1, i) == cnf_memo_entry(memo0, i),
        cnf_entry_ok(memo1, m, dc, t.id as int, l),
    ensures
        cnf_memo_wf(memo1, m, dc),
{
    assert forall|i: int|
        0 <= i < memo1.map@.len() implies (match #[trigger] cnf_memo_entry(memo1, i) {
        Some(l2) => cnf_entry_ok(memo1, m, dc, i, l2),
        None => true,
    }) by {
        match cnf_memo_entry(memo1, i) {
            Some(l2) => {
                if i == t.id {
                } else {
                    assert(cnf_memo_entry(memo0, i) == Some(l2));
                    if 0 <= i < memo0.map@.len() {
                    } else {
                        assert(cnf_memo_entry(memo0, i) is None);
                    }
                    assert(cnf_entry_ok(memo0, m, dc, i, l2));
                    match m.nodes@[i].ty {
                        TermType::Op(ot) => {
                            let ts = ot.terms@;
                            match ot.op {
                                Op::Not => {
                                    assert(ts[0].id != t.id);
                                    assert(cnf_memo_entry(memo1, ts[0].id as int)
                                        == cnf_memo_entry(memo0, ts[0].id as int));
                                },
                                Op::And | Op::Or | Op::Xor | Op::Eq => {
                                    assert(ts[0].id != t.id);
                                    assert(ts[1].id != t.id);
                                    assert(cnf_memo_entry(memo1, ts[0].id as int)
                                        == cnf_memo_entry(memo0, ts[0].id as int));
                                    assert(cnf_memo_entry(memo1, ts[1].id as int)
                                        == cnf_memo_entry(memo0, ts[1].id as int));
                                    assert(gate_lit_fresh(memo0, l2, ts, 2));
                                    assert forall|j: int| 0 <= j < 2 implies l2.spec_var()
                                        > cnf_lit_of(
                                        memo1,
                                        (#[trigger] ts[j]).id as int,
                                    ).spec_var() by {
                                        assert(cnf_memo_entry(memo1, ts[j].id as int)
                                            == cnf_memo_entry(memo0, ts[j].id as int));
                                        assert(l2.spec_var() > cnf_lit_of(
                                            memo0,
                                            ts[j].id as int,
                                        ).spec_var());
                                    }
                                    assert(gate_lit_fresh(memo1, l2, ts, 2));
                                },
                                Op::Ite => {
                                    assert(ts[0].id != t.id);
                                    assert(ts[1].id != t.id);
                                    assert(ts[2].id != t.id);
                                    assert(cnf_memo_entry(memo1, ts[0].id as int)
                                        == cnf_memo_entry(memo0, ts[0].id as int));
                                    assert(cnf_memo_entry(memo1, ts[1].id as int)
                                        == cnf_memo_entry(memo0, ts[1].id as int));
                                    assert(cnf_memo_entry(memo1, ts[2].id as int)
                                        == cnf_memo_entry(memo0, ts[2].id as int));
                                    assert(gate_lit_fresh(memo0, l2, ts, 3));
                                    assert forall|j: int| 0 <= j < 3 implies l2.spec_var()
                                        > cnf_lit_of(
                                        memo1,
                                        (#[trigger] ts[j]).id as int,
                                    ).spec_var() by {
                                        assert(cnf_memo_entry(memo1, ts[j].id as int)
                                            == cnf_memo_entry(memo0, ts[j].id as int));
                                        assert(l2.spec_var() > cnf_lit_of(
                                            memo0,
                                            ts[j].id as int,
                                        ).spec_var());
                                    }
                                    assert(gate_lit_fresh(memo1, l2, ts, 3));
                                },
                                _ => {
                                    assert(false);
                                },
                            }
                        },
                        _ => {},
                    }
                }
            },
            None => {},
        }
    }
}

/// The clauses just appended are members of the new clause list.
proof fn lemma_appended_in(cs0: Seq<Seq<Lit>>, cs1: Seq<Seq<Lit>>, sub: Seq<Seq<Lit>>)
    requires
        cs1 =~= cs0 + sub,
    ensures
        clauses_in(cs1, sub),
        cs0.is_prefix_of(cs1),
{
    assert forall|t: int| 0 <= t < sub.len() implies clause_in(cs1, #[trigger] sub[t]) by {
        assert(cs1[cs0.len() + t] == sub[t]);
    }
    assert(cs1.subrange(0, cs0.len() as int) =~= cs0);
}

impl Term {
    /// Lowers a one-bit boolean term into a literal inside the CNF
    /// builder, asserting one Tseitin clause set per gate, memoized by
    /// term identity. A cached term returns the cached literal, touching
    /// neither the builder nor the memo.
    #[verifier::rlimit(100)]
    pub fn cnf_encode(self, tm: &TermManager, dc: &mut DagCnf, memo: &mut CnfMemo) -> (l: Lit)
        requires
            tm.wf(),
            tm.valid(self),
            bool_dag(*tm, self),
            cnf_memo_wf(*old(memo), *tm, *old(dc)),
            cnf_vars_distinct(*old(memo), *tm),
            cnf_head(*tm, *old(memo), *old(dc)) < 0x7fff_ffff,
        ensures
            final(dc).max_var >= old(dc).max_var,
            cnf_view(*old(dc)).is_prefix_of(cnf_view(*final(dc))),
            cnf_memo_wf(*final(memo), *tm, *final(dc)),
            cnf_vars_distinct(*final(memo), *tm),
            cnf_head(*tm, *final(memo), *final(dc)) <= cnf_head(*tm, *old(memo), *old(dc)),
            forall|i: int|
                cnf_memo_entry(*old(memo), i) is Some ==> #[trigger] cnf_memo_entry(
                    *final(memo),
                    i,
                ) == cnf_memo_entry(*old(memo), i),
            forall|i: int|
                i > self.id ==> #[trigger] cnf_memo_entry(*final(memo), i) == cnf_memo_entry(
                    *old(memo),
                    i,
                ),
            cnf_memo_entry(*final(memo), self.id as int) == Some(l),
            cnf_memo_entry(*old(memo), self.id as int) matches Some(e) ==> l == e && *final(dc)
                == *old(dc) && *final(memo) == *old(memo),
            tm.node(self).ty is Const ==> *final(dc) == *old(dc),
        decreases self.id,
    {
        proof {
            assert(tm.node_wf(self.id as int));
        }
        if let Some(hit) = memo.get(self) {
            return hit;
        }
        let ghost dc0 = *dc;
        let ghost memo0 = *memo;
        let ghost n_all = tm.nodes@.len() as int;
        if tm.is_const_node(self) {
            let b = tm.const_first_bit(self);
            let l = Lit::constant(b);
            memo.put(self, l);
            proof {
                lemma_cnf_budget_put(*tm, memo0, *memo, self.id as int, n_all);
                assert(cnf_cost(*tm, memo0, self.id as int) == 0);
                assert(cnf_entry_ok(*memo, *tm, *dc, self.id as int, l));
                lemma_cnf_put_wf(memo0, *memo, *tm, *dc, self, l);
                lemma_cnf_put_distinct(memo0, *memo, *tm, self, l);
                assert(cnf_view(dc0).is_prefix_of(cnf_view(*dc)));
            }
            return l;
        }
        if tm.is_var_node(self) {
            let v = dc.new_var();
            let l = Lit::new(v, true);
            let ghost dc1 = *dc;
            proof {
                lemma_cnf_memo_wf_frame(memo0, memo0, *tm, dc0, dc1);
                assert(cnf_view(dc0).is_prefix_of(cnf_view(dc1)));
            }
            memo.put(self, l);
            proof {
                lemma_cnf_budget_put(*tm, memo0, *memo, self.id as int, n_all);
                assert(cnf_cost(*tm, memo0, self.id as int) == 1);
                assert(cnf_entry_ok(*memo, *tm, *dc, self.id as int, l));
                assert forall|j: int|
                    j != self.id && #[trigger] cnf_memo_entry(memo0, j) is Some implies l.spec_var()
                    != cnf_lit_of(memo0, j).spec_var() by {
                    assert(cnf_entry_ok(memo0, *tm, dc0, j, cnf_lit_of(memo0, j)));
                }
                lemma_cnf_put_wf(memo0, *memo, *tm, *dc, self, l);
                lemma_cnf_put_distinct(memo0, *memo, *tm, self, l);
            }
            return l;
        }
        // an interior boolean node: the operands become literals
        // first, and a defining clause set then ties a fresh literal
        // to them
        let opv = match tm.node_op_of(self) {
            Some(op) => op,
            None => unreached(),
        };
        let ghost ts = tm.node(self).ty->Op_0.terms@;
        let o0 = tm.node_operand(self, 0);
        let l0 = o0.cnf_encode(tm, dc, memo);
        let ghost dca = *dc;
        let ghost memoa = *memo;
        proof {
            assert(cnf_entry_ok(*memo, *tm, *dc, o0.id as int, l0)) by {
                assert(cnf_memo_entry(*memo, o0.id as int) == Some(l0));
            }
        }
        if matches!(opv, Op::Not) {
            let l = l0.negate();
            memo.put(self, l);
            proof {
                lemma_cnf_budget_put(*tm, memoa, *memo, self.id as int, n_all);
                assert(cnf_memo_entry(memoa, self.id as int) is None);
                assert(cnf_entry_ok(*memo, *tm, *dc, self.id as int, l));
                lemma_cnf_put_wf(memoa, *memo, *tm, *dc, self, l);
                lemma_cnf_put_distinct(memoa, *memo, *tm, self, l);
            }
            return l;
        }
        let o1 = tm.node_operand(self, 1);
        let l1 = o1.cnf_encode(tm, dc, memo);
        let ghost dcb = *dc;
        let ghost memob = *memo;
        proof {
            assert(cnf_memo_entry(*memo, o0.id as int) == Some(l0));
            assert(cnf_entry_ok(*memo, *tm, *dc, o1.id as int, l1)) by {
                assert(cnf_memo_entry(*memo, o1.id as int) == Some(l1));
            }
            assert(cnf_memo_entry(memob, self.id as int) is None);
        }
        if matches!(opv, Op::Ite) {
            let o2 = tm.node_operand(self, 2);
            let l2 = o2.cnf_encode(tm, dc, memo);
            let ghost memoc = *memo;
            proof {
                assert(cnf_memo_entry(*memo, o0.id as int) == Some(l0));
                assert(cnf_memo_entry(*memo, o1.id as int) == Some(l1));
                assert(cnf_memo_entry(*memo, o2.id as int) == Some(l2));
                assert(cnf_memo_entry(memoc, self.id as int) is None);
            }
            let ghost dcc = *dc;
            let v = dc.new_var();
            let n = Lit::new(v, true);
            let ghost dcm = *dc;
            dc.add_ite_rel(n, l0, l1, l2);
            proof {
                lemma_appended_in(cnf_view(dcm), cnf_view(*dc), ite_clauses(n, l0, l1, l2));
                assert(cnf_view(dcc).is_prefix_of(cnf_view(*dc)));
                assert(cnf_view(dcb).is_prefix_of(cnf_view(*dc)));
                lemma_cnf_memo_wf_frame(memoc, memoc, *tm, dcc, *dc);
            }
            memo.put(self, n);
            proof {
                lemma_cnf_budget_put(*tm, memoc, *memo, self.id as int, n_all);
                assert(cnf_entry_ok(memoc, *tm, dcc, o0.id as int, l0));
                assert(cnf_entry_ok(memoc, *tm, dcc, o1.id as int, l1));
                assert(cnf_entry_ok(memoc, *tm, dcc, o2.id as int, l2));
                assert(cnf_entry_ok(*memo, *tm, *dc, self.id as int, n)) by {
                    let ts = tm.node(self).ty->Op_0.terms@;
                    assert(ts[0] == o0 && ts[1] == o1 && ts[2] == o2);
                    assert(gate_lit_fresh(*memo, n, ts, 3));
                }
                assert forall|j: int|
                    j != self.id && #[trigger] cnf_memo_entry(memoc, j) is Some implies n.spec_var()
                    != cnf_lit_of(memoc, j).spec_var() by {
                    assert(cnf_entry_ok(memoc, *tm, dcc, j, cnf_lit_of(memoc, j)));
                }
                lemma_cnf_put_wf(memoc, *memo, *tm, *dc, self, n);
                lemma_cnf_put_distinct(memoc, *memo, *tm, self, n);
            }
            return n;
        }
        let v = dc.new_var();
        let n = Lit::new(v, true);
        let ghost dcm = *dc;
        match opv {
            Op::And => dc.add_and_rel(n, l0, l1),
            Op::Or => dc.add_or_rel(n, l0, l1),
            Op::Xor => dc.add_xor_rel(n, l0, l1),
            Op::Eq => dc.add_xnor_rel(n, l0, l1),
            _ => {
                proof {
                    assert(false);
                }
                unreached()
            },
        }
        proof {
            match opv {
                Op::And => {
                    lemma_appended_in(cnf_view(dcm), cnf_view(*dc), and_clauses(n, l0, l1));
                },
                Op::Or => {
                    lemma_appended_in(cnf_view(dcm), cnf_view(*dc), or_clauses(n, l0, l1));
                },
                Op::Xor => {
                    lemma_appended_in(cnf_view(dcm), cnf_view(*dc), xor_clauses(n, l0, l1));
                },
                Op::Eq => {
                    lemma_appended_in(cnf_view(dcm), cnf_view(*dc), xnor_clauses(n, l0, l1));
                },
                _ => {},
            }
            assert(cnf_view(dcb).is_prefix_of(cnf_view(*dc)));
            lemma_cnf_memo_wf_frame(memob, memob, *tm, dcb, *dc);
        }
        memo.put(self, n);
        proof {
            lemma_cnf_budget_put(*tm, memob, *memo, self.id as int, n_all);
            assert(cnf_entry_ok(memob, *tm, dcb, o0.id as int, l0));
            assert(cnf_entry_ok(memob, *tm, dcb, o1.id as int, l1));
            assert(cnf_entry_ok(*memo, *tm, *dc, self.id as int, n)) by {
                let ts = tm.node(self).ty->Op_0.terms@;
                assert(ts[0] == o0 && ts[1] == o1);
                assert(gate_lit_fresh(*memo, n, ts, 2));
            }
            assert forall|j: int|
                j != self.id && #[trigger] cnf_memo_entry(memob, j) is Some implies n.spec_var()
                != cnf_lit_of(memob, j).spec_var() by {
                assert(cnf_entry_ok(memob, *tm, dcb, j, cnf_lit_of(memob, j)));
            }
            lemma_cnf_put_wf(memob, *memo, *tm, *dc, self, n);
            lemma_cnf_put_distinct(memob, *memo, *tm, self, n);
        }
        n
    }
}

/// Every assignment satisfying the builder's clause list respects
/// every cached interior node: its literal and its operator applied to
/// the operand literals have one truth value. Together with the
/// converse direction inside each Tseitin lemma, this is the
/// defining-clause/truth-table correspondence of the encoding.
pub proof fn lemma_encoder_gate_sound(
    m: TermManager,
    dc: DagCnf,
    memo: CnfMemo,
    i: int,
    a: spec_fn(u32) -> bool,
)
    requires
        cnf_memo_wf(memo, m, dc),
        0 <= i < memo.map@.len(),
        cnf_memo_entry(memo, i) is Some,
        m.nodes@[i].ty is Op,
        cnf_sat(a, cnf_view(dc)),
    ensures
        ({
            let l = cnf_lit_of(memo, i);
            let ts = m.nodes@[i].ty->Op_0.terms@;
            match m.nodes@[i].ty->Op_0.op {
                Op::Not => lit_sat(a, l) == !lit_sat(a, cnf_lit_of(memo, ts[0].id as int)),
                Op::And => lit_sat(a, l) == (lit_sat(a, cnf_lit_of(memo, ts[0].id as int))
                    && lit_sat(a, cnf_lit_of(memo, ts[1].id as int))),
                Op::Or => lit_sat(a, l) == (lit_sat(a, cnf_lit_of(memo, ts[0].id as int))
                    || lit_sat(a, cnf_lit_of(memo, ts[1].id as int))),
                Op::Xor => lit_sat(a, l) == (lit_sat(a, cnf_lit_of(memo, ts[0].id as int))
                    != lit_sat(a, cnf_lit_of(memo, ts[1].id as int))),
                Op::Eq => lit_sat(a, l) == (lit_sat(a, cnf_lit_of(memo, ts[0].id as int))
                    == lit_sat(a, cnf_lit_of(memo, ts[1].id as int))),
                Op::Ite => lit_sat(a, l) == (if lit_sat(a, cnf_lit_of(memo, ts[0].id as int)) {
                    lit_sat(a, cnf_lit_of(memo, ts[1].id as int))
                } else {
                    lit_sat(a, cnf_lit_of(memo, ts[2].id as int))
                }),
                _ => true,
            }
        }),
{
    let l = cnf_lit_of(memo, i);
    let ts = m.nodes@[i].ty->Op_0.terms@;
    assert(cnf_entry_ok(memo, m, dc, i, l));
    match m.nodes@[i].ty->Op_0.op {
        Op::Not => {
            lemma_lit_not(a, cnf_lit_of(memo, ts[0].id as int));
        },
        Op::And => {
            let x = cnf_lit_of(memo, ts[0].id as int);
            let y = cnf_lit_of(memo, ts[1].id as int);
            lemma_sat_contained(a, cnf_view(dc), and_clauses(l, x, y));
            lemma_tseitin_and(a, l, x, y);
        },
        Op::Or => {
            let x = cnf_lit_of(memo, ts[0].id as int);
            let y = cnf_lit_of(memo, ts[1].id as int);
            lemma_sat_contained(a, cnf_view(dc), or_clauses(l, x, y));
            lemma_tseitin_or(a, l, x, y);
        },
        Op::Xor => {
            let x = cnf_lit_of(memo, ts[0].id as int);
            let y = cnf_lit_of(memo, ts[1].id as int);
            lemma_sat_contained(a, cnf_view(dc), xor_clauses(l, x, y));
            lemma_tseitin_xor(a, l, x, y);
        },
        Op::Eq => {
            let x = cnf_lit_of(memo, ts[0].id as int);
            let y = cnf_lit_of(memo, ts[1].id as int);
            lemma_sat_contained(a, cnf_view(dc), xnor_clauses(l, x, y));
            lemma_tseitin_xnor(a, l, x, y);
        },
        Op::Ite => {
            let c = cnf_lit_of(memo, ts[0].id as int);
            let t = cnf_lit_of(memo, ts[1].id as int);
            let e = cnf_lit_of(memo, ts[2].id as int);
            lemma_sat_contained(a, cnf_view(dc), ite_clauses(l, c, t, e));
            lemma_tseitin_ite(a, l, c, t, e);
        },
        _ => {},
    }
}

/// Wherever the builder's base clause is present, a satisfying
/// assignment makes the constant-true literal true and the
/// constant-false literal false.
pub proof fn lemma_const_lit_sound(dc: DagCnf, a: spec_fn(u32) -> bool)
    requires
        clause_in(cnf_view(dc), seq![spec_const_lit(true)]),
        cnf_sat(a, cnf_view(dc)),
    ensures
        lit_sat(a, spec_const_lit(true)),
        !lit_sat(a, spec_const_lit(false)),
{
    let k = choose|k: int|
        0 <= k < cnf_view(dc).len() && cnf_view(dc)[k] == seq![spec_const_lit(true)];
    assert(clause_sat(a, cnf_view(dc)[k]));
    let j = choose|j: int|
        0 <= j < cnf_view(dc)[k].len() && lit_sat(a, cnf_view(dc)[k][j]);
    assert(cnf_view(dc)[k][j] == spec_const_lit(true));
}

/// Lowers each term of a batch to CNF literals, sharing the memo and
/// the builder, so DAG structure shared across the batch is encoded
/// once.
#[verifier::loop_isolation(false)]
pub fn cnf_encode_terms(
    terms: &Vec<Term>,
    tm: &TermManager,
    dc: &mut DagCnf,
    memo: &mut CnfMemo,
) -> (r: Vec<Lit>)
    requires
        tm.wf(),
        tm.all_valid(terms@),
        forall|j: int| 0 <= j < terms@.len() ==> bool_dag(*tm, #[trigger] terms@[j]),
        cnf_memo_wf(*old(memo), *tm, *old(dc)),
        cnf_vars_distinct(*old(memo), *tm),
        cnf_head(*tm, *old(memo), *old(dc)) < 0x7fff_ffff,
    ensures
        final(dc).max_var >= old(dc).max_var,
        cnf_view(*old(dc)).is_prefix_of(cnf_view(*final(dc))),
        cnf_memo_wf(*final(memo), *tm, *final(dc)),
        cnf_vars_distinct(*final(memo), *tm),
        cnf_head(*tm, *final(memo), *final(dc)) <= cnf_head(*tm, *old(memo), *old(dc)),
        r@.len() == terms@.len(),
        forall|j: int|
            0 <= j < r@.len() ==> cnf_memo_entry(
                *final(memo),
                terms@[j].id as int,
            ) == Some(#[trigger] r@[j]),
{
    let ghost dc0 = *dc;
    let ghost memo0 = *memo;
    let mut out: Vec<Lit> = Vec::new();
    let n = terms.len();
    for k in 0..n
        invariant
            dc.max_var >= dc0.max_var,
            cnf_view(dc0).is_prefix_of(cnf_view(*dc)),
            cnf_memo_wf(*memo, *tm, *dc),
            cnf_vars_distinct(*memo, *tm),
            cnf_head(*tm, *memo, *dc) <= cnf_head(*tm, memo0, dc0),
            out@.len() == k,
            forall|i: int|
                cnf_memo_entry(memo0, i) is Some ==> #[trigger] cnf_memo_entry(*memo, i)
                    == cnf_memo_entry(memo0, i),
            forall|j: int|
                0 <= j < k ==> cnf_memo_entry(*memo, terms@[j].id as int) == Some(
                    #[trigger] out@[j],
                ),
    {
        let ghost dcp = *dc;
        let ghost memop = *memo;
        let l = terms[k].cnf_encode(tm, dc, memo);
        out.push(l);
        proof {
            assert(cnf_view(dc0).is_prefix_of(cnf_view(*dc))) by {
                assert(cnf_view(dc0).is_prefix_of(cnf_view(dcp)));
                assert(cnf_view(dcp).is_prefix_of(cnf_view(*dc)));
                assert(cnf_view(dc0) =~= cnf_view(*dc).subrange(
                    0,
                    cnf_view(dc0).len() as int,
                ));
            }
            assert forall|j: int|
                0 <= j < k + 1 implies cnf_memo_entry(*memo, terms@[j].id as int) == Some(
                #[trigger] out@[j],
            ) by {
                if j < k {
                    assert(cnf_memo_entry(memop, terms@[j].id as int) == Some(out@[j]));
                }
            }
        }
    }
    out
}

impl crate::term::BvConst {
    /// A one-bit constant lowers to a fixed literal, with no new
    /// variable: the constant-true or constant-false literal of its
    /// single bit.
    pub fn cnf_encode(&self) -> (l: Lit)
        requires
            self@.len() == 1,
        ensures
            l == spec_const_lit(self@[0]),
    {
        Lit::constant(self.c[0])
    }
}

impl crate::term::ConstTerm {
    /// A one-bit constant leaf lowers to a fixed literal.
    pub fn cnf_encode(&self) -> (l: Lit)
        requires
            self matches crate::term::ConstTerm::BV(b) && b@.len() == 1,
        ensures
            l == spec_const_lit(crate::term::const_bits(*self)[0]),
    {
        match self {
            crate::term::ConstTerm::BV(b) => b.cnf_encode(),
            crate::term::ConstTerm::Array(_) => unreached(),
        }
    }
}

impl TermManager {
    /// The single bit of a one-bit constant node.
    fn const_first_bit(&self, t: Term) -> (b: bool)
        requires
            self.wf(),
            self.valid(t),
            self.node(t).ty is Const,
            self.node(t).ty->Const_0 is BV,
            self.sort_of(t) == Sort::Bv(1usize),
        ensures
            b == crate::term::const_bits(self.node(t).ty->Const_0)[0],
    {
        proof {
            assert(self.node_wf(t.id as int));
        }
        match &self.nodes[t.id].ty {
            TermType::Const(crate::term::ConstTerm::BV(bv)) => bv.c[0],
            _ => unreached(),
        }
    }
}

} // verus!
