//! The Tseitin CNF encoder: for each boolean operator, the satisfying
//! assignments of its defining clauses, restricted to operand and
//! result literals, are the truth-table rows of that operator; plus
//! memoization transparency of the encoding pass.

use termgraph::cnf::{cnf_encode_terms, CnfMemo, DagCnf, Lit};
use termgraph::{Op, Sort, TermManager};

fn lit_value(l: Lit, assign: &[bool]) -> bool {
    let var = (l.code / 2) as usize;
    let pos = l.code % 2 == 0;
    assign[var] == pos
}

fn clauses_satisfied(dc: &DagCnf, assign: &[bool]) -> bool {
    dc.clauses
        .iter()
        .all(|c| c.iter().any(|l| lit_value(*l, assign)))
}

/// Encodes `op` over one or two fresh boolean variables and checks the
/// clause set against the operator's truth table, both directions:
/// every satisfying assignment is a truth-table row, and every row
/// extends to a satisfying assignment.
fn check_gate(op: Op, arity: usize) {
    let mut tm = TermManager::new();
    let mut dc = DagCnf::new();
    let mut memo = CnfMemo::new();
    let mut vars = Vec::new();
    for _ in 0..arity {
        vars.push(tm.new_var(Sort::Bv(1)));
    }
    let g = tm.new_op_term(op, &vars);
    let ls: Vec<Lit> = vars
        .iter()
        .map(|v| v.cnf_encode(&tm, &mut dc, &mut memo))
        .collect();
    let lg = g.cnf_encode(&tm, &mut dc, &mut memo);
    let nvars = (dc.max_var + 1) as usize;
    let mut seen_rows = Vec::new();
    for bits in 0..(1u32 << nvars) {
        let assign: Vec<bool> = (0..nvars).map(|i| (bits >> i) & 1 == 1).collect();
        let ins: Vec<bool> = ls.iter().map(|l| lit_value(*l, &assign)).collect();
        let out = lit_value(lg, &assign);
        let expect = match op {
            Op::Not => !ins[0],
            Op::And => ins[0] && ins[1],
            Op::Or => ins[0] || ins[1],
            Op::Xor => ins[0] != ins[1],
            Op::Eq => ins[0] == ins[1],
            _ => panic!("unexpected gate"),
        };
        if clauses_satisfied(&dc, &assign) {
            // soundness: the restriction to operand/result literals is
            // a truth-table row
            assert_eq!(out, expect, "gate {:?} inputs {:?}", op, ins);
            if !seen_rows.contains(&ins) {
                seen_rows.push(ins);
            }
        }
    }
    // completeness: every truth-table row appears among the satisfying
    // assignments
    assert_eq!(seen_rows.len(), 1usize << arity, "gate {:?}", op);
}

#[test]
fn tseitin_not_gate() {
    check_gate(Op::Not, 1);
}

#[test]
fn tseitin_and_gate() {
    check_gate(Op::And, 2);
}

#[test]
fn tseitin_or_gate() {
    check_gate(Op::Or, 2);
}

#[test]
fn tseitin_xor_gate() {
    check_gate(Op::Xor, 2);
}

#[test]
fn tseitin_eq_gate() {
    check_gate(Op::Eq, 2);
}

#[test]
fn tseitin_ite_gate() {
    let mut tm = TermManager::new();
    let mut dc = DagCnf::new();
    let mut memo = CnfMemo::new();
    let c = tm.new_var(Sort::Bv(1));
    let t = tm.new_var(Sort::Bv(1));
    let e = tm.new_var(Sort::Bv(1));
    let g = tm.new_op_term(Op::Ite, &vec![c, t, e]);
    let lc = c.cnf_encode(&tm, &mut dc, &mut memo);
    let lt = t.cnf_encode(&tm, &mut dc, &mut memo);
    let le = e.cnf_encode(&tm, &mut dc, &mut memo);
    let lg = g.cnf_encode(&tm, &mut dc, &mut memo);
    let nvars = (dc.max_var + 1) as usize;
    let mut rows = 0;
    for bits in 0..(1u32 << nvars) {
        let assign: Vec<bool> = (0..nvars).map(|i| (bits >> i) & 1 == 1).collect();
        if clauses_satisfied(&dc, &assign) {
            let (vc, vt, ve) = (
                lit_value(lc, &assign),
                lit_value(lt, &assign),
                lit_value(le, &assign),
            );
            let out = lit_value(lg, &assign);
            assert_eq!(out, if vc { vt } else { ve });
            rows += 1;
        }
    }
    assert_eq!(rows, 8);
}

#[test]
fn constants_encode_without_new_variables() {
    let mut tm = TermManager::new();
    let mut dc = DagCnf::new();
    let mut memo = CnfMemo::new();
    let t = tm.bool_const(true);
    let f = tm.bool_const(false);
    let clauses_before = dc.clauses.len();
    let lt = t.cnf_encode(&tm, &mut dc, &mut memo);
    let lf = f.cnf_encode(&tm, &mut dc, &mut memo);
    assert_eq!(dc.max_var, 0);
    assert_eq!(dc.clauses.len(), clauses_before);
    // the base clause forces variable 0 false, so the true literal is
    // its negation
    assert_eq!(lt, Lit { code: 1 });
    assert_eq!(lf, Lit { code: 0 });
    let only_false = vec![false];
    assert!(clauses_satisfied(&dc, &only_false));
    assert!(lit_value(lt, &only_false));
    assert!(!lit_value(lf, &only_false));
}

#[test]
fn not_encodes_as_pure_negation() {
    let mut tm = TermManager::new();
    let mut dc = DagCnf::new();
    let mut memo = CnfMemo::new();
    let x = tm.new_var(Sort::Bv(1));
    let nx = tm.new_op_term(Op::Not, &vec![x]);
    let lx = x.cnf_encode(&tm, &mut dc, &mut memo);
    let vars_before = dc.max_var;
    let clauses_before = dc.clauses.len();
    let lnx = nx.cnf_encode(&tm, &mut dc, &mut memo);
    // negation costs no variable and no clause
    assert_eq!(dc.max_var, vars_before);
    assert_eq!(dc.clauses.len(), clauses_before);
    assert_eq!(lnx.code, lx.code ^ 1);
}

#[test]
fn memoization_returns_cached_literal_untouched() {
    let mut tm = TermManager::new();
    let mut dc = DagCnf::new();
    let mut memo = CnfMemo::new();
    let x = tm.new_var(Sort::Bv(1));
    let y = tm.new_var(Sort::Bv(1));
    let g = tm.new_op_term(Op::And, &vec![x, y]);
    let first = g.cnf_encode(&tm, &mut dc, &mut memo);
    let vars_after = dc.max_var;
    let clauses_after = dc.clauses.len();
    let second = g.cnf_encode(&tm, &mut dc, &mut memo);
    assert_eq!(first, second);
    assert_eq!(dc.max_var, vars_after);
    assert_eq!(dc.clauses.len(), clauses_after);
}

#[test]
fn batch_encoding_shares_structure() {
    let mut tm = TermManager::new();
    let mut dc = DagCnf::new();
    let mut memo = CnfMemo::new();
    let x = tm.new_var(Sort::Bv(1));
    let y = tm.new_var(Sort::Bv(1));
    let conj = tm.new_op_term(Op::And, &vec![x, y]);
    let disj = tm.new_op_term(Op::Or, &vec![conj, x]);
    let ls = cnf_encode_terms(&vec![conj, disj], &tm, &mut dc, &mut memo);
    assert_eq!(ls.len(), 2);
    // x, y, and-gate, or-gate: four variables in total, shared
    assert_eq!(dc.max_var, 4);
    // encoding the batch again changes nothing
    let clauses_after = dc.clauses.len();
    let ls2 = cnf_encode_terms(&vec![conj, disj], &tm, &mut dc, &mut memo);
    assert_eq!(ls, ls2);
    assert_eq!(dc.max_var, 4);
    assert_eq!(dc.clauses.len(), clauses_after);
}

#[test]
fn literal_operations() {
    let l = Lit::new(5, true);
    assert_eq!(l.var(), 5);
    assert!(l.positive());
    let n = l.negate();
    assert_eq!(n.var(), 5);
    assert!(!n.positive());
    assert_eq!(n.negate(), l);
}

/// Every allocating gate receives a fresh positive variable: above the
/// operand literals' variables and distinct from every variable handed
/// out before.
#[test]
fn gate_literal_is_fresh() {
    for op in [Op::And, Op::Or, Op::Xor, Op::Eq] {
        let mut tm = TermManager::new();
        let mut dc = DagCnf::new();
        let mut memo = CnfMemo::new();
        let a = tm.new_var(Sort::Bv(1));
        let b = tm.new_var(Sort::Bv(1));
        let g = tm.new_op_term(op, &vec![a, b]);
        let la = a.cnf_encode(&tm, &mut dc, &mut memo);
        let lb = b.cnf_encode(&tm, &mut dc, &mut memo);
        let before = dc.max_var;
        let lg = g.cnf_encode(&tm, &mut dc, &mut memo);
        assert!(lg.code % 2 == 0);
        assert!(lg.code / 2 > before);
        assert!(lg.code / 2 > la.code / 2);
        assert!(lg.code / 2 > lb.code / 2);
    }
}
