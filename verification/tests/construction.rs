//! Term construction: hash-consing, the canonicalizing factory, and the
//! algebraic simplifier, checked against a direct evaluator.

use termgraph::{ConstTerm, Op, Sort, Term, TermManager, TermType};

/// Evaluates a term over the flattened-bit semantics, LSB first.
/// Variables take their bits from `env`, indexed by variable id.
fn ev(tm: &TermManager, t: Term, env: &Vec<Vec<bool>>) -> Vec<bool> {
    match &tm.nodes[t.id].ty {
        TermType::Const(ConstTerm::BV(b)) => b.c.clone(),
        TermType::Const(ConstTerm::Array(ar)) => {
            let mut out = Vec::new();
            for row in &ar.c {
                out.extend_from_slice(&row.c);
            }
            out
        }
        TermType::Var(v) => env[*v as usize].clone(),
        TermType::Op(ot) => {
            let args: Vec<Vec<bool>> = ot.terms.iter().map(|s| ev(tm, *s, env)).collect();
            apply(ot.op, &args)
        }
    }
}

fn to_u64(bits: &[bool]) -> u64 {
    let mut v = 0u64;
    for (i, b) in bits.iter().enumerate() {
        if *b {
            v |= 1u64 << i;
        }
    }
    v
}

fn from_u64(v: u64, n: usize) -> Vec<bool> {
    (0..n).map(|i| (v >> i) & 1 == 1).collect()
}

fn to_i64(bits: &[bool]) -> i64 {
    let n = bits.len();
    let u = to_u64(bits) as i64;
    if bits[n - 1] {
        u - (1i64 << n)
    } else {
        u
    }
}

fn apply(op: Op, args: &[Vec<bool>]) -> Vec<bool> {
    let x = &args[0];
    match op {
        Op::Not => x.iter().map(|b| !b).collect(),
        Op::And => x.iter().zip(&args[1]).map(|(a, b)| *a && *b).collect(),
        Op::Or => x.iter().zip(&args[1]).map(|(a, b)| *a || *b).collect(),
        Op::Xor => x.iter().zip(&args[1]).map(|(a, b)| *a != *b).collect(),
        Op::Eq => vec![*x == args[1]],
        Op::Ult => vec![to_u64(x) < to_u64(&args[1])],
        Op::Slt => vec![to_i64(x) < to_i64(&args[1])],
        Op::Sll => {
            let sh = to_u64(&args[1]) as usize;
            (0..x.len())
                .map(|i| i >= sh && sh <= i && x[i - sh])
                .collect()
        }
        Op::Srl => {
            let sh = to_u64(&args[1]) as usize;
            (0..x.len()).map(|i| i + sh < x.len() && x[i + sh]).collect()
        }
        Op::Sra => {
            let sh = to_u64(&args[1]) as usize;
            (0..x.len())
                .map(|i| {
                    if i + sh < x.len() {
                        x[i + sh]
                    } else {
                        x[x.len() - 1]
                    }
                })
                .collect()
        }
        Op::Ite => {
            if args[0][0] {
                args[1].clone()
            } else {
                args[2].clone()
            }
        }
        Op::Concat => {
            let mut out = args[1].clone();
            out.extend_from_slice(x);
            out
        }
        Op::Sext => {
            let mut out = x.clone();
            for _ in 0..args[1].len() {
                out.push(x[x.len() - 1]);
            }
            out
        }
        Op::Slice => {
            let hi = args[1].len();
            let lo = args[2].len();
            x[lo..=hi].to_vec()
        }
        Op::Redxor => vec![x.iter().filter(|b| **b).count() % 2 == 1],
        Op::Add => {
            let n = x.len();
            from_u64(to_u64(x).wrapping_add(to_u64(&args[1])), n)
        }
        Op::Mul => {
            let n = x.len();
            from_u64(to_u64(x).wrapping_mul(to_u64(&args[1])), n)
        }
        Op::Read => {
            let i = to_u64(&args[1]) as usize;
            let e = x.len() >> args[1].len();
            x[i * e..(i + 1) * e].to_vec()
        }
        Op::Write => {
            let i = to_u64(&args[1]) as usize;
            let e = args[2].len();
            let mut out = x.clone();
            out[i * e..(i + 1) * e].copy_from_slice(&args[2]);
            out
        }
        _ => panic!("non-core operator reached evaluation"),
    }
}

#[test]
fn interning_constants() {
    let mut tm = TermManager::new();
    let a = tm.bv_const(&[true, false, true]);
    let b = tm.bv_const(&[true, false, true]);
    assert_eq!(a, b);
    let c = tm.bv_const(&[true, false, false]);
    assert_ne!(a, c);
    assert_eq!(tm.size(), 2);
}

#[test]
fn interning_op_terms() {
    let mut tm = TermManager::new();
    let x = tm.new_var(Sort::Bv(4));
    let y = tm.new_var(Sort::Bv(4));
    let s1 = tm.new_op_term(Op::Add, &vec![x, y]);
    let before = tm.size();
    let s2 = tm.new_op_term(Op::Add, &vec![x, y]);
    assert_eq!(s1, s2);
    assert_eq!(tm.size(), before);
    // operand order matters structurally
    let s3 = tm.new_op_term(Op::Add, &vec![y, x]);
    assert_ne!(s1, s3);
}

#[test]
fn fresh_variables_never_alias() {
    let mut tm = TermManager::new();
    let x = tm.new_var(Sort::Bv(2));
    let y = tm.new_var(Sort::Bv(2));
    assert_ne!(x, y);
}

#[test]
fn scenario_and_of_bool_constants() {
    let mut tm = TermManager::new();
    let t = tm.bool_const(true);
    let f = tm.bool_const(false);
    let before = tm.size();
    let r = tm.new_op_term(Op::And, &vec![t, f]);
    // simplifies at construction to the false constant: no node created
    assert_eq!(r, f);
    assert_eq!(tm.size(), before);
}

#[test]
fn scenario_double_negation() {
    let mut tm = TermManager::new();
    let x = tm.new_var(Sort::Bv(1));
    let nx = tm.new_op_term(Op::Not, &vec![x]);
    let nnx = tm.new_op_term(Op::Not, &vec![nx]);
    assert_eq!(nnx, x);
}

#[test]
fn scenario_xor_self_is_zero() {
    let mut tm = TermManager::new();
    let x = tm.new_var(Sort::Bv(4));
    let r = tm.new_op_term(Op::Xor, &vec![x, x]);
    let zero = tm.bv_const_zero(4);
    assert_eq!(r, zero);
}

#[test]
fn scenario_concat_constants_folds() {
    let mut tm = TermManager::new();
    let hi = tm.bv_const(&[false, true, false, true]);
    let lo = tm.bv_const(&[true, false, true, false]);
    let r = tm.new_op_term(Op::Concat, &vec![hi, lo]);
    let expect = tm.bv_const(&[true, false, true, false, false, true, false, true]);
    assert_eq!(r, expect);
}

#[test]
fn normalization_stores_no_noncore_node() {
    let mut tm = TermManager::new();
    let x = tm.new_var(Sort::Bv(3));
    let y = tm.new_var(Sort::Bv(3));
    let _ = tm.new_op_term(Op::Neq, &vec![x, y]);
    let _ = tm.new_op_term(Op::Neg, &vec![x]);
    let _ = tm.new_op_term(Op::Redor, &vec![x]);
    let _ = tm.new_op_term(Op::Ugte, &vec![x, y]);
    for node in &tm.nodes {
        if let TermType::Op(ot) = &node.ty {
            assert!(
                !matches!(ot.op, Op::Neq | Op::Neg | Op::Redor | Op::Uext | Op::Ugte),
                "a non-core operator node was stored"
            );
        }
    }
}

/// Exhaustively checks that constructing `op` over all assignments of
/// the given widths agrees with the direct semantics, whatever the
/// simplifier did.
fn exhaustive_binary(op: Op, width: usize) {
    for xv in 0..(1u64 << width) {
        for yv in 0..(1u64 << width) {
            let mut tm = TermManager::new();
            let x = tm.new_var(Sort::Bv(width));
            let y = tm.new_var(Sort::Bv(width));
            let r = tm.new_op_term(op, &vec![x, y]);
            let env = vec![from_u64(xv, width), from_u64(yv, width)];
            let got = ev(&tm, r, &env);
            let expect = apply(op, &[from_u64(xv, width), from_u64(yv, width)]);
            assert_eq!(got, expect, "operator {:?} width {} x {} y {}", op, width, xv, yv);
        }
    }
}

/// The same check with one operand a constant, so the constant rules of
/// the simplifier fire.
fn exhaustive_binary_const(op: Op, width: usize) {
    for xv in 0..(1u64 << width) {
        for yv in 0..(1u64 << width) {
            let mut tm = TermManager::new();
            let x = tm.bv_const(&from_u64(xv, width));
            let y = tm.new_var(Sort::Bv(width));
            let r = tm.new_op_term(op, &vec![x, y]);
            let env = vec![from_u64(yv, width)];
            let got = ev(&tm, r, &env);
            let expect = apply(op, &[from_u64(xv, width), from_u64(yv, width)]);
            assert_eq!(got, expect, "{:?} w{} const {} var {}", op, width, xv, yv);
            // and with the constant on the right
            let mut tm = TermManager::new();
            let y2 = tm.new_var(Sort::Bv(width));
            let x2 = tm.bv_const(&from_u64(xv, width));
            let r2 = tm.new_op_term(op, &vec![y2, x2]);
            let env2 = vec![from_u64(yv, width)];
            let got2 = ev(&tm, r2, &env2);
            let expect2 = apply(op, &[from_u64(yv, width), from_u64(xv, width)]);
            assert_eq!(got2, expect2, "{:?} w{} var {} const {}", op, width, yv, xv);
        }
    }
}

#[test]
fn simplifier_sound_bitwise() {
    for w in 1..=4 {
        exhaustive_binary(Op::And, w);
        exhaustive_binary(Op::Or, w);
        exhaustive_binary(Op::Xor, w);
        exhaustive_binary(Op::Eq, w);
        exhaustive_binary(Op::Ult, w);
        exhaustive_binary_const(Op::And, w);
        exhaustive_binary_const(Op::Or, w);
        exhaustive_binary_const(Op::Xor, w);
        exhaustive_binary_const(Op::Eq, w);
        exhaustive_binary_const(Op::Ult, w);
    }
}

#[test]
fn simplifier_sound_structural_rules() {
    // rules over shared sub-structure: (a & b) & (a & c), De Morgan,
    // distribution, chained or, ite forms
    for bits in 0..(1u64 << 3) {
        let env = vec![
            from_u64(bits & 1, 1),
            from_u64((bits >> 1) & 1, 1),
            from_u64((bits >> 2) & 1, 1),
        ];
        let mut tm = TermManager::new();
        let a = tm.new_var(Sort::Bv(1));
        let b = tm.new_var(Sort::Bv(1));
        let c = tm.new_var(Sort::Bv(1));
        let ab = tm.new_op_term(Op::And, &vec![a, b]);
        let ac = tm.new_op_term(Op::And, &vec![a, c]);
        let both = tm.new_op_term(Op::And, &vec![ab, ac]);
        let got = ev(&tm, both, &env);
        let expect = vec![env[0][0] && env[1][0] && env[2][0]];
        assert_eq!(got, expect);

        let na = tm.new_op_term(Op::Not, &vec![a]);
        let nb = tm.new_op_term(Op::Not, &vec![b]);
        let de_morgan = tm.new_op_term(Op::And, &vec![na, nb]);
        assert_eq!(ev(&tm, de_morgan, &env), vec![!env[0][0] && !env[1][0]]);

        let ob = tm.new_op_term(Op::Or, &vec![a, b]);
        let oc = tm.new_op_term(Op::Or, &vec![a, c]);
        let dist = tm.new_op_term(Op::And, &vec![ob, oc]);
        assert_eq!(
            ev(&tm, dist, &env),
            vec![(env[0][0] || env[1][0]) && (env[0][0] || env[2][0])]
        );

        let ite = tm.new_op_term(Op::Ite, &vec![a, b, c]);
        let with_cond = tm.new_op_term(Op::Or, &vec![ite, a]);
        assert_eq!(
            ev(&tm, with_cond, &env),
            vec![(if env[0][0] { env[1][0] } else { env[2][0] }) || env[0][0]]
        );

        let t = tm.bool_const(true);
        let ite_true_else = tm.new_op_term(Op::Ite, &vec![a, b, t]);
        assert_eq!(
            ev(&tm, ite_true_else, &env),
            vec![if env[0][0] { env[1][0] } else { true }]
        );
    }
}

#[test]
fn simplifier_ult_boundaries() {
    for w in 1..=4usize {
        for yv in 0..(1u64 << w) {
            let ones = (1u64 << w) - 1;
            let mut tm = TermManager::new();
            let y = tm.new_var(Sort::Bv(w));
            let zero = tm.bv_const_zero(w);
            let onesc = tm.bv_const_ones(w);
            let env = vec![from_u64(yv, w)];
            let zero_lt = tm.new_op_term(Op::Ult, &vec![zero, y]);
            assert_eq!(ev(&tm, zero_lt, &env), vec![0 < yv]);
            let lt_zero = tm.new_op_term(Op::Ult, &vec![y, zero]);
            assert_eq!(ev(&tm, lt_zero, &env), vec![false]);
            let ones_lt = tm.new_op_term(Op::Ult, &vec![onesc, y]);
            assert_eq!(ev(&tm, ones_lt, &env), vec![false]);
            let lt_ones = tm.new_op_term(Op::Ult, &vec![y, onesc]);
            assert_eq!(ev(&tm, lt_ones, &env), vec![yv < ones]);
        }
    }
}

#[test]
fn noncore_operators_mean_their_rewrites() {
    for w in 1..=3usize {
        for xv in 0..(1u64 << w) {
            for yv in 0..(1u64 << w) {
                let mask = (1u64 << w) - 1;
                let mut tm = TermManager::new();
                let x = tm.new_var(Sort::Bv(w));
                let y = tm.new_var(Sort::Bv(w));
                let env = vec![from_u64(xv, w), from_u64(yv, w)];

                let neq = tm.new_op_term(Op::Neq, &vec![x, y]);
                assert_eq!(ev(&tm, neq, &env), vec![xv != yv]);

                let neg = tm.new_op_term(Op::Neg, &vec![x]);
                assert_eq!(ev(&tm, neg, &env), from_u64(xv.wrapping_neg() & mask, w));

                let redor = tm.new_op_term(Op::Redor, &vec![x]);
                assert_eq!(ev(&tm, redor, &env), vec![xv != 0]);

                let ugte = tm.new_op_term(Op::Ugte, &vec![x, y]);
                assert_eq!(ev(&tm, ugte, &env), vec![xv >= yv]);

                let uext = tm.new_op_term(Op::Uext, &vec![x, y]);
                let mut expect = from_u64(xv, w);
                expect.extend_from_slice(&from_u64(yv, w));
                assert_eq!(ev(&tm, uext, &env), expect);
            }
        }
    }
}

#[test]
fn garbage_collect_is_inert() {
    let mut tm = TermManager::new();
    let x = tm.new_var(Sort::Bv(2));
    let y = tm.new_var(Sort::Bv(2));
    let _ = tm.new_op_term(Op::Add, &vec![x, y]);
    let before = tm.size();
    tm.garbage_collect();
    assert_eq!(tm.size(), before);
}

#[test]
fn term_shorthand_builders() {
    let mut tm = TermManager::new();
    let x = tm.new_var(Sort::Bv(2));
    let y = tm.new_var(Sort::Bv(2));
    let via_method = x.op1(&mut tm, Op::And, &y);
    let direct = tm.new_op_term(Op::And, &vec![x, y]);
    assert_eq!(via_method, direct);
    assert_eq!(x.bv_len(&tm), 2);
    assert_eq!(x.sort(&tm), Sort::Bv(2));
    let zero = x.bv_const_zero(&mut tm);
    assert_eq!(zero, tm.bv_const_zero(2));
    let one = x.bv_const_one(&mut tm);
    assert_eq!(one, tm.bv_const_one(2));
    let ones = x.bv_const_ones(&mut tm);
    assert_eq!(ones, tm.bv_const_ones(2));
}

#[test]
fn fold_and_elementwise_builders() {
    let mut tm = TermManager::new();
    let a = tm.new_var(Sort::Bv(1));
    let b = tm.new_var(Sort::Bv(1));
    let c = tm.new_var(Sort::Bv(1));
    let folded = tm.new_op_terms_fold(Op::Xor, &vec![a, b, c]);
    for bits in 0..8u64 {
        let env = vec![
            from_u64(bits & 1, 1),
            from_u64((bits >> 1) & 1, 1),
            from_u64((bits >> 2) & 1, 1),
        ];
        let expect = (bits.count_ones() % 2) == 1;
        assert_eq!(ev(&tm, folded, &env), vec![expect]);
    }
    let ew = tm.new_op_terms_elementwise(Op::And, &vec![a, b], &vec![b, c]);
    assert_eq!(ew.len(), 2);
    for bits in 0..8u64 {
        let env = vec![
            from_u64(bits & 1, 1),
            from_u64((bits >> 1) & 1, 1),
            from_u64((bits >> 2) & 1, 1),
        ];
        assert_eq!(ev(&tm, ew[0], &env), vec![env[0][0] && env[1][0]]);
        assert_eq!(ev(&tm, ew[1], &env), vec![env[1][0] && env[2][0]]);
    }
}

#[test]
fn term_vec_helpers() {
    let mut tm = TermManager::new();
    let a = tm.new_var(Sort::Bv(1));
    let b = tm.new_var(Sort::Bv(1));
    let mut tv = termgraph::TermVec::new();
    tv.push(a);
    tv.push(b);
    assert_eq!(tv.len(), 2);
    assert_eq!(tv.index(0), a);
    let folded = tv.fold(&mut tm, Op::Or);
    for bits in 0..4u64 {
        let env = vec![from_u64(bits & 1, 1), from_u64((bits >> 1) & 1, 1)];
        assert_eq!(ev(&tm, folded, &env), vec![env[0][0] || env[1][0]]);
    }
    let last = tv.item();
    assert_eq!(last, b);
    assert_eq!(tv.len(), 1);
}

#[test]
fn operator_lookup_by_name() {
    let op_from_name = termgraph::op::op_from_name;
    assert_eq!(op_from_name("and"), Some(Op::And));
    assert_eq!(op_from_name("AND"), Some(Op::And));
    assert_eq!(op_from_name("Sll"), Some(Op::Sll));
    assert_eq!(op_from_name("concat"), Some(Op::Concat));
    assert_eq!(op_from_name("redxor"), Some(Op::Redxor));
    assert_eq!(op_from_name("redor"), Some(Op::Redor));
    assert_eq!(op_from_name("uGtE"), Some(Op::Ugte));
    assert_eq!(op_from_name("write"), Some(Op::Write));
    assert_eq!(op_from_name("sub"), None);
    assert_eq!(op_from_name(""), None);
}
