//! The bitblasting pass: agreement with the direct semantics on
//! constants (checked exhaustively on small widths), structural shape,
//! and memoization transparency.

use termgraph::bitblast::{bitblast_terms, BitblastMemo};
use termgraph::{ConstTerm, Op, Sort, Term, TermManager, TermType};

/// Evaluates a term built over constants only (no variables reachable).
fn evc(tm: &TermManager, t: Term) -> Vec<bool> {
    match &tm.nodes[t.id].ty {
        TermType::Const(ConstTerm::BV(b)) => b.c.clone(),
        TermType::Const(ConstTerm::Array(ar)) => {
            let mut out = Vec::new();
            for row in &ar.c {
                out.extend_from_slice(&row.c);
            }
            out
        }
        TermType::Var(_) => panic!("variable reached constant evaluation"),
        TermType::Op(ot) => {
            let args: Vec<Vec<bool>> = ot.terms.iter().map(|s| evc(tm, *s)).collect();
            apply(ot.op, &args)
        }
    }
}

/// Evaluates a term whose variables take their bits from `env`, indexed
/// by variable id.
fn evv(tm: &TermManager, t: Term, env: &Vec<Vec<bool>>) -> Vec<bool> {
    match &tm.nodes[t.id].ty {
        TermType::Const(ConstTerm::BV(b)) => b.c.clone(),
        TermType::Const(ConstTerm::Array(ar)) => {
            let mut out = Vec::new();
            for row in &ar.c {
                out.extend_from_slice(&row.c);
            }
            out
        }
        TermType::Var(v) => env[*v as usize].clone(),
        TermType::Op(ot) => {
            let args: Vec<Vec<bool>> = ot.terms.iter().map(|s| evv(tm, *s, env)).collect();
            apply(ot.op, &args)
        }
    }
}

fn to_u64(bits: &[bool]) -> u64 {
    let mut v = 0u64;
    for (i, b) in bits.iter().enumerate() {
        if *b {
            v |= 1u64 << i;
        }
    }
    v
}

fn from_u64(v: u64, n: usize) -> Vec<bool> {
    (0..n).map(|i| (v >> i) & 1 == 1).collect()
}

fn to_i64(bits: &[bool]) -> i64 {
    let n = bits.len();
    let u = to_u64(bits) as i64;
    if bits[n - 1] {
        u - (1i64 << n)
    } else {
        u
    }
}

fn apply(op: Op, args: &[Vec<bool>]) -> Vec<bool> {
    let x = &args[0];
    match op {
        Op::Not => x.iter().map(|b| !b).collect(),
        Op::And => x.iter().zip(&args[1]).map(|(a, b)| *a && *b).collect(),
        Op::Or => x.iter().zip(&args[1]).map(|(a, b)| *a || *b).collect(),
        Op::Xor => x.iter().zip(&args[1]).map(|(a, b)| *a != *b).collect(),
        Op::Eq => vec![*x == args[1]],
        Op::Ult => vec![to_u64(x) < to_u64(&args[1])],
        Op::Slt => vec![to_i64(x) < to_i64(&args[1])],
        Op::Sll => {
            let sh = to_u64(&args[1]) as usize;
            (0..x.len()).map(|i| i >= sh && x[i - sh]).collect()
        }
        Op::Srl => {
            let sh = to_u64(&args[1]) as usize;
            (0..x.len()).map(|i| i + sh < x.len() && x[i + sh]).collect()
        }
        Op::Sra => {
            let sh = to_u64(&args[1]) as usize;
            (0..x.len())
                .map(|i| {
                    if i + sh < x.len() {
                        x[i + sh]
                    } else {
                        x[x.len() - 1]
                    }
                })
                .collect()
        }
        Op::Ite => {
            if args[0][0] {
                args[1].clone()
            } else {
                args[2].clone()
            }
        }
        Op::Concat => {
            let mut out = args[1].clone();
            out.extend_from_slice(x);
            out
        }
        Op::Sext => {
            let mut out = x.clone();
            for _ in 0..args[1].len() {
                out.push(x[x.len() - 1]);
            }
            out
        }
        Op::Slice => {
            let hi = args[1].len();
            let lo = args[2].len();
            x[lo..=hi].to_vec()
        }
        Op::Redxor => vec![x.iter().filter(|b| **b).count() % 2 == 1],
        Op::Add => {
            let n = x.len();
            from_u64(to_u64(x).wrapping_add(to_u64(&args[1])), n)
        }
        Op::Mul => {
            let n = x.len();
            from_u64(to_u64(x).wrapping_mul(to_u64(&args[1])), n)
        }
        Op::Read => {
            let i = to_u64(&args[1]) as usize;
            let e = x.len() >> args[1].len();
            x[i * e..(i + 1) * e].to_vec()
        }
        Op::Write => {
            let i = to_u64(&args[1]) as usize;
            let e = args[2].len();
            let mut out = x.clone();
            out[i * e..(i + 1) * e].copy_from_slice(&args[2]);
            out
        }
        _ => panic!("non-core operator reached evaluation"),
    }
}

#[test]
fn constants_round_trip() {
    for w in 1..=6usize {
        for v in 0..(1u64 << w) {
            let mut tm = TermManager::new();
            let mut memo = BitblastMemo::new();
            let c = tm.bv_const(&from_u64(v, w));
            let bits = c.bitblast(&mut tm, &mut memo);
            assert_eq!(bits.len(), w);
            let mut reassembled = Vec::new();
            for b in &bits {
                let bv = evc(&tm, *b);
                assert_eq!(bv.len(), 1);
                reassembled.push(bv[0]);
            }
            assert_eq!(reassembled, from_u64(v, w));
        }
    }
}

/// Bitblasts `op` applied to two constants and evaluates the resulting
/// boolean terms, comparing against native integer arithmetic, for all
/// assignments of widths 1 through 4.
fn exhaustive_blast_binary(op: Op) {
    for w in 1..=4usize {
        for xv in 0..(1u64 << w) {
            for yv in 0..(1u64 << w) {
                let mut tm = TermManager::new();
                let mut memo = BitblastMemo::new();
                let x = tm.bv_const(&from_u64(xv, w));
                let y = tm.bv_const(&from_u64(yv, w));
                let t = tm.new_op_term(op, &vec![x, y]);
                let expect = evc(&tm, t);
                let bits = t.bitblast(&mut tm, &mut memo);
                assert_eq!(bits.len(), expect.len(), "{:?} w{} {} {}", op, w, xv, yv);
                let got: Vec<bool> = bits
                    .iter()
                    .map(|b| {
                        let bv = evc(&tm, *b);
                        assert_eq!(bv.len(), 1);
                        bv[0]
                    })
                    .collect();
                assert_eq!(got, expect, "{:?} w{} x {} y {}", op, w, xv, yv);
            }
        }
    }
}

#[test]
fn blast_add_agrees_with_arithmetic() {
    exhaustive_blast_binary(Op::Add);
}

#[test]
fn blast_mul_agrees_with_arithmetic() {
    exhaustive_blast_binary(Op::Mul);
}

#[test]
fn blast_ult_agrees_with_arithmetic() {
    exhaustive_blast_binary(Op::Ult);
}

#[test]
fn blast_slt_agrees_with_arithmetic() {
    exhaustive_blast_binary(Op::Slt);
}

#[test]
fn blast_sll_agrees_with_arithmetic() {
    exhaustive_blast_binary(Op::Sll);
}

#[test]
fn blast_srl_agrees_with_arithmetic() {
    exhaustive_blast_binary(Op::Srl);
}

#[test]
fn blast_sra_agrees_with_arithmetic() {
    exhaustive_blast_binary(Op::Sra);
}

#[test]
fn blast_bitwise_and_compare_ops() {
    exhaustive_blast_binary(Op::And);
    exhaustive_blast_binary(Op::Or);
    exhaustive_blast_binary(Op::Xor);
    exhaustive_blast_binary(Op::Eq);
    exhaustive_blast_binary(Op::Concat);
}

#[test]
fn scenario_ult_one_lt_two() {
    // 2-bit, LSB first: [1,0] is 1, [0,1] is 2, so 1 < 2 holds
    let mut tm = TermManager::new();
    let mut memo = BitblastMemo::new();
    let one = tm.bv_const(&[true, false]);
    let two = tm.bv_const(&[false, true]);
    let lt = tm.new_op_term(Op::Ult, &vec![one, two]);
    let bits = lt.bitblast(&mut tm, &mut memo);
    assert_eq!(bits.len(), 1);
    assert_eq!(evc(&tm, bits[0]), vec![true]);
}

#[test]
fn scenario_shift_by_full_width_is_zero() {
    // value 1 shifted left by 4 in a 4-bit vector vanishes
    let mut tm = TermManager::new();
    let mut memo = BitblastMemo::new();
    let one = tm.bv_const(&from_u64(1, 4));
    let four = tm.bv_const(&from_u64(4, 4));
    let sh = tm.new_op_term(Op::Sll, &vec![one, four]);
    let bits = sh.bitblast(&mut tm, &mut memo);
    assert_eq!(bits.len(), 4);
    for b in &bits {
        assert_eq!(evc(&tm, *b), vec![false]);
    }
}

#[test]
fn blast_variables_allocate_fresh_booleans() {
    let mut tm = TermManager::new();
    let mut memo = BitblastMemo::new();
    let x = tm.new_var(Sort::Bv(3));
    let bits = x.bitblast(&mut tm, &mut memo);
    assert_eq!(bits.len(), 3);
    for b in &bits {
        assert!(matches!(tm.nodes[b.id].ty, TermType::Var(_)));
        assert_eq!(tm.nodes[b.id].sort, Sort::Bv(1));
    }
}

#[test]
fn memoization_returns_cached_bits_untouched() {
    let mut tm = TermManager::new();
    let mut memo = BitblastMemo::new();
    let x = tm.new_var(Sort::Bv(4));
    let y = tm.new_var(Sort::Bv(4));
    let s = tm.new_op_term(Op::Add, &vec![x, y]);
    let first = s.bitblast(&mut tm, &mut memo);
    let nodes_after = tm.size();
    let vars_after = tm.num_var;
    let second = s.bitblast(&mut tm, &mut memo);
    // the identical cached result, with no nodes or variables created
    assert_eq!(first, second);
    assert_eq!(tm.size(), nodes_after);
    assert_eq!(tm.num_var, vars_after);
}

#[test]
fn shared_structure_blasted_once() {
    let mut tm = TermManager::new();
    let mut memo = BitblastMemo::new();
    let x = tm.new_var(Sort::Bv(2));
    let a = tm.new_op_term(Op::Add, &vec![x, x]);
    let b = tm.new_op_term(Op::Mul, &vec![x, x]);
    let outs = bitblast_terms(&vec![a, b], &mut tm, &mut memo);
    assert_eq!(outs.len(), 2);
    // both lowerings see the same fresh booleans for x: beyond the
    // variable x itself, only its two fresh boolean bits were allocated
    assert_eq!(tm.num_var, 1 + 2);
}

#[test]
fn array_read_write_blast() {
    // an array of 4 elements of 2 bits flattens to 8 bits; lowering the
    // array variable allocates the fresh boolean variables with ids
    // following the array variable itself, so an environment for them
    // spells out the array contents
    let flat = [true, false, false, true, true, true, false, false];
    for idx in 0..4usize {
        let mut tm = TermManager::new();
        let mut memo = BitblastMemo::new();
        let av = tm.new_var(Sort::Array(2, 2));
        let i = tm.bv_const(&from_u64(idx as u64, 2));
        let rd = tm.new_op_term(Op::Read, &vec![av, i]);
        let bits = rd.bitblast(&mut tm, &mut memo);
        assert_eq!(bits.len(), 2);
        let mut env: Vec<Vec<bool>> = vec![Vec::new()];
        for b in flat.iter() {
            env.push(vec![*b]);
        }
        let got: Vec<bool> = bits.iter().map(|b| {
            let v = evv(&tm, *b, &env);
            assert_eq!(v.len(), 1);
            v[0]
        }).collect();
        assert_eq!(got, flat[2 * idx..2 * idx + 2].to_vec(), "read at {}", idx);

        let wv = tm.bv_const(&[true, false]);
        let wr = tm.new_op_term(Op::Write, &vec![av, i, wv]);
        let wbits = wr.bitblast(&mut tm, &mut memo);
        assert_eq!(wbits.len(), 8);
        let wgot: Vec<bool> = wbits.iter().map(|b| {
            let v = evv(&tm, *b, &env);
            assert_eq!(v.len(), 1);
            v[0]
        }).collect();
        let mut expect = flat.to_vec();
        expect[2 * idx] = true;
        expect[2 * idx + 1] = false;
        assert_eq!(wgot, expect, "write at {}", idx);
    }
}

#[test]
fn slice_and_sext_blast() {
    let mut tm = TermManager::new();
    let mut memo = BitblastMemo::new();
    // slice bits 1..=2 out of a 4-bit constant: high index and low
    // index are given by the widths of the second and third operands
    let x = tm.bv_const(&[true, false, true, false]);
    let hi = tm.bv_const(&from_u64(0, 2));
    let lo = tm.bv_const(&from_u64(0, 1));
    let sl = tm.new_op_term(Op::Slice, &vec![x, hi, lo]);
    let bits = sl.bitblast(&mut tm, &mut memo);
    assert_eq!(bits.len(), 2);
    assert_eq!(evc(&tm, bits[0]), vec![false]);
    assert_eq!(evc(&tm, bits[1]), vec![true]);

    let s = tm.bv_const(&[false, true]);
    let ext = tm.bv_const(&from_u64(0, 2));
    let sx = tm.new_op_term(Op::Sext, &vec![s, ext]);
    let sbits = sx.bitblast(&mut tm, &mut memo);
    assert_eq!(sbits.len(), 4);
    let vals: Vec<bool> = sbits.iter().map(|b| evc(&tm, *b)[0]).collect();
    assert_eq!(vals, vec![false, true, true, true]);
}

#[test]
fn redxor_blast() {
    for v in 0..16u64 {
        let mut tm = TermManager::new();
        let mut memo = BitblastMemo::new();
        let x = tm.bv_const(&from_u64(v, 4));
        let r = tm.new_op_term(Op::Redxor, &vec![x]);
        let bits = r.bitblast(&mut tm, &mut memo);
        assert_eq!(bits.len(), 1);
        assert_eq!(evc(&tm, bits[0]), vec![v.count_ones() % 2 == 1]);
    }
}

#[test]
fn get_shift_size_is_ceil_log2() {
    assert_eq!(termgraph::bitblast::get_shift_size(1), 0);
    assert_eq!(termgraph::bitblast::get_shift_size(2), 1);
    assert_eq!(termgraph::bitblast::get_shift_size(3), 2);
    assert_eq!(termgraph::bitblast::get_shift_size(4), 2);
    assert_eq!(termgraph::bitblast::get_shift_size(5), 3);
    assert_eq!(termgraph::bitblast::get_shift_size(8), 3);
    assert_eq!(termgraph::bitblast::get_shift_size(9), 4);
}
