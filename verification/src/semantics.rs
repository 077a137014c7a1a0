//! The mathematical meaning of every core operator, stated over sequences
//! of booleans (bit 0 is the least significant bit). Contracts in the rest
//! of the crate speak in these terms.

use crate::op::Op;
use vstd::arithmetic::power2::pow2;
use vstd::prelude::*;

verus! {

/// The unsigned value of a bit pattern, LSB first.
pub open spec fn to_nat(s: Seq<bool>) -> nat
    decreases s.len(),
{
    if s.len() == 0 {
        0
    } else {
        (if s[0] {
            1nat
        } else {
            0nat
        }) + 2 * to_nat(s.skip(1))
    }
}

/// The `n`-bit pattern of `v % 2^n`, LSB first.
pub open spec fn nat_to_bits(v: nat, n: nat) -> Seq<bool>
    decreases n,
{
    if n == 0 {
        Seq::empty()
    } else {
        seq![v % 2 == 1] + nat_to_bits(v / 2, (n - 1) as nat)
    }
}

/// The two's-complement value of a non-empty bit pattern.
pub open spec fn to_int_signed(s: Seq<bool>) -> int {
    to_nat(s.drop_last()) - if s.last() {
        pow2((s.len() - 1) as nat) as int
    } else {
        0
    }
}

/// XOR reduction of all bits.
pub open spec fn parity(s: Seq<bool>) -> bool
    decreases s.len(),
{
    if s.len() == 0 {
        false
    } else {
        parity(s.drop_last()) != s.last()
    }
}

pub open spec fn bv_not(x: Seq<bool>) -> Seq<bool> {
    Seq::new(x.len(), |i: int| !x[i])
}

pub open spec fn bv_and(x: Seq<bool>, y: Seq<bool>) -> Seq<bool> {
    Seq::new(x.len(), |i: int| x[i] && y[i])
}

pub open spec fn bv_or(x: Seq<bool>, y: Seq<bool>) -> Seq<bool> {
    Seq::new(x.len(), |i: int| x[i] || y[i])
}

pub open spec fn bv_xor(x: Seq<bool>, y: Seq<bool>) -> Seq<bool> {
    Seq::new(x.len(), |i: int| x[i] != y[i])
}

/// Equality of the full (flattened) bit patterns, as a 1-bit result.
pub open spec fn bv_eq(x: Seq<bool>, y: Seq<bool>) -> Seq<bool> {
    seq![x =~= y]
}

pub open spec fn bv_ult(x: Seq<bool>, y: Seq<bool>) -> Seq<bool> {
    seq![to_nat(x) < to_nat(y)]
}

pub open spec fn bv_slt(x: Seq<bool>, y: Seq<bool>) -> Seq<bool> {
    seq![to_int_signed(x) < to_int_signed(y)]
}

/// Logical shift left by the unsigned value of `y`; bits shifted past the
/// width vanish, and a shift amount at or above the width gives zero.
pub open spec fn bv_sll(x: Seq<bool>, y: Seq<bool>) -> Seq<bool> {
    let sh = to_nat(y);
    Seq::new(x.len(), |i: int| sh <= i && x[i - sh])
}

/// Logical shift right by the unsigned value of `y`.
pub open spec fn bv_srl(x: Seq<bool>, y: Seq<bool>) -> Seq<bool> {
    let sh = to_nat(y);
    Seq::new(x.len(), |i: int| i + sh < x.len() && x[i + sh])
}

/// Arithmetic shift right: vacated positions replicate the sign bit.
pub open spec fn bv_sra(x: Seq<bool>, y: Seq<bool>) -> Seq<bool> {
    let sh = to_nat(y);
    Seq::new(
        x.len(),
        |i: int|
            if i + sh < x.len() {
                x[i + sh]
            } else {
                x.last()
            },
    )
}

pub open spec fn bv_ite(c: Seq<bool>, t: Seq<bool>, e: Seq<bool>) -> Seq<bool> {
    if c[0] {
        t
    } else {
        e
    }
}

/// Concatenation: `hi` above `lo`, LSB first.
pub open spec fn bv_concat(hi: Seq<bool>, lo: Seq<bool>) -> Seq<bool> {
    lo + hi
}

/// Sign extension of `x` by `k` copies of its sign bit.
pub open spec fn bv_sext(x: Seq<bool>, k: nat) -> Seq<bool> {
    x + Seq::new(k, |i: int| x.last())
}

/// The bits of `x` from index `lo` to index `hi`, both inclusive.
pub open spec fn bv_slice(x: Seq<bool>, hi: nat, lo: nat) -> Seq<bool> {
    x.subrange(lo as int, hi as int + 1)
}

pub open spec fn bv_redxor(x: Seq<bool>) -> Seq<bool> {
    seq![parity(x)]
}

pub open spec fn bv_add(x: Seq<bool>, y: Seq<bool>) -> Seq<bool> {
    nat_to_bits(to_nat(x) + to_nat(y), x.len())
}

pub open spec fn bv_mul(x: Seq<bool>, y: Seq<bool>) -> Seq<bool> {
    nat_to_bits(to_nat(x) * to_nat(y), x.len())
}

/// Array lookup on the flattened bits: element `to_nat(idx)`, each element
/// `ew` bits wide.
pub open spec fn arr_read(a: Seq<bool>, idx: Seq<bool>, ew: nat) -> Seq<bool> {
    a.subrange(to_nat(idx) * ew as int, to_nat(idx) * ew + ew as int)
}

/// Array update on the flattened bits.
pub open spec fn arr_write(a: Seq<bool>, idx: Seq<bool>, v: Seq<bool>) -> Seq<bool> {
    let base = to_nat(idx) * v.len();
    Seq::new(
        a.len(),
        |i: int|
            if base <= i < base + v.len() {
                v[i - base]
            } else {
                a[i]
            },
    )
}

/// The meaning of one core operator application, over the operands'
/// flattened bit patterns.
pub open spec fn apply_core(op: Op, args: Seq<Seq<bool>>) -> Seq<bool> {
    match op {
        Op::Not => bv_not(args[0]),
        Op::And => bv_and(args[0], args[1]),
        Op::Or => bv_or(args[0], args[1]),
        Op::Xor => bv_xor(args[0], args[1]),
        Op::Eq => bv_eq(args[0], args[1]),
        Op::Ult => bv_ult(args[0], args[1]),
        Op::Slt => bv_slt(args[0], args[1]),
        Op::Sll => bv_sll(args[0], args[1]),
        Op::Srl => bv_srl(args[0], args[1]),
        Op::Sra => bv_sra(args[0], args[1]),
        Op::Ite => bv_ite(args[0], args[1], args[2]),
        Op::Concat => bv_concat(args[0], args[1]),
        Op::Sext => bv_sext(args[0], args[1].len()),
        Op::Slice => bv_slice(args[0], args[1].len(), args[2].len()),
        Op::Redxor => bv_redxor(args[0]),
        Op::Add => bv_add(args[0], args[1]),
        Op::Mul => bv_mul(args[0], args[1]),
        Op::Read => arr_read(args[0], args[1], args[0].len() / pow2(args[1].len())),
        Op::Write => arr_write(args[0], args[1], args[2]),
        // non-core operators never reach evaluation: the factory rewrites
        // them away before any node is stored
        _ => Seq::empty(),
    }
}

/// The meaning of any operator application: a non-core operator means
/// exactly what its rewrite into core operators means.
pub open spec fn apply_op(op: Op, args: Seq<Seq<bool>>) -> Seq<bool> {
    match op {
        Op::Neg => bv_add(bv_not(args[0]), Seq::new(args[0].len(), |i: int| i == 0)),
        Op::Neq => bv_not(bv_eq(args[0], args[1])),
        Op::Redor => bv_not(bv_eq(args[0], Seq::new(args[0].len(), |i: int| false))),
        Op::Uext => bv_concat(args[1], args[0]),
        Op::Ugte => bv_not(bv_ult(args[0], args[1])),
        _ => apply_core(op, args),
    }
}

/// A left fold of a binary operator across a non-empty sequence of
/// operand meanings.
pub open spec fn fold_apply(op: Op, vs: Seq<Seq<bool>>) -> Seq<bool>
    decreases vs.len(),
{
    if vs.len() <= 1 {
        vs[0]
    } else {
        apply_core(op, seq![fold_apply(op, vs.drop_last()), vs.last()])
    }
}

/// Appending a most significant bit adds its weight.
pub proof fn lemma_to_nat_snoc(s: Seq<bool>, b: bool)
    ensures
        to_nat(s.push(b)) == to_nat(s) + if b {
            pow2(s.len())
        } else {
            0nat
        },
    decreases s.len(),
{
    assert(s.push(b).len() == s.len() + 1);
    assert(to_nat(s.push(b)) == (if s.push(b)[0] {
        1nat
    } else {
        0nat
    }) + 2 * to_nat(s.push(b).skip(1)));
    if s.len() == 0 {
        assert(s.push(b)[0] == b);
        assert(s.push(b).skip(1) =~= Seq::empty());
        assert(to_nat(s.push(b).skip(1)) == 0);
        assert(pow2(0) == 1) by {
            vstd::arithmetic::power2::lemma2_to64();
        }
    } else {
        assert(s.push(b).skip(1) =~= s.skip(1).push(b));
        assert(s.push(b)[0] == s[0]);
        lemma_to_nat_snoc(s.skip(1), b);
        assert(to_nat(s) == (if s[0] {
            1nat
        } else {
            0nat
        }) + 2 * to_nat(s.skip(1)));
        vstd::arithmetic::power2::lemma_pow2_unfold(s.len());
    }
}

/// One step of the borrow chain: extending both patterns by one most
/// significant bit compares by that bit first, then by the rest.
pub proof fn lemma_ult_step(xs: Seq<bool>, ys: Seq<bool>, xb: bool, yb: bool)
    requires
        xs.len() == ys.len(),
    ensures
        (to_nat(xs.push(xb)) < to_nat(ys.push(yb))) == ((!xb && yb) || ((!xb || yb) && to_nat(
            xs,
        ) < to_nat(ys))),
{
    lemma_to_nat_snoc(xs, xb);
    lemma_to_nat_snoc(ys, yb);
    lemma_to_nat_bound(xs);
    lemma_to_nat_bound(ys);
}

/// A bit pattern is all-false exactly when its unsigned value is zero.
pub proof fn lemma_to_nat_zero(s: Seq<bool>)
    ensures
        (to_nat(s) == 0) <==> (forall|i: int| 0 <= i < s.len() ==> !s[i]),
    decreases s.len(),
{
    if s.len() > 0 {
        lemma_to_nat_zero(s.skip(1));
        assert(forall|i: int| 0 <= i < s.skip(1).len() ==> s.skip(1)[i] == s[i + 1]);
        if to_nat(s) == 0 {
            assert forall|i: int| 0 <= i < s.len() implies !s[i] by {
                if i > 0 {
                    assert(!s.skip(1)[i - 1]);
                }
            }
        }
    }
}

/// The unsigned value of an `n`-bit pattern is below `2^n`.
pub proof fn lemma_to_nat_bound(s: Seq<bool>)
    ensures
        to_nat(s) < pow2(s.len()),
    decreases s.len(),
{
    vstd::arithmetic::power2::lemma_pow2_pos(s.len());
    if s.len() > 0 {
        lemma_to_nat_bound(s.skip(1));
        vstd::arithmetic::power2::lemma_pow2_unfold(s.len());
    }
}

/// A bit pattern is all-true exactly when its unsigned value is
/// `2^n - 1`, the largest `n`-bit value.
pub proof fn lemma_to_nat_ones(s: Seq<bool>)
    ensures
        (to_nat(s) == pow2(s.len()) - 1) <==> (forall|i: int| 0 <= i < s.len() ==> s[i]),
    decreases s.len(),
{
    vstd::arithmetic::power2::lemma_pow2_pos(s.len());
    if s.len() == 0 {
        assert(pow2(0) == 1) by {
            vstd::arithmetic::power2::lemma2_to64();
        }
    } else {
        lemma_to_nat_ones(s.skip(1));
        lemma_to_nat_bound(s.skip(1));
        vstd::arithmetic::power2::lemma_pow2_unfold(s.len());
        assert(forall|i: int| 0 <= i < s.skip(1).len() ==> s.skip(1)[i] == s[i + 1]);
        if to_nat(s) == pow2(s.len()) - 1 {
            assert(to_nat(s.skip(1)) == pow2(s.skip(1).len()) - 1);
            assert forall|i: int| 0 <= i < s.len() implies s[i] by {
                if i > 0 {
                    assert(s.skip(1)[i - 1]);
                }
            }
        } else if forall|i: int| 0 <= i < s.len() ==> s[i] {
            assert forall|i: int| 0 <= i < s.skip(1).len() implies s.skip(1)[i] by {
                assert(s[i + 1]);
            }
            assert(to_nat(s.skip(1)) == pow2(s.skip(1).len()) - 1);
            assert(s[0]);
        }
    }
}

/// `nat_to_bits` produces exactly `n` bits.
pub proof fn lemma_nat_to_bits_len(v: nat, n: nat)
    ensures
        nat_to_bits(v, n).len() == n,
    decreases n,
{
    if n > 0 {
        lemma_nat_to_bits_len(v / 2, (n - 1) as nat);
    }
}

/// `to_nat` inverts `nat_to_bits` modulo `2^n`.
pub proof fn lemma_bits_to_nat_of(v: nat, n: nat)
    ensures
        to_nat(nat_to_bits(v, n)) == v % pow2(n),
    decreases n,
{
    vstd::arithmetic::power2::lemma_pow2_pos(n);
    if n == 0 {
        assert(pow2(0) == 1) by {
            vstd::arithmetic::power2::lemma2_to64();
        }
        assert(v % 1 == 0) by (nonlinear_arith);
    } else {
        lemma_bits_to_nat_of(v / 2, (n - 1) as nat);
        let s = nat_to_bits(v, n);
        let rest = nat_to_bits(v / 2, (n - 1) as nat);
        assert(s == seq![v % 2 == 1] + rest);
        assert(s.skip(1) =~= rest);
        assert(s[0] == (v % 2 == 1));
        lemma_nat_to_bits_len(v / 2, (n - 1) as nat);
        assert(to_nat(s) == (if v % 2 == 1 {
            1nat
        } else {
            0nat
        }) + 2 * ((v / 2) % pow2((n - 1) as nat)));
        vstd::arithmetic::power2::lemma_pow2_unfold(n);
        assert(pow2(n) == 2 * pow2((n - 1) as nat));
        assert((v % 2) + 2 * ((v / 2) % pow2((n - 1) as nat)) == v % (2 * pow2((n - 1) as nat)))
            by {
            lemma_mod_breakdown_local(v as int, 2, pow2((n - 1) as nat) as int);
        }
    }
}

proof fn lemma_mod_breakdown_local(x: int, y: int, z: int)
    requires
        x >= 0,
        y > 0,
        z > 0,
    ensures
        x % (y * z) == y * ((x / y) % z) + x % y,
{
    vstd::arithmetic::div_mod::lemma_mod_breakdown(x, y, z);
}

/// AND-reducing one-bit patterns yields their conjunction.
pub proof fn lemma_fold_and_bits(vs: Seq<Seq<bool>>)
    requires
        vs.len() >= 1,
        forall|i: int| 0 <= i < vs.len() ==> (#[trigger] vs[i]).len() == 1,
    ensures
        fold_apply(Op::And, vs).len() == 1,
        fold_apply(Op::And, vs)[0] == (forall|i: int|
            0 <= i < vs.len() ==> (#[trigger] vs[i])[0]),
    decreases vs.len(),
{
    if vs.len() == 1 {
        assert(fold_apply(Op::And, vs) == vs[0]);
        if vs[0][0] {
            assert forall|i: int| 0 <= i < vs.len() implies (#[trigger] vs[i])[0] by {}
        }
    } else {
        let head = vs.drop_last();
        assert forall|i: int| 0 <= i < head.len() implies (#[trigger] head[i]).len() == 1 by {
            assert(vs[i].len() == 1);
        }
        lemma_fold_and_bits(head);
        assert(fold_apply(Op::And, vs) == apply_core(
            Op::And,
            seq![fold_apply(Op::And, head), vs.last()],
        ));
        let folded = fold_apply(Op::And, vs);
        assert(folded.len() == 1);
        assert(folded[0] == (fold_apply(Op::And, head)[0] && vs.last()[0]));
        if folded[0] {
            assert forall|i: int| 0 <= i < vs.len() implies (#[trigger] vs[i])[0] by {
                if i < vs.len() - 1 {
                    assert(head[i][0]);
                }
            }
        } else {
            if fold_apply(Op::And, head)[0] && vs.last()[0] {
                assert(false);
            }
        }
    }
}

/// A logical left shift by a plain amount: bit `i` of the result is bit
/// `i - sh` of the input, and the low `sh` positions are false.
pub open spec fn shl_by(x: Seq<bool>, sh: nat) -> Seq<bool> {
    Seq::new(x.len(), |i: int| sh <= i && x[i - sh])
}

/// A logical right shift by a plain amount: vacated high positions are
/// false.
pub open spec fn srl_by(x: Seq<bool>, sh: nat) -> Seq<bool> {
    Seq::new(x.len(), |i: int| i + sh < x.len() && x[i + sh])
}

/// An arithmetic right shift by a plain amount: vacated high positions
/// replicate the sign bit.
pub open spec fn sra_by(x: Seq<bool>, sh: nat) -> Seq<bool> {
    Seq::new(
        x.len(),
        |i: int|
            if i + sh < x.len() {
                x[i + sh]
            } else {
                x.last()
            },
    )
}

/// Two left shifts in sequence shift by the sum of the amounts.
pub proof fn lemma_shl_compose(x: Seq<bool>, s: nat, t: nat)
    ensures
        shl_by(shl_by(x, s), t) == shl_by(x, s + t),
{
    assert(shl_by(shl_by(x, s), t) =~= shl_by(x, s + t));
}

/// Two logical right shifts in sequence shift by the sum of the amounts.
pub proof fn lemma_srl_compose(x: Seq<bool>, s: nat, t: nat)
    ensures
        srl_by(srl_by(x, s), t) == srl_by(x, s + t),
{
    assert(srl_by(srl_by(x, s), t) =~= srl_by(x, s + t));
}

/// Two arithmetic right shifts in sequence shift by the sum of the
/// amounts: the sign bit is a fixed point of the shift.
pub proof fn lemma_sra_compose(x: Seq<bool>, s: nat, t: nat)
    requires
        x.len() > 0,
    ensures
        sra_by(sra_by(x, s), t) == sra_by(x, s + t),
{
    assert(sra_by(x, s).last() == x.last());
    assert(sra_by(sra_by(x, s), t) =~= sra_by(x, s + t));
}

/// A bit pattern splits at any position into its low part plus its high
/// part weighted by the position's power of two.
pub proof fn lemma_to_nat_split(s: Seq<bool>, k: int)
    requires
        0 <= k <= s.len(),
    ensures
        to_nat(s) == to_nat(s.take(k)) + pow2(k as nat) * to_nat(s.skip(k)),
    decreases k,
{
    if k == 0 {
        assert(s.take(0) =~= Seq::empty());
        assert(s.skip(0) =~= s);
        assert(pow2(0) == 1) by {
            vstd::arithmetic::power2::lemma2_to64();
        }
        assert(to_nat(s.take(0)) == 0);
        assert(pow2(0) * to_nat(s.skip(0)) == to_nat(s)) by (nonlinear_arith)
            requires pow2(0) == 1, s.skip(0) =~= s;
    } else {
        lemma_to_nat_split(s, k - 1);
        assert(s.take(k) =~= s.take(k - 1).push(s[k - 1]));
        lemma_to_nat_snoc(s.take(k - 1), s[k - 1]);
        let hi = s.skip(k - 1);
        assert(hi.len() == s.len() - k + 1);
        assert(hi[0] == s[k - 1]);
        assert(hi.skip(1) =~= s.skip(k));
        assert(to_nat(hi) == (if s[k - 1] {
            1nat
        } else {
            0nat
        }) + 2 * to_nat(s.skip(k)));
        vstd::arithmetic::power2::lemma_pow2_unfold(k as nat);
        let b: nat = if s[k - 1] {
            1nat
        } else {
            0nat
        };
        let p: nat = pow2((k - 1) as nat);
        let skp: nat = to_nat(s.skip(k));
        assert(to_nat(s.skip(k - 1)) == b + 2 * skp);
        assert(to_nat(s) == to_nat(s.take(k - 1)) + p * (b + 2 * skp));
        assert(to_nat(s.take(k)) == to_nat(s.take(k - 1)) + b * p);
        assert(p * (b + 2 * skp) == b * p + (2 * p) * skp) by (nonlinear_arith);
        assert(pow2(k as nat) == 2 * p);
        assert(pow2(k as nat) * skp == (2 * p) * skp) by (nonlinear_arith)
            requires pow2(k as nat) == 2 * p;
        assert(to_nat(s) == to_nat(s.take(k)) + pow2(k as nat) * skp);
    }
}

/// A pattern whose value fits below `2^k` keeps its value on its low `k`
/// bits.
pub proof fn lemma_to_nat_take(s: Seq<bool>, k: int)
    requires
        0 <= k <= s.len(),
        to_nat(s) < pow2(k as nat),
    ensures
        to_nat(s.take(k)) == to_nat(s),
{
    lemma_to_nat_split(s, k);
    if to_nat(s.skip(k)) >= 1 {
        assert(pow2(k as nat) * to_nat(s.skip(k)) >= pow2(k as nat)) by (nonlinear_arith)
            requires to_nat(s.skip(k)) >= 1, pow2(k as nat) >= 0;
    }
}

/// A left shift multiplies the unsigned value by the power of two,
/// modulo the width's power.
pub proof fn lemma_to_nat_shl(x: Seq<bool>, s: int)
    requires
        0 <= s <= x.len(),
    ensures
        to_nat(shl_by(x, s as nat)) == (to_nat(x) * pow2(s as nat)) % pow2(x.len()),
{
    let n = x.len() as int;
    let sh = shl_by(x, s as nat);
    assert(sh.len() == n);
    lemma_to_nat_split(sh, s);
    assert(to_nat(sh.take(s)) == 0) by {
        lemma_to_nat_zero(sh.take(s));
        assert forall|i: int| 0 <= i < s implies !sh.take(s)[i] by {
            assert(sh.take(s)[i] == sh[i]);
        }
    }
    assert(sh.skip(s) =~= x.take(n - s));
    lemma_to_nat_split(x, n - s);
    let lo = to_nat(x.take(n - s));
    let hi = to_nat(x.skip(n - s));
    lemma_to_nat_bound(x.take(n - s));
    vstd::arithmetic::power2::lemma_pow2_pos(s as nat);
    vstd::arithmetic::power2::lemma_pow2_pos(x.len());
    vstd::arithmetic::power2::lemma_pow2_adds(s as nat, (n - s) as nat);
    assert(to_nat(sh) == pow2(s as nat) * lo);
    assert(to_nat(x) * pow2(s as nat) == pow2(s as nat) * lo + (pow2(s as nat) * pow2(
        (n - s) as nat,
    )) * hi) by (nonlinear_arith)
        requires to_nat(x) == lo + pow2((n - s) as nat) * hi;
    assert((pow2(x.len()) as int * hi as int + (pow2(s as nat) * lo) as int) % (pow2(
        x.len(),
    ) as int) == (pow2(s as nat) * lo) as int % (pow2(x.len()) as int)) by {
        vstd::arithmetic::div_mod::lemma_mod_multiples_vanish(
            hi as int,
            (pow2(s as nat) * lo) as int,
            pow2(x.len()) as int,
        );
    }
    assert(pow2(s as nat) * lo < pow2(x.len())) by (nonlinear_arith)
        requires
            lo < pow2((n - s) as nat),
            pow2(x.len()) == pow2(s as nat) * pow2((n - s) as nat),
            pow2(s as nat) >= 1,
    ;
    vstd::arithmetic::div_mod::lemma_small_mod(pow2(s as nat) * lo, pow2(x.len()));
}

/// XOR-reducing one-bit patterns yields their parity.
pub proof fn lemma_fold_xor_bits(vs: Seq<Seq<bool>>)
    requires
        vs.len() >= 1,
        forall|i: int| 0 <= i < vs.len() ==> (#[trigger] vs[i]).len() == 1,
    ensures
        fold_apply(Op::Xor, vs).len() == 1,
        fold_apply(Op::Xor, vs)[0] == parity(vs.map_values(|v: Seq<bool>| v[0])),
    decreases vs.len(),
{
    let bits = vs.map_values(|v: Seq<bool>| v[0]);
    if vs.len() == 1 {
        assert(fold_apply(Op::Xor, vs) == vs[0]);
        assert(bits.drop_last() =~= Seq::<bool>::empty());
        assert(parity(Seq::<bool>::empty()) == false);
        assert(parity(bits) == (false != bits.last()));
    } else {
        let head = vs.drop_last();
        assert forall|i: int| 0 <= i < head.len() implies (#[trigger] head[i]).len() == 1 by {
            assert(vs[i].len() == 1);
        }
        lemma_fold_xor_bits(head);
        assert(fold_apply(Op::Xor, vs) == apply_core(
            Op::Xor,
            seq![fold_apply(Op::Xor, head), vs.last()],
        ));
        assert(head.map_values(|v: Seq<bool>| v[0]) =~= bits.drop_last());
        assert(fold_apply(Op::Xor, vs)[0] == (parity(bits.drop_last()) != vs.last()[0]));
        assert(bits.last() == vs.last()[0]);
    }
}

/// The signed comparison decomposes into the sign bits and the unsigned
/// comparison of the remaining low bits.
pub proof fn lemma_slt_decompose(xv: Seq<bool>, yv: Seq<bool>)
    requires
        xv.len() == yv.len(),
        xv.len() > 0,
    ensures
        (to_int_signed(xv) < to_int_signed(yv)) == ((xv.last() && !yv.last()) || (xv.last()
            == yv.last() && to_nat(xv.drop_last()) < to_nat(yv.drop_last()))),
{
    lemma_to_nat_bound(xv.drop_last());
    lemma_to_nat_bound(yv.drop_last());
    vstd::arithmetic::power2::lemma_pow2_pos((xv.len() - 1) as nat);
}

/// The two's-complement sum means modular addition of the unsigned
/// values.
pub proof fn lemma_bv_add_value(x: Seq<bool>, y: Seq<bool>)
    ensures
        to_nat(bv_add(x, y)) == (to_nat(x) + to_nat(y)) % pow2(x.len()),
        bv_add(x, y).len() == x.len(),
{
    lemma_bits_to_nat_of(to_nat(x) + to_nat(y), x.len());
    lemma_nat_to_bits_len(to_nat(x) + to_nat(y), x.len());
}

/// The two's-complement product means modular multiplication of the
/// unsigned values.
pub proof fn lemma_bv_mul_value(x: Seq<bool>, y: Seq<bool>)
    ensures
        to_nat(bv_mul(x, y)) == (to_nat(x) * to_nat(y)) % pow2(x.len()),
        bv_mul(x, y).len() == x.len(),
{
    lemma_bits_to_nat_of(to_nat(x) * to_nat(y), x.len());
    lemma_nat_to_bits_len(to_nat(x) * to_nat(y), x.len());
}

} // verus!
