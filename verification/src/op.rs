//! The closed operator catalog. Core operators have a direct boolean
//! lowering; non-core operators are syntactic sugar that the term factory
//! rewrites into compositions of core operators before any node is stored,
//! so the graph never contains a non-core operator node.

use crate::sort::Sort;
use vstd::prelude::*;
use vstd::string::StrSliceExecFns;
use vstd::string::StringSliceAdditionalSpecFns;

verus! {

#[derive(Clone, Copy, PartialEq, Eq, Structural, Debug, Hash)]
pub enum Op {
    // core operators
    Not,
    And,
    Or,
    Xor,
    Eq,
    Ult,
    Slt,
    Sll,
    Srl,
    Sra,
    Ite,
    Concat,
    Sext,
    Slice,
    Redxor,
    Add,
    Mul,
    Read,
    Write,
    // non-core operators, resolved by rewriting
    Neg,
    Neq,
    Redor,
    Uext,
    Ugte,
}

impl Op {
    /// How many operands the operator takes.
    pub open spec fn spec_num_operand(self) -> nat {
        match self {
            Op::Not => 1,
            Op::And => 2,
            Op::Or => 2,
            Op::Xor => 2,
            Op::Eq => 2,
            Op::Ult => 2,
            Op::Slt => 2,
            Op::Sll => 2,
            Op::Srl => 2,
            Op::Sra => 2,
            Op::Ite => 3,
            Op::Concat => 2,
            Op::Sext => 2,
            Op::Slice => 3,
            Op::Redxor => 1,
            Op::Add => 2,
            Op::Mul => 2,
            Op::Read => 2,
            Op::Write => 3,
            Op::Neg => 1,
            Op::Neq => 2,
            Op::Redor => 1,
            Op::Uext => 2,
            Op::Ugte => 2,
        }
    }

    pub fn num_operand(self) -> (r: usize)
        ensures
            r as nat == self.spec_num_operand(),
    {
        match self {
            Op::Not | Op::Redxor | Op::Neg | Op::Redor => 1,
            Op::Ite | Op::Slice | Op::Write => 3,
            _ => 2,
        }
    }

    /// Whether the operator has a direct boolean/CNF lowering. Non-core
    /// operators exist only as rewrites into core compositions.
    pub open spec fn spec_is_core(self) -> bool {
        !(self is Neg || self is Neq || self is Redor || self is Uext || self is Ugte)
    }

    pub fn is_core(self) -> (r: bool)
        ensures
            r == self.spec_is_core(),
    {
        match self {
            Op::Neg | Op::Neq | Op::Redor | Op::Uext | Op::Ugte => false,
            _ => true,
        }
    }

    /// How many rewriting steps a non-core operator may take before only
    /// core operators remain: the rewrite of `Redor` goes through `Neq`,
    /// every other non-core operator rewrites directly into core
    /// operators.
    pub open spec fn rank(self) -> nat {
        match self {
            Op::Redor => 2,
            Op::Neg | Op::Neq | Op::Uext | Op::Ugte => 1,
            _ => 0,
        }
    }

    /// The binary operators a left fold may be built from: same operand
    /// and result sort on both sides.
    pub open spec fn is_fold_op(self) -> bool {
        self is And || self is Or || self is Xor || self is Add || self is Mul
    }

    /// Sort constraints a core operator places on its operands.
    pub open spec fn args_wf(self, ss: Seq<Sort>) -> bool {
        ss.len() == self.spec_num_operand() && (forall|i: int|
            0 <= i < ss.len() ==> (#[trigger] ss[i]).wf()) && match self {
            Op::Not | Op::Redxor => ss[0].is_bv(),
            Op::And | Op::Or | Op::Xor | Op::Add | Op::Mul | Op::Ult | Op::Slt | Op::Sll
                | Op::Srl | Op::Sra => ss[0].is_bv() && ss[0] == ss[1],
            Op::Eq => ss[0] == ss[1],
            Op::Ite => ss[0] == Sort::Bv(1usize) && ss[1] == ss[2],
            Op::Concat => ss[0].is_bv() && ss[1].is_bv() && ss[0].spec_width()
                + ss[1].spec_width() <= 0x1000_0000,
            Op::Sext => ss[0].is_bv() && ss[1].is_bv() && ss[0].spec_width()
                + ss[1].spec_width() <= 0x1000_0000,
            Op::Slice => ss[0].is_bv() && ss[1].is_bv() && ss[2].is_bv() && ss[2].spec_width()
                <= ss[1].spec_width() && ss[1].spec_width() < ss[0].spec_width(),
            Op::Read => ss[0].is_array() && ss[1] == Sort::Bv(ss[0]->Array_0),
            Op::Write => ss[0].is_array() && ss[1] == Sort::Bv(ss[0]->Array_0) && ss[2]
                == Sort::Bv(ss[0]->Array_1),
            Op::Neg | Op::Redor => ss[0].is_bv(),
            Op::Neq => ss[0] == ss[1],
            Op::Uext => ss[0].is_bv() && ss[1].is_bv() && ss[0].spec_width() + ss[1].spec_width()
                <= 0x1000_0000,
            Op::Ugte => ss[0].is_bv() && ss[0] == ss[1],
        }
    }

    /// The sort of an operator application, given the operand sorts.
    pub open spec fn result_sort(self, ss: Seq<Sort>) -> Sort {
        match self {
            Op::Eq | Op::Ult | Op::Slt | Op::Redxor | Op::Neq | Op::Redor | Op::Ugte => Sort::Bv(
                1usize,
            ),
            Op::Uext => Sort::Bv((ss[0].spec_width() + ss[1].spec_width()) as usize),
            Op::Ite => ss[1],
            Op::Concat | Op::Sext => Sort::Bv(
                (ss[0].spec_width() + ss[1].spec_width()) as usize,
            ),
            Op::Slice => Sort::Bv((ss[1].spec_width() - ss[2].spec_width() + 1) as usize),
            Op::Read => Sort::Bv(ss[0]->Array_1),
            _ => ss[0],
        }
    }
}


/// The ASCII lowering of one byte.
pub open spec fn ascii_lower(b: u8) -> u8 {
    if 65 <= b <= 90 {
        (b + 32) as u8
    } else {
        b
    }
}

/// The ASCII lowering of a byte string.
pub open spec fn lower_bytes(s: Seq<u8>) -> Seq<u8> {
    s.map_values(|b: u8| ascii_lower(b))
}

/// The lowercase name of an operator, as bytes.
pub open spec fn spec_op_name(op: Op) -> Seq<u8> {
    match op {
            Op::Not => seq![0x6eu8, 0x6fu8, 0x74u8],
            Op::And => seq![0x61u8, 0x6eu8, 0x64u8],
            Op::Or => seq![0x6fu8, 0x72u8],
            Op::Xor => seq![0x78u8, 0x6fu8, 0x72u8],
            Op::Eq => seq![0x65u8, 0x71u8],
            Op::Ult => seq![0x75u8, 0x6cu8, 0x74u8],
            Op::Slt => seq![0x73u8, 0x6cu8, 0x74u8],
            Op::Sll => seq![0x73u8, 0x6cu8, 0x6cu8],
            Op::Srl => seq![0x73u8, 0x72u8, 0x6cu8],
            Op::Sra => seq![0x73u8, 0x72u8, 0x61u8],
            Op::Ite => seq![0x69u8, 0x74u8, 0x65u8],
            Op::Concat => seq![0x63u8, 0x6fu8, 0x6eu8, 0x63u8, 0x61u8, 0x74u8],
            Op::Sext => seq![0x73u8, 0x65u8, 0x78u8, 0x74u8],
            Op::Slice => seq![0x73u8, 0x6cu8, 0x69u8, 0x63u8, 0x65u8],
            Op::Redxor => seq![0x72u8, 0x65u8, 0x64u8, 0x78u8, 0x6fu8, 0x72u8],
            Op::Add => seq![0x61u8, 0x64u8, 0x64u8],
            Op::Mul => seq![0x6du8, 0x75u8, 0x6cu8],
            Op::Read => seq![0x72u8, 0x65u8, 0x61u8, 0x64u8],
            Op::Write => seq![0x77u8, 0x72u8, 0x69u8, 0x74u8, 0x65u8],
            Op::Neg => seq![0x6eu8, 0x65u8, 0x67u8],
            Op::Neq => seq![0x6eu8, 0x65u8, 0x71u8],
            Op::Redor => seq![0x72u8, 0x65u8, 0x64u8, 0x6fu8, 0x72u8],
            Op::Uext => seq![0x75u8, 0x65u8, 0x78u8, 0x74u8],
            Op::Ugte => seq![0x75u8, 0x67u8, 0x74u8, 0x65u8],
    }
}

/// The operator carrying a (lowercase) name, if any.
pub open spec fn spec_op_of_name(s: Seq<u8>) -> Option<Op> {
    if s == spec_op_name(Op::Not) {
        Some(Op::Not)
    } else if s == spec_op_name(Op::And) {
        Some(Op::And)
    } else if s == spec_op_name(Op::Or) {
        Some(Op::Or)
    } else if s == spec_op_name(Op::Xor) {
        Some(Op::Xor)
    } else if s == spec_op_name(Op::Eq) {
        Some(Op::Eq)
    } else if s == spec_op_name(Op::Ult) {
        Some(Op::Ult)
    } else if s == spec_op_name(Op::Slt) {
        Some(Op::Slt)
    } else if s == spec_op_name(Op::Sll) {
        Some(Op::Sll)
    } else if s == spec_op_name(Op::Srl) {
        Some(Op::Srl)
    } else if s == spec_op_name(Op::Sra) {
        Some(Op::Sra)
    } else if s == spec_op_name(Op::Ite) {
        Some(Op::Ite)
    } else if s == spec_op_name(Op::Concat) {
        Some(Op::Concat)
    } else if s == spec_op_name(Op::Sext) {
        Some(Op::Sext)
    } else if s == spec_op_name(Op::Slice) {
        Some(Op::Slice)
    } else if s == spec_op_name(Op::Redxor) {
        Some(Op::Redxor)
    } else if s == spec_op_name(Op::Add) {
        Some(Op::Add)
    } else if s == spec_op_name(Op::Mul) {
        Some(Op::Mul)
    } else if s == spec_op_name(Op::Read) {
        Some(Op::Read)
    } else if s == spec_op_name(Op::Write) {
        Some(Op::Write)
    } else if s == spec_op_name(Op::Neg) {
        Some(Op::Neg)
    } else if s == spec_op_name(Op::Neq) {
        Some(Op::Neq)
    } else if s == spec_op_name(Op::Redor) {
        Some(Op::Redor)
    } else if s == spec_op_name(Op::Uext) {
        Some(Op::Uext)
    } else if s == spec_op_name(Op::Ugte) {
        Some(Op::Ugte)
    } else {
        None
    }
}

/// Whether two byte strings are equal.
#[verifier::loop_isolation(false)]
fn bytes_match(v: &Vec<u8>, pat: &Vec<u8>) -> (r: bool)
    ensures
        r == (v@ == pat@),
{
    if v.len() != pat.len() {
        proof {
            assert(v@ != pat@);
        }
        return false;
    }
    let n = v.len();
    for k in 0..n
        invariant
            forall|j: int| 0 <= j < k ==> v@[j] == pat@[j],
    {
        if v[k] != pat[k] {
            proof {
                assert(v@[k as int] != pat@[k as int]);
            }
            return false;
        }
    }
    proof {
        assert(v@ =~= pat@);
    }
    true
}

/// Case-insensitive lookup of an operator by its textual mnemonic: the
/// front-end face of the closed catalog. An unknown name yields nothing.
#[verifier::loop_isolation(false)]
pub fn op_from_name(name: &str) -> (r: Option<Op>)
    ensures
        r == spec_op_of_name(lower_bytes(name.spec_bytes())),
{
    let bytes = name.as_bytes_vec();
    let mut low: Vec<u8> = Vec::new();
    let n = bytes.len();
    for k in 0..n
        invariant
            low@ =~= lower_bytes(bytes@.take(k as int)),
    {
        let b = bytes[k];
        let lb = if 65 <= b && b <= 90 {
            b + 32
        } else {
            b
        };
        low.push(lb);
        proof {
            assert(low@ =~= lower_bytes(bytes@.take(k + 1)));
        }
    }
    proof {
        assert(bytes@.take(n as int) =~= bytes@);
        assert(low@ =~= lower_bytes(name.spec_bytes()));
    }
    let pat = vec![0x6eu8, 0x6fu8, 0x74u8];
    proof {
        assert(pat@ =~= spec_op_name(Op::Not));
    }
    if bytes_match(&low, &pat) {
        return Some(Op::Not);
    }
    let pat = vec![0x61u8, 0x6eu8, 0x64u8];
    proof {
        assert(pat@ =~= spec_op_name(Op::And));
    }
    if bytes_match(&low, &pat) {
        return Some(Op::And);
    }
    let pat = vec![0x6fu8, 0x72u8];
    proof {
        assert(pat@ =~= spec_op_name(Op::Or));
    }
    if bytes_match(&low, &pat) {
        return Some(Op::Or);
    }
    let pat = vec![0x78u8, 0x6fu8, 0x72u8];
    proof {
        assert(pat@ =~= spec_op_name(Op::Xor));
    }
    if bytes_match(&low, &pat) {
        return Some(Op::Xor);
    }
    let pat = vec![0x65u8, 0x71u8];
    proof {
        assert(pat@ =~= spec_op_name(Op::Eq));
    }
    if bytes_match(&low, &pat) {
        return Some(Op::Eq);
    }
    let pat = vec![0x75u8, 0x6cu8, 0x74u8];
    proof {
        assert(pat@ =~= spec_op_name(Op::Ult));
    }
    if bytes_match(&low, &pat) {
        return Some(Op::Ult);
    }
    let pat = vec![0x73u8, 0x6cu8, 0x74u8];
    proof {
        assert(pat@ =~= spec_op_name(Op::Slt));
    }
    if bytes_match(&low, &pat) {
        return Some(Op::Slt);
    }
    let pat = vec![0x73u8, 0x6cu8, 0x6cu8];
    proof {
        assert(pat@ =~= spec_op_name(Op::Sll));
    }
    if bytes_match(&low, &pat) {
        return Some(Op::Sll);
    }
    let pat = vec![0x73u8, 0x72u8, 0x6cu8];
    proof {
        assert(pat@ =~= spec_op_name(Op::Srl));
    }
    if bytes_match(&low, &pat) {
        return Some(Op::Srl);
    }
    let pat = vec![0x73u8, 0x72u8, 0x61u8];
    proof {
        assert(pat@ =~= spec_op_name(Op::Sra));
    }
    if bytes_match(&low, &pat) {
        return Some(Op::Sra);
    }
    let pat = vec![0x69u8, 0x74u8, 0x65u8];
    proof {
        assert(pat@ =~= spec_op_name(Op::Ite));
    }
    if bytes_match(&low, &pat) {
        return Some(Op::Ite);
    }
    let pat = vec![0x63u8, 0x6fu8, 0x6eu8, 0x63u8, 0x61u8, 0x74u8];
    proof {
        assert(pat@ =~= spec_op_name(Op::Concat));
    }
    if bytes_match(&low, &pat) {
        return Some(Op::Concat);
    }
    let pat = vec![0x73u8, 0x65u8, 0x78u8, 0x74u8];
    proof {
        assert(pat@ =~= spec_op_name(Op::Sext));
    }
    if bytes_match(&low, &pat) {
        return Some(Op::Sext);
    }
    let pat = vec![0x73u8, 0x6cu8, 0x69u8, 0x63u8, 0x65u8];
    proof {
        assert(pat@ =~= spec_op_name(Op::Slice));
    }
    if bytes_match(&low, &pat) {
        return Some(Op::Slice);
    }
    let pat = vec![0x72u8, 0x65u8, 0x64u8, 0x78u8, 0x6fu8, 0x72u8];
    proof {
        assert(pat@ =~= spec_op_name(Op::Redxor));
    }
    if bytes_match(&low, &pat) {
        return Some(Op::Redxor);
    }
    let pat = vec![0x61u8, 0x64u8, 0x64u8];
    proof {
        assert(pat@ =~= spec_op_name(Op::Add));
    }
    if bytes_match(&low, &pat) {
        return Some(Op::Add);
    }
    let pat = vec![0x6du8, 0x75u8, 0x6cu8];
    proof {
        assert(pat@ =~= spec_op_name(Op::Mul));
    }
    if bytes_match(&low, &pat) {
        return Some(Op::Mul);
    }
    let pat = vec![0x72u8, 0x65u8, 0x61u8, 0x64u8];
    proof {
        assert(pat@ =~= spec_op_name(Op::Read));
    }
    if bytes_match(&low, &pat) {
        return Some(Op::Read);
    }
    let pat = vec![0x77u8, 0x72u8, 0x69u8, 0x74u8, 0x65u8];
    proof {
        assert(pat@ =~= spec_op_name(Op::Write));
    }
    if bytes_match(&low, &pat) {
        return Some(Op::Write);
    }
    let pat = vec![0x6eu8, 0x65u8, 0x67u8];
    proof {
        assert(pat@ =~= spec_op_name(Op::Neg));
    }
    if bytes_match(&low, &pat) {
        return Some(Op::Neg);
    }
    let pat = vec![0x6eu8, 0x65u8, 0x71u8];
    proof {
        assert(pat@ =~= spec_op_name(Op::Neq));
    }
    if bytes_match(&low, &pat) {
        return Some(Op::Neq);
    }
    let pat = vec![0x72u8, 0x65u8, 0x64u8, 0x6fu8, 0x72u8];
    proof {
        assert(pat@ =~= spec_op_name(Op::Redor));
    }
    if bytes_match(&low, &pat) {
        return Some(Op::Redor);
    }
    let pat = vec![0x75u8, 0x65u8, 0x78u8, 0x74u8];
    proof {
        assert(pat@ =~= spec_op_name(Op::Uext));
    }
    if bytes_match(&low, &pat) {
        return Some(Op::Uext);
    }
    let pat = vec![0x75u8, 0x67u8, 0x74u8, 0x65u8];
    proof {
        assert(pat@ =~= spec_op_name(Op::Ugte));
    }
    if bytes_match(&low, &pat) {
        return Some(Op::Ugte);
    }
    None
}

} // verus!
