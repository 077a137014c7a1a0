//! Term-representation and lowering core for fixed-width bit-vector and
//! array expressions: a hash-consed term graph with a canonicalizing
//! factory, an algebraic simplifier, a bitblasting pass that lowers terms
//! to one-bit boolean terms, and a Tseitin CNF encoder that asserts clauses
//! into an external CNF builder.

pub mod bitblast;
pub mod cnf;
pub mod construct;
pub mod simplify;
pub mod sort;
pub mod op;
pub mod semantics;
pub mod term;
pub mod utils;

pub use sort::Sort;
pub use term::{ArrayConst, BvConst, ConstTerm, OpTerm, Term, TermInner, TermManager, TermType};
pub use utils::TermVec;
pub use op::Op;
