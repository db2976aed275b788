//! Signed int32 kernels without PostgreSQL type dispatch: comparisons
//! (`filter`), aggregates, arithmetic and key hashes.
//!
//! A physical int32 representation does not select PostgreSQL semantics: the
//! caller chooses kernels by logical type and operation.

pub mod aggregate;
pub mod arith;
pub mod bulk;
mod constant;
pub mod divisor;
pub mod filter;
pub mod hash;

pub use aggregate::{count, max, min, sum};
pub use arith::{arith_columns, arith_scalar, arith_scalar_left, ArithOp, ArithmeticError};
pub use divisor::Divisor;
pub use filter::filter;
pub use hash::{hash, hash_combine, hash_next, murmurhash32, NullKeys};

use vstd::prelude::*;

use crate::reader::ColumnReader;

verus! {

/// A comparison of a column value on the left with a non-NULL scalar on the right.
#[derive(Clone, Copy, Debug, Eq, PartialEq)]
pub enum CompareOp {
    /// Equal (`=`).
    Eq,
    /// Not equal (`!=`).
    Ne,
    /// Less than (`<`).
    Lt,
    /// Less than or equal (`<=`).
    Le,
    /// Greater than (`>`).
    Gt,
    /// Greater than or equal (`>=`).
    Ge,
}

impl CompareOp {
    /// Whether `value op scalar` holds.
    pub open spec fn holds(self, value: i32, scalar: i32) -> bool {
        match self {
            CompareOp::Eq => value == scalar,
            CompareOp::Ne => value != scalar,
            CompareOp::Lt => value < scalar,
            CompareOp::Le => value <= scalar,
            CompareOp::Gt => value > scalar,
            CompareOp::Ge => value >= scalar,
        }
    }
}

/// Selected rows in the first multi-row word from which whole-word kernels
/// pay for the call.
pub const BULK_MIN_ROWS: u32 = 12;

/// The Datum blocks of a column hold int4 values in their low 32 bits.
pub open spec fn int4_datums<C: ColumnReader<Value = i32>>(column: &C) -> bool {
    forall|datum: u64| (#[trigger] column.datum_value(datum)) matches Some(value) ==> value
        == datum as i32
}

/// The comparisons are those of the integers: of two values exactly one is less,
/// equal or greater, and the other three comparisons are the negations.
pub proof fn lemma_comparisons(value: i32, scalar: i32)
    ensures
        CompareOp::Eq.holds(value, scalar) <==> value as int - scalar as int == 0,
        CompareOp::Lt.holds(value, scalar) <==> value as int - (scalar as int) < 0,
        CompareOp::Gt.holds(value, scalar) <==> value as int - scalar as int > 0,
        CompareOp::Ne.holds(value, scalar) <==> !CompareOp::Eq.holds(value, scalar),
        CompareOp::Ge.holds(value, scalar) <==> !CompareOp::Lt.holds(value, scalar),
        CompareOp::Le.holds(value, scalar) <==> !CompareOp::Gt.holds(value, scalar),
        CompareOp::Lt.holds(value, scalar) <==> CompareOp::Gt.holds(scalar, value),
{
}

} // verus!
