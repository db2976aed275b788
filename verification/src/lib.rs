//! Computational kernels over borrowed columns and row masks.
//!
//! Column storage stays owned by the caller; kernels load at most one word of a
//! column at a time and retain no borrow after returning. A column is read through
//! `ColumnReader`, independently of its physical storage: `ColumnView` over
//! initialized values, `DenseInt32Column` and `DatumInt32Column` over storage
//! whose unprepared rows may be uninitialized. A `RowMask` names the rows that
//! a kernel works on; mutating it requires exclusive access.
//!
//! `int32` holds the kernels: comparisons, aggregates, arithmetic and key
//! hashes. Comparisons and aggregates take full prepared words of
//! representations that expose their storage (`WordBlock`) whole, through the
//! kernels of `simd`; everything else takes the row paths, with the same
//! results. The whole-word arithmetic and hashes of `simd` and the prepared
//! divisions of `int32::Divisor` stand by themselves and agree with the row
//! paths. `c` holds the entry points that C callers reach.
//!
//! Errors do not roll back previously completed words; callers discard a
//! partial result after a failure.

pub mod bitmap;
pub mod bits;
pub mod c;
pub mod column;
pub mod error;
pub mod int32;
pub mod lanes;
pub mod reader;
pub mod row_mask;
pub mod simd;
pub mod storage;
pub mod word_values;

pub use column::ColumnView;
pub use error::Error;
pub use lanes::Lanes;
pub use reader::{ColumnReader, WordBlock};
pub use row_mask::{RowMask, RowMaskView};
pub use storage::int32::{DatumInt32Column, DenseInt32Column};
pub use word_values::WordValues;
