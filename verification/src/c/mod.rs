//! The entry points that C callers reach.
//!
//! Every entry point takes its inputs as the structures of the batch contract
//! (`DatumColumn`, `Mask`), runs a kernel, and returns a `Code` that it also
//! records in the caller's `Status`. A pointer that may be null is an `Option`
//! here; turning pointers into borrows and catching panics is left to the code
//! that exports the functions.

pub mod column;
pub mod int32;
pub mod mask;
pub mod status;

pub use column::DatumColumn;
pub use int32::{
    tess_int4_count, tess_int4_filter, tess_int4_max, tess_int4_min, tess_int4_sum,
    tess_kernels_abi_version, tess_kernels_layout,
};
pub use mask::Mask;
pub use status::{Code, Outcome, Status, MESSAGE_SIZE};
