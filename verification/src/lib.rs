//! A minimal N-dimensional array library: shape-checked construction,
//! NumPy-style broadcasting for elementwise binary operations, and strict
//! 2-D matrix multiplication, addition and subtraction.
//!
//! Tensors are generic over their element type; element arithmetic is
//! supplied by the caller as closures, and every contract speaks of the
//! closure's own postcondition, so the structural guarantees (shapes,
//! lengths, which source element meets which) are proved once for all
//! element types.

pub mod shape;
pub mod tensor;
pub mod broadcast;
