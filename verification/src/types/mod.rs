use vstd::prelude::*;

pub mod range;
pub mod text_op;

pub use range::{ByteRange, RangeError, TextRange};
pub use text_op::TextOp;

verus! {

/// The port number on which the backend server listens.
#[derive(Debug, Clone, Copy, PartialEq, Eq)]
pub struct Port(pub u16);

} // verus!
