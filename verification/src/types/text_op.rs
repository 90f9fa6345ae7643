use vstd::prelude::*;

use super::range::TextRange;

verus! {

/// A single text-edit operator, expressed purely as byte offsets into the
/// decoded text. The source text stays immutable: operators only describe
/// edits and are materialized lazily at split/export time.
#[derive(Debug)]
pub enum TextOp {
    Replace { range: TextRange, replacement: String },
    Delete { range: TextRange },
    Insert { range: TextRange, insertion: String },
}

impl TextOp {
    /// The range an operator applies to.
    pub open spec fn spec_range(self) -> TextRange {
        match self {
            TextOp::Replace { range, .. } => range,
            TextOp::Delete { range } => range,
            TextOp::Insert { range, .. } => range,
        }
    }

    /// The range an operator applies to.
    pub fn range(&self) -> (r: TextRange)
        ensures
            r == self.spec_range(),
    {
        match self {
            TextOp::Replace { range, .. } => *range,
            TextOp::Delete { range } => *range,
            TextOp::Insert { range, .. } => *range,
        }
    }
}

} // verus!
