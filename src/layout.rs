use vstd::prelude::*;

verus! {

/// Convention that assigns canonical strides to a shape.
#[derive(Clone, Copy, Debug, PartialEq, Eq, Structural)]
pub enum Layout {
    /// The last axis has stride 1; strides grow toward axis 0.
    RowMajor,
    /// Axis 0 has stride 1; strides grow toward the last axis.
    ColumnMajor,
}

impl Layout {
    /// The other layout.
    pub open spec fn flipped(self) -> Layout {
        match self {
            Layout::RowMajor => Layout::ColumnMajor,
            Layout::ColumnMajor => Layout::RowMajor,
        }
    }
}

} // verus!
