//! Handles to the views clients have of buffers.

use vstd::prelude::*;

verus! {

/// Names a view of a buffer.
#[derive(Debug, Default, Clone, Copy, PartialEq, Eq, Hash, Structural)]
pub struct BufferViewHandle(pub usize);

} // verus!
