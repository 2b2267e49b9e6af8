//! Handles to the editor's buffers.

use vstd::prelude::*;

verus! {

/// Names a buffer of the editor.
#[derive(Debug, Default, Clone, Copy, PartialEq, Eq, Hash, Structural)]
pub struct BufferHandle(pub u32);

} // verus!
