//! A user interface that shows nothing, for headless use.

use vstd::prelude::*;

verus! {

pub struct NoneUi;

impl NoneUi {
    /// Drops what would be shown.
    pub fn display(&mut self, _bytes: &[u8]) -> (r: Result<(), ()>)
        ensures
            r is Ok,
    {
        Ok(())
    }
}

} // verus!
