//! The loaded plugins.

use vstd::prelude::*;

verus! {

#[derive(Default, Clone, Copy, PartialEq, Eq, Structural)]
pub struct PluginHandle(pub u32);

/// A loaded plugin.
pub struct Plugin {}

/// All loaded plugins, addressed by handle.
pub struct PluginCollection {
    plugins: Vec<Plugin>,
}

impl View for PluginCollection {
    type V = Seq<Plugin>;

    closed spec fn view(&self) -> Seq<Plugin> {
        self.plugins@
    }
}

impl Default for PluginCollection {
    fn default() -> (r: Self)
        ensures
            r@.len() == 0,
    {
        Self { plugins: Vec::new() }
    }
}

impl PluginCollection {
    /// The plugin behind `handle`.
    pub fn get(&self, handle: PluginHandle) -> (r: &Plugin)
        requires
            handle.0 < self@.len(),
        ensures
            *r == self@[handle.0 as int],
    {
        &self.plugins[handle.0 as usize]
    }

    /// The plugin behind `handle`, for change.
    pub fn get_mut(&mut self, handle: PluginHandle) -> (r: &mut Plugin)
        requires
            handle.0 < old(self)@.len(),
        ensures
            *r == old(self)@[handle.0 as int],
            final(self)@ == old(self)@.update(handle.0 as int, *final(r)),
    {
        &mut self.plugins[handle.0 as usize]
    }
}

} // verus!
