//! What the platform layer and the editor exchange: keys and the handles
//! of the processes the editor spawns.

use vstd::prelude::*;

verus! {

/// A key press (`NoKey` when none was read).
#[derive(Debug, Clone, Copy, PartialEq, Eq, Structural)]
pub enum Key {
    NoKey,
    Backspace,
    Enter,
    Left,
    Right,
    Up,
    Down,
    Home,
    End,
    PageUp,
    PageDown,
    Tab,
    Delete,
    F(u8),
    Char(char),
    Ctrl(char),
    Alt(char),
    Esc,
}

/// Who a spawned process works for: a buffer, or a language server client
/// (by the index of its handle).
#[derive(Clone, Copy)]
pub enum ProcessTag {
    Buffer(usize),
    Lsp(usize),
}

/// Names a process spawned by the platform layer.
#[derive(Clone, Copy)]
pub struct ProcessHandle(pub usize);

} // verus!
