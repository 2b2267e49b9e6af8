//! Positions and ranges inside a buffer's text.

use vstd::prelude::*;
use crate::text::{char_bytes, char_len_utf8, str_to_chars, byte_len};

verus! {

/// A position in a buffer: a line and a byte offset inside it.
#[derive(Debug, Default, Clone, Copy, PartialEq, Eq, Structural)]
pub struct BufferPosition {
    pub line_index: usize,
    pub column_byte_index: usize,
}

/// `a` comes before `b` or equals it, line first.
pub open spec fn position_le(a: BufferPosition, b: BufferPosition) -> bool {
    a.line_index < b.line_index || (a.line_index == b.line_index && a.column_byte_index
        <= b.column_byte_index)
}

impl BufferPosition {
    pub fn line_col(line_index: usize, column_byte_index: usize) -> (r: Self)
        ensures
            r.line_index == line_index,
            r.column_byte_index == column_byte_index,
    {
        BufferPosition { line_index, column_byte_index }
    }
}

/// The text between two positions; `from` never comes after `to`.
#[derive(Debug, Default, Clone, Copy, PartialEq, Eq, Structural)]
pub struct BufferRange {
    pub from: BufferPosition,
    pub to: BufferPosition,
}

impl BufferRange {
    /// The range between two positions given in any order.
    pub fn between(a: BufferPosition, b: BufferPosition) -> (r: Self)
        ensures
            position_le(a, b) ==> r.from == a && r.to == b,
            !position_le(a, b) ==> r.from == b && r.to == a,
    {
        if a.line_index < b.line_index || (a.line_index == b.line_index && a.column_byte_index
            <= b.column_byte_index) {
            BufferRange { from: a, to: b }
        } else {
            BufferRange { from: b, to: a }
        }
    }
}

/// Where text inserted at `from` ends: one line further for each line
/// break, the column counting the bytes after the last one.
pub open spec fn end_position(from: BufferPosition, t: Seq<char>) -> BufferPosition
    decreases t.len(),
{
    if t.len() == 0 {
        from
    } else {
        let p = end_position(from, t.drop_last());
        if t.last() == '\n' {
            BufferPosition { line_index: (p.line_index + 1) as usize, column_byte_index: 0 }
        } else {
            BufferPosition {
                line_index: p.line_index,
                column_byte_index: (p.column_byte_index + char_bytes(t.last()).len()) as usize,
            }
        }
    }
}

/// The end position stays within the start plus the chars and bytes of the text.
proof fn lemma_end_position_bounds(from: BufferPosition, t: Seq<char>)
    ensures
        end_position(from, t).line_index <= from.line_index + t.len(),
        end_position(from, t).column_byte_index <= from.column_byte_index + byte_len(t),
    decreases t.len(),
{
    if t.len() > 0 {
        lemma_end_position_bounds(from, t.drop_last());
        crate::text::lemma_byte_len_take_next(t, t.len() - 1);
        assert(t.take(t.len() - 1) =~= t.drop_last());
        assert(t.take(t.len() as int) =~= t);
    }
}

impl BufferRange {
    /// The range that `text` covers once inserted at `position`.
    pub fn from_str_position(position: BufferPosition, text: &str) -> (r: Self)
        requires
            position.line_index + text@.len() <= usize::MAX,
            position.column_byte_index + byte_len(text@) <= usize::MAX,
        ensures
            r.from == position,
            r.to == end_position(position, text@),
    {
        let chars = str_to_chars(text);
        let mut to = position;
        let mut i: usize = 0;
        while i < chars.len()
            invariant
                i <= chars.len(),
                chars@ == text@,
                position.line_index + text@.len() <= usize::MAX,
                position.column_byte_index + byte_len(text@) <= usize::MAX,
                to == end_position(position, text@.take(i as int)),
            decreases chars.len() - i,
        {
            proof {
                assert(text@.take(i + 1).drop_last() =~= text@.take(i as int));
                lemma_end_position_bounds(position, text@.take(i as int));
                crate::text::lemma_byte_len_take_next(text@, i as int);
                crate::text::lemma_byte_len_take_mono(text@, i + 1, text@.len() as int);
                assert(text@.take(text@.len() as int) =~= text@);
            }
            if chars[i] == '\n' {
                to = BufferPosition { line_index: to.line_index + 1, column_byte_index: 0 };
            } else {
                to = BufferPosition {
                    line_index: to.line_index,
                    column_byte_index: to.column_byte_index + char_len_utf8(chars[i]),
                };
            }
            i = i + 1;
        }
        assert(text@.take(chars.len() as int) =~= text@);
        BufferRange { from: position, to }
    }
}

} // verus!
