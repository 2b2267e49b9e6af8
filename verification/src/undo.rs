//! The undo history of a buffer: edits grouped by the command that made them.

use vstd::prelude::*;
use vstd::utf8::{encode_utf8, valid_utf8};
use crate::buffer_position::{end_position, BufferPosition, BufferRange};
use crate::text::{byte_len, char_bytes, encode_char, lemma_encode_injective, str_from_utf8, str_to_chars};

verus! {

/// The text of an edit: a single char kept inline as its UTF-8 bytes, or a string.
pub enum Text {
    Char([u8; 4], u8),
    String(String),
}

impl View for Text {
    type V = Seq<char>;

    /// The chars of the text.
    open spec fn view(&self) -> Seq<char> {
        match self {
            Text::Char(buf, len) => vstd::utf8::decode_utf8(buf@.take(*len as int)),
            Text::String(s) => s@,
        }
    }
}

/// The encoding of one char is valid UTF-8 and decodes to that char.
proof fn lemma_char_encoding(c: char)
    ensures
        valid_utf8(char_bytes(c)),
        vstd::utf8::decode_utf8(char_bytes(c)) == seq![c],
        encode_utf8(seq![c]) == char_bytes(c),
{
    assert(seq![c].drop_first() =~= Seq::<char>::empty());
    assert(encode_utf8(seq![c]) =~= char_bytes(c) + encode_utf8(Seq::<char>::empty()));
    assert(encode_utf8(Seq::<char>::empty()) =~= Seq::<u8>::empty());
    assert(encode_utf8(seq![c]) =~= char_bytes(c));
    vstd::utf8::encode_utf8_valid_utf8(seq![c]);
    vstd::utf8::encode_utf8_decode_utf8(seq![c]);
}

impl Text {
    /// The inline bytes are valid UTF-8.
    pub open spec fn wf(&self) -> bool {
        match self {
            Text::Char(buf, len) => *len <= 4 && valid_utf8(buf@.take(*len as int)),
            Text::String(_) => true,
        }
    }

    /// The text of a string: inline when it has at most one char.
    pub fn from_str(text: &str) -> (r: Self)
        ensures
            r.wf(),
            r@ == text@,
            text@.len() <= 1 <==> r is Char,
    {
        let chars = str_to_chars(text);
        if chars.len() == 0 {
            let r = Text::Char([0u8; 4], 0);
            proof {
                assert(r.view_bytes() =~= Seq::<u8>::empty());
                vstd::utf8::encode_utf8_valid_utf8(Seq::<char>::empty());
                vstd::utf8::encode_utf8_decode_utf8(Seq::<char>::empty());
                assert(encode_utf8(Seq::<char>::empty()) =~= Seq::<u8>::empty());
                assert(text@ =~= Seq::<char>::empty());
            }
            r
        } else if chars.len() == 1 {
            assert(text@ =~= seq![chars[0]]);
            Self::from_char(chars[0])
        } else {
            Text::String(text.to_owned())
        }
    }

    /// The bytes of an inline char.
    pub open spec fn view_bytes(&self) -> Seq<u8> {
        match self {
            Text::Char(buf, len) => buf@.take(*len as int),
            Text::String(s) => encode_utf8(s@),
        }
    }

    /// The text of a single char, kept inline.
    pub fn from_char(c: char) -> (r: Self)
        ensures
            r.wf(),
            r@ == seq![c],
            r is Char,
    {
        let (buf, len) = encode_char(c);
        proof {
            lemma_char_encoding(c);
        }
        Text::Char(buf, len as u8)
    }

    /// The text as a string slice.
    pub fn as_str(&self) -> (r: &str)
        requires
            self.wf(),
        ensures
            r@ == self@,
    {
        match self {
            Text::Char(buf, len) => {
                let n = *len as usize;
                let bytes: &[u8] = &buf[0..n];
                let s = str_from_utf8(bytes);
                let r = s.unwrap();
                proof {
                    vstd::utf8::encode_utf8_decode_utf8(r@);
                }
                r
            },
            Text::String(string) => string.as_str(),
        }
    }
}

#[derive(Clone, Copy)]
pub enum EditKind {
    Insert,
    Delete,
}

/// A change to a buffer: text inserted or deleted over a range.
pub struct Edit {
    pub kind: EditKind,
    pub range: BufferRange,
    pub text: Text,
}

impl Edit {
    /// The edit of `text` at `position`; its range ends where the text does.
    pub fn new(kind: EditKind, position: BufferPosition, text: Text) -> (r: Self)
        requires
            text.wf(),
            position.line_index + text@.len() <= usize::MAX,
            position.column_byte_index + byte_len(text@) <= usize::MAX,
        ensures
            r.kind == kind,
            r.text == text,
            r.range.from == position,
            r.range.to == end_position(position, text@),
    {
        let range = BufferRange::from_str_position(position, text.as_str());
        Edit { kind, text, range }
    }
}

/// The edits in order, and where each group of edits ends.
pub struct Undo {
    history: Vec<Edit>,
    group_end_indexes: Vec<usize>,
    current_group_index: usize,
}

/// What an undo history holds.
#[verifier::ext_equal]
pub struct UndoView {
    pub history: Seq<Edit>,
    pub group_ends: Seq<usize>,
    pub current: int,
}

impl View for Undo {
    type V = UndoView;

    closed spec fn view(&self) -> UndoView {
        UndoView {
            history: self.history@,
            group_ends: self.group_end_indexes@,
            current: self.current_group_index as int,
        }
    }
}

/// The history once the edits of the current group are closed: a new empty
/// group follows a non-empty one.
pub open spec fn committed(u: UndoView) -> UndoView {
    if u.group_ends[u.current] - u.group_ends[u.current - 1] > 0 {
        UndoView {
            history: u.history,
            group_ends: u.group_ends.push(u.history.len() as usize),
            current: u.group_ends.len() as int,
        }
    } else {
        u
    }
}

/// The edits of the current group.
pub open spec fn current_group(u: UndoView) -> Seq<Edit> {
    u.history.subrange(u.group_ends[u.current - 1] as int, u.group_ends[u.current] as int)
}

impl Undo {
    /// Groups start at 0, follow each other, the current one is the last,
    /// and it ends with the history.
    pub open spec fn wf(&self) -> bool {
        &&& self@.group_ends.len() >= 2
        &&& self@.current == self@.group_ends.len() - 1
        &&& self@.group_ends[0] == 0
        &&& forall|i: int, j: int| 0 <= i <= j < self@.group_ends.len() ==> self@.group_ends[i] <= self@.group_ends[j]
        &&& self@.group_ends[self@.current] == self@.history.len()
    }

    pub fn new() -> (r: Self)
        ensures
            r.wf(),
            r@.history.len() == 0,
            r@.group_ends == seq![0usize, 0usize],
            r@.current == 1,
    {
        let mut group_end_indexes: Vec<usize> = Vec::new();
        group_end_indexes.push(0);
        group_end_indexes.push(0);
        let r = Undo { history: Vec::new(), group_end_indexes, current_group_index: 1 };
        assert(r@.group_ends =~= seq![0usize, 0usize]);
        r
    }

    /// Adds an edit to the current group.
    pub fn push_edit(&mut self, edit: Edit)
        requires
            old(self).wf(),
            old(self)@.history.len() < usize::MAX,
        ensures
            final(self).wf(),
            final(self)@.history == old(self)@.history.push(edit),
            final(self)@.group_ends == old(self)@.group_ends.update(
                old(self)@.current,
                (old(self)@.history.len() + 1) as usize,
            ),
            final(self)@.current == old(self)@.current,
    {
        let end = self.group_end_indexes[self.current_group_index];
        self.history.truncate(end);
        let groups = self.group_end_indexes.len();
        assert(self.current_group_index + 1 == groups);
        self.group_end_indexes.truncate(self.current_group_index + 1);
        self.history.push(edit);
        self.group_end_indexes.set(self.current_group_index, end + 1);
        proof {
            assert(self.group_end_indexes@ =~= old(self)@.group_ends.update(
                old(self)@.current,
                (old(self)@.history.len() + 1) as usize,
            ));
        }
    }

    /// Closes the current group if it holds edits.
    pub fn commit_edits(&mut self)
        requires
            old(self).wf(),
        ensures
            final(self).wf(),
            final(self)@ == committed(old(self)@),
    {
        let current = self.current_group_index;
        let size = self.group_end_indexes[current] - self.group_end_indexes[current - 1];
        if size > 0 {
            self.current_group_index = self.group_end_indexes.len();
            self.group_end_indexes.push(self.history.len());
            assert(self@ =~= committed(old(self)@));
        }
    }

    /// Closes the current group and gives its edits, last first.
    pub fn undo(&mut self) -> (r: Vec<&Edit>)
        requires
            old(self).wf(),
        ensures
            final(self).wf(),
            final(self)@ == committed(old(self)@),
            r@.len() == current_group(committed(old(self)@)).len(),
            forall|i: int| 0 <= i < r@.len() ==> *(#[trigger] r@[i]) == current_group(committed(old(self)@))[r@.len() - 1 - i],
    {
        self.commit_edits();
        let start = self.group_end_indexes[self.current_group_index - 1];
        let end = self.group_end_indexes[self.current_group_index];
        let mut r: Vec<&Edit> = Vec::new();
        let mut i = end;
        while i > start
            invariant
                start <= i <= end,
                end <= self.history.len(),
                start == self@.group_ends[self@.current - 1],
                end == self@.group_ends[self@.current],
                r@.len() == end - i,
                forall|k: int| 0 <= k < r@.len() ==> *(#[trigger] r@[k]) == self@.history[end - 1 - k],
            decreases i,
        {
            r.push(&self.history[i - 1]);
            i = i - 1;
        }
        r
    }

    /// Closes the current group and gives its edits, first first.
    pub fn redo(&mut self) -> (r: Vec<&Edit>)
        requires
            old(self).wf(),
        ensures
            final(self).wf(),
            final(self)@ == committed(old(self)@),
            r@.len() == current_group(committed(old(self)@)).len(),
            forall|i: int| 0 <= i < r@.len() ==> *(#[trigger] r@[i]) == current_group(committed(old(self)@))[i],
    {
        self.commit_edits();
        let start = self.group_end_indexes[self.current_group_index - 1];
        let end = self.group_end_indexes[self.current_group_index];
        let mut r: Vec<&Edit> = Vec::new();
        let mut i = start;
        while i < end
            invariant
                start <= i <= end,
                end <= self.history.len(),
                start == self@.group_ends[self@.current - 1],
                end == self@.group_ends[self@.current],
                r@.len() == i - start,
                forall|k: int| 0 <= k < r@.len() ==> *(#[trigger] r@[k]) == self@.history[start + k],
            decreases end - i,
        {
            r.push(&self.history[i]);
            i = i + 1;
        }
        r
    }
}

/// Closing the current group a second time changes nothing, so `redo`
/// right after `undo` gives the same edits, in the opposite order.
pub proof fn lemma_commit_twice(undo: &Undo)
    requires
        undo.wf(),
    ensures
        committed(committed(undo@)) == committed(undo@),
{
}

} // verus!
