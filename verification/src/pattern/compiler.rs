//! Compiles the text of a pattern into the ops run by the pattern machine.

use vstd::prelude::*;
use crate::pattern::{string_ops_valid, valid_string_op, Jump, Length, Op, PatternErrorKind, OP_STRING_LEN};
use crate::pattern::alternatives::{
    alt_start, alt_tail, alt_tests, alts_ok, alts_stage, done_blocks, done_len, is_alts_program, lemma_alt_next,
    lemma_alt_tests_ok, lemma_alts_char_step, lemma_alts_nonempty, lemma_alts_other_step, lemma_alts_stage_start,
    lemma_alts_unwind_step, lemma_char_tests_alts, lemma_done_len, lemma_done_push, parsed_alts, AltsState,
};
use crate::pattern::single_chars::{
    ascii_tests, first_jump_dropped, first_unit_len, is_tests_program, lemma_char_tests_ascii, lemma_collapse_unit,
    lemma_drop_error_jump, lemma_drop_first_jump, lemma_drop_last_jump, lemma_single_unit, parsed_program,
    tests_stage, tests_start,
};
use crate::text::{byte_len, char_bytes, char_len_utf8, encode_char, lemma_byte_len_push, lemma_encode_push};
use vstd::utf8::encode_utf8;

verus! {

/// Longest pattern (in chars) that the compiler accepts. It emits at most
/// eight ops per char read, plus eight, and every op index must fit in the
/// `u16` of a jump: `8 * 8190 + 8` is the most below `0x10000`.
pub const MAX_PATTERN_LEN: usize = 8190;

/// Where a jump goes: to an absolute op index, or relative to the end of
/// the ops emitted so far.
#[derive(Clone, Copy)]
pub enum JumpFrom {
    Beginning(Jump),
    End(Jump),
}

pub open spec fn small_end(j: JumpFrom) -> bool {
    match j {
        JumpFrom::End(x) => x.0 <= 2,
        JumpFrom::Beginning(_) => true,
    }
}

/// A group's element length so far.
pub open spec fn opt_len(len: Option<Length>) -> Option<int> {
    match len {
        Some(l) => Some(l.0 as int),
        None => None,
    }
}

/// A char that `%` can escape: a class letter or a special char.
pub open spec fn escapable(e: char) -> bool {
    e == 'a' || e == 'l' || e == 'u' || e == 'd' || e == 'w' || e == '%' || e == '$' || e == '.'
        || e == '!' || e == '(' || e == ')' || e == '[' || e == ']' || e == '{' || e == '}' || e == '|'
}

/// A char with a meaning in patterns that must be escaped to stand for itself.
pub open spec fn special(c: char) -> bool {
    c == '!' || c == '(' || c == ')' || c == '[' || c == ']' || c == '{' || c == '}' || c == '|'
}

/// A char that stands for itself in a pattern.
pub open spec fn plain(c: char) -> bool {
    !special(c) && c != '%' && c != '$' && c != '.'
}

/// A test of one char: that char itself, any char, or a class of chars.
#[derive(Clone, Copy)]
pub enum CharTest {
    Lit(char),
    Any,
    Alpha,
    Lower,
    Upper,
    Digit,
    Alnum,
}

/// The single char test that the char `c` just read starts, `i` chars of
/// `t` read, and how many more chars it takes (an escape takes one more).
pub open spec fn first_test(t: Seq<char>, i: int, c: char) -> Option<(CharTest, int)> {
    if c == '%' {
        if 0 <= i < t.len() {
            let e = t[i];
            if e == 'a' {
                Some((CharTest::Alpha, 1))
            } else if e == 'l' {
                Some((CharTest::Lower, 1))
            } else if e == 'u' {
                Some((CharTest::Upper, 1))
            } else if e == 'd' {
                Some((CharTest::Digit, 1))
            } else if e == 'w' {
                Some((CharTest::Alnum, 1))
            } else if escapable(e) {
                Some((CharTest::Lit(e), 1))
            } else {
                None
            }
        } else {
            None
        }
    } else if c == '.' {
        Some((CharTest::Any, 0))
    } else if plain(c) && (c as u32) < 0x80 {
        Some((CharTest::Lit(c), 0))
    } else {
        None
    }
}

/// The tests that `t` stands for when it is a sequence of single char
/// tests of ASCII chars (and `None` otherwise).
pub open spec fn char_tests(t: Seq<char>) -> Option<Seq<CharTest>>
    decreases t.len(),
{
    if t.len() == 0 {
        Some(Seq::empty())
    } else {
        match first_test(t, 1, t[0]) {
            Some((test, w)) => if 0 <= w && 1 + w <= t.len() {
                match char_tests(t.skip(1 + w)) {
                    Some(rest) => Some(seq![test] + rest),
                    None => None,
                }
            } else {
                None
            },
            None => None,
        }
    }
}

/// The op of a test that goes to op `okj` when it passes and to op `erj` otherwise.
pub open spec fn test_op(test: CharTest, okj: Jump, erj: Jump) -> Op {
    match test {
        CharTest::Lit(c) => Op::Char(okj, erj, c),
        CharTest::Any => Op::SkipOne(okj, erj),
        CharTest::Alpha => Op::Alphabetic(okj, erj),
        CharTest::Lower => Op::Lower(okj, erj),
        CharTest::Upper => Op::Upper(okj, erj),
        CharTest::Digit => Op::Digit(okj, erj),
        CharTest::Alnum => Op::Alphanumeric(okj, erj),
    }
}

/// Where a jump given from the start or from the end of `len` ops goes.
pub open spec fn spec_absolute(jump: JumpFrom, len: int) -> Jump {
    match jump {
        JumpFrom::Beginning(j) => j,
        JumpFrom::End(j) => Jump((j.0 + len + 1) as u16),
    }
}

/// The ops of the tests `ts` emitted from op `at` on: each goes to the next
/// op when it passes and to op `erj` otherwise.
pub open spec fn tests_ops(at: int, erj: int, ts: Seq<CharTest>) -> Seq<Op>
    decreases ts.len(),
{
    if ts.len() == 0 {
        Seq::empty()
    } else {
        tests_ops(at, erj, ts.drop_last()).push(test_op(ts.last(), Jump((at + ts.len()) as u16), Jump(erj as u16)))
    }
}

/// The ops of a sequence of tests, one by one.
pub proof fn lemma_tests_ops(at: int, erj: int, ts: Seq<CharTest>)
    ensures
        tests_ops(at, erj, ts).len() == ts.len(),
        forall|i: int| 0 <= i < ts.len() ==> #[trigger] tests_ops(at, erj, ts)[i] == test_op(
            ts[i],
            Jump((at + i + 1) as u16),
            Jump(erj as u16),
        ),
    decreases ts.len(),
{
    if ts.len() > 0 {
        lemma_tests_ops(at, erj, ts.drop_last());
    }
}

/// A pattern stands for at most as many tests as it has chars.
pub proof fn lemma_char_tests_len(t: Seq<char>)
    requires
        char_tests(t) is Some,
    ensures
        char_tests(t)->0.len() <= t.len(),
    decreases t.len(),
{
    if t.len() > 0 {
        let (test, w) = first_test(t, 1, t[0])->0;
        lemma_char_tests_len(t.skip(1 + w));
    }
}

/// What parsing a sequence of tests emits after `base` ops: the jump to the
/// first test, the jump to the error op taken when a test fails, the tests,
/// and the jump to the accepting op.
pub open spec fn parsed_tests(base: int, ts: Seq<CharTest>) -> Seq<Op> {
    seq![Op::Unwind(Jump((base + 2) as u16), Length(0)), Op::Unwind(Jump(0), Length(0))] + tests_ops(
        base + 2,
        base + 1,
        ts,
    ) + seq![Op::Unwind(Jump(1), Length(0))]
}

/// A single char class whose first char `c` was just read, `i` chars of
/// `t` read: the number of chars it matches and the chars read after it.
pub open spec fn grammar_class(t: Seq<char>, i: int, c: char) -> Result<(int, int), PatternErrorKind> {
    if c == '%' {
        if i < 0 || i >= t.len() {
            Err(PatternErrorKind::UnexpectedEndOfPattern)
        } else if escapable(t[i]) {
            Ok((1, i + 1))
        } else {
            Err(PatternErrorKind::InvalidEscaping(t[i]))
        }
    } else if c == '$' {
        Ok((0, i))
    } else if special(c) {
        Err(PatternErrorKind::Unescaped(c))
    } else {
        Ok((1, i))
    }
}

/// An expression whose first char `c` was just read: a sequence `(..)`, a
/// group `[..]` or a class.
pub open spec fn grammar_expr(t: Seq<char>, i: int, c: char) -> Result<(int, int), PatternErrorKind>
    decreases t.len() - i, 2int,
{
    if c == '(' {
        grammar_sequence(t, i)
    } else if c == '[' {
        grammar_group(t, i)
    } else {
        grammar_class(t, i, c)
    }
}

/// A sequence after its `(`: an optional `!`, then expressions up to `)`;
/// its length is the sum of theirs.
pub open spec fn grammar_sequence(t: Seq<char>, i: int) -> Result<(int, int), PatternErrorKind>
    decreases t.len() - i, 1int,
{
    if i < 0 || i >= t.len() {
        Err(PatternErrorKind::UnexpectedEndOfPattern)
    } else if t[i] == '!' {
        grammar_sequence_items(t, i + 1, 0)
    } else {
        grammar_sequence_items(t, i, 0)
    }
}

pub open spec fn grammar_sequence_items(t: Seq<char>, j: int, len: int) -> Result<(int, int), PatternErrorKind>
    decreases t.len() - j, 0int,
{
    if j < 0 || j >= t.len() {
        Err(PatternErrorKind::UnexpectedEndOfPattern)
    } else if t[j] == ')' {
        Ok((len, j + 1))
    } else {
        match grammar_expr(t, j + 1, t[j]) {
            Err(e) => Err(e),
            Ok((l, k)) => if j < k <= t.len() {
                grammar_sequence_items(t, k, len + l)
            } else {
                Err(PatternErrorKind::UnexpectedEndOfPattern)
            },
        }
    }
}

/// A group after its `[`: an optional `!`, then expressions of one length
/// up to `]`, at least one.
pub open spec fn grammar_group(t: Seq<char>, i: int) -> Result<(int, int), PatternErrorKind>
    decreases t.len() - i, 1int,
{
    if i < 0 || i >= t.len() {
        Err(PatternErrorKind::UnexpectedEndOfPattern)
    } else if t[i] == '!' {
        grammar_group_items(t, i + 1, None)
    } else {
        grammar_group_items(t, i, None)
    }
}

pub open spec fn grammar_group_items(t: Seq<char>, j: int, len: Option<int>) -> Result<(int, int), PatternErrorKind>
    decreases t.len() - j, 0int,
{
    if j < 0 || j >= t.len() {
        Err(PatternErrorKind::UnexpectedEndOfPattern)
    } else if t[j] == ']' {
        match len {
            None => Err(PatternErrorKind::EmptyGroup),
            Some(l) => Ok((l, j + 1)),
        }
    } else {
        match grammar_expr(t, j + 1, t[j]) {
            Err(e) => Err(e),
            Ok((l, k)) => if len is Some && len.unwrap() != l {
                Err(PatternErrorKind::GroupWithElementsOfDifferentSize)
            } else if j < k <= t.len() {
                grammar_group_items(t, k, Some(l))
            } else {
                Err(PatternErrorKind::UnexpectedEndOfPattern)
            },
        }
    }
}

/// A repetition after its `{`: expressions, each cancelling the repetition
/// when preceded by `!`, up to `}`; the chars read after it.
pub open spec fn grammar_repeat(t: Seq<char>, j: int) -> Result<int, PatternErrorKind>
    decreases t.len() - j,
{
    if j < 0 || j >= t.len() {
        Err(PatternErrorKind::UnexpectedEndOfPattern)
    } else if t[j] == '}' {
        Ok(j + 1)
    } else {
        let (c, i) = if t[j] == '!' {
            (if j + 1 < t.len() { t[j + 1] } else { '\0' }, j + 2)
        } else {
            (t[j], j + 1)
        };
        if t[j] == '!' && j + 1 >= t.len() {
            Err(PatternErrorKind::UnexpectedEndOfPattern)
        } else {
            match grammar_expr(t, i, c) {
                Err(e) => Err(e),
                Ok((_, k)) => if j < k <= t.len() {
                    grammar_repeat(t, k)
                } else {
                    Err(PatternErrorKind::UnexpectedEndOfPattern)
                },
            }
        }
    }
}

/// A statement whose first char `c` was just read: a repetition or an expression.
pub open spec fn grammar_stmt(t: Seq<char>, i: int, c: char) -> Result<int, PatternErrorKind> {
    if c == '{' {
        grammar_repeat(t, i)
    } else {
        match grammar_expr(t, i, c) {
            Err(e) => Err(e),
            Ok((_, k)) => Ok(k),
        }
    }
}

/// The statements of `t` from char `j` on, a `|` starting another subpattern.
pub open spec fn grammar_statements(t: Seq<char>, j: int) -> Result<(), PatternErrorKind>
    decreases t.len() - j,
{
    if j < 0 || j >= t.len() {
        Ok(())
    } else {
        let (c, i) = if t[j] == '|' {
            (if j + 1 < t.len() { t[j + 1] } else { '\0' }, j + 2)
        } else {
            (t[j], j + 1)
        };
        if t[j] == '|' && j + 1 >= t.len() {
            Err(PatternErrorKind::UnexpectedEndOfPattern)
        } else {
            match grammar_stmt(t, i, c) {
                Err(e) => Err(e),
                Ok(k) => if j < k <= t.len() {
                    grammar_statements(t, k)
                } else {
                    Err(PatternErrorKind::UnexpectedEndOfPattern)
                },
            }
        }
    }
}

/// Whether `t` is a well-formed pattern, or the first error met reading it.
pub open spec fn pattern_syntax(t: Seq<char>) -> Result<(), PatternErrorKind> {
    if t.len() == 0 {
        Ok(())
    } else {
        match grammar_stmt(t, 1, t[0]) {
            Err(e) => Err(e),
            Ok(k) => if 0 < k <= t.len() {
                grammar_statements(t, k)
            } else {
                Err(PatternErrorKind::UnexpectedEndOfPattern)
            },
        }
    }
}

pub struct PatternCompiler {
    pub text: Vec<char>,
    pub index: usize,
    pub current_char: char,
    pub start_jump: Jump,
    pub ops: Vec<Op>,
}

impl PatternCompiler {
    /// The compiler's bookkeeping: the pattern is short enough and the number
    /// of ops stays proportional to the chars read.
    pub open spec fn inv(&self) -> bool {
        &&& self.text.len() <= MAX_PATTERN_LEN
        &&& self.index <= self.text.len()
        &&& self.ops.len() <= 8 * self.index + 8
        &&& no_string_ops(self.ops@)
    }

    /// Index of an op already emitted.
    pub open spec fn emitted(&self, j: Jump) -> bool {
        j.0 < self.ops.len()
    }

    /// Ops that may still be emitted before the budget of the chars read is spent.
    pub open spec fn room(&self) -> int {
        8 * self.index - self.ops.len()
    }

    /// `self` came from `old` by reading on and emitting more ops.
    pub open spec fn follows(&self, old: &Self) -> bool {
        &&& self.inv()
        &&& self.text@ == old.text@
        &&& self.index >= old.index
        &&& self.ops.len() >= old.ops.len()
        &&& starts_with_stops(old.ops@) ==> starts_with_stops(self.ops@)
    }

    pub fn new(ops: Vec<Op>, text: &str) -> (r: Self)
        ensures
            r.text@ == text@,
            r.index == 0,
            r.ops@.len() == 0,
            r.start_jump == Jump(2),
            r.current_char == '\0',
    {
        let mut ops = ops;
        ops.clear();
        Self {
            text: crate::text::str_to_chars(text),
            index: 0,
            current_char: '\0',
            start_jump: Jump(2),
            ops,
        }
    }

    /// Emits `op` after the ops so far.
    fn push_op(&mut self, op: Op)
        ensures
            final(self).ops@ == old(self).ops@.push(op),
            final(self).text == old(self).text,
            final(self).index == old(self).index,
            final(self).current_char == old(self).current_char,
            final(self).start_jump == old(self).start_jump,
            no_string_ops(old(self).ops@) && !is_string_op(op) ==> no_string_ops(final(self).ops@),
    {
        self.ops.push(op);
        proof {
            if no_string_ops(old(self).ops@) && !is_string_op(op) {
                assert forall|k: int| 0 <= k < self.ops@.len() implies !is_string_op(#[trigger] self.ops@[k]) by {
                    if k < old(self).ops@.len() {
                        assert(self.ops@[k] == old(self).ops@[k]);
                    }
                }
            }
        }
    }

    /// Replaces the op at `k` by `op`.
    fn set_op(&mut self, k: usize, op: Op)
        requires
            k < old(self).ops.len(),
        ensures
            final(self).ops@ == old(self).ops@.update(k as int, op),
            final(self).text == old(self).text,
            final(self).index == old(self).index,
            final(self).current_char == old(self).current_char,
            final(self).start_jump == old(self).start_jump,
            no_string_ops(old(self).ops@) && !is_string_op(op) ==> no_string_ops(final(self).ops@),
    {
        self.ops.set(k, op);
        proof {
            if no_string_ops(old(self).ops@) && !is_string_op(op) {
                assert forall|m: int| 0 <= m < self.ops@.len() implies !is_string_op(#[trigger] self.ops@[m]) by {
                    if m != k {
                        assert(self.ops@[m] == old(self).ops@[m]);
                    }
                }
            }
        }
    }

    fn assert_current(&self, c: char) -> (r: Result<(), PatternErrorKind>)
        ensures
            r == (if self.current_char == c {
                Ok::<(), PatternErrorKind>(())
            } else {
                Err(PatternErrorKind::Expected(c))
            }),
    {
        if self.current_char == c {
            Ok(())
        } else {
            Err(PatternErrorKind::Expected(c))
        }
    }

    fn next(&mut self) -> (r: Result<char, PatternErrorKind>)
        ensures
            final(self).text == old(self).text,
            final(self).ops == old(self).ops,
            final(self).start_jump == old(self).start_jump,
            old(self).index < old(self).text.len() ==> {
                &&& r == Ok::<char, PatternErrorKind>(old(self).text@[old(self).index as int])
                &&& final(self).index == old(self).index + 1
                &&& final(self).current_char == old(self).text@[old(self).index as int]
            },
            old(self).index >= old(self).text.len() ==> {
                &&& r == Err::<char, PatternErrorKind>(PatternErrorKind::UnexpectedEndOfPattern)
                &&& final(self).index == old(self).index
                &&& final(self).current_char == old(self).current_char
            },
    {
        if self.index < self.text.len() {
            let c = self.text[self.index];
            self.index = self.index + 1;
            self.current_char = c;
            Ok(c)
        } else {
            Err(PatternErrorKind::UnexpectedEndOfPattern)
        }
    }

    fn next_is(&mut self, c: char) -> (r: Result<bool, PatternErrorKind>)
        ensures
            final(self).text == old(self).text,
            final(self).ops == old(self).ops,
            final(self).start_jump == old(self).start_jump,
            old(self).index < old(self).text.len() ==> {
                &&& r == Ok::<bool, PatternErrorKind>(old(self).text@[old(self).index as int] == c)
                &&& final(self).index == old(self).index + 1
                &&& final(self).current_char == old(self).text@[old(self).index as int]
            },
            old(self).index >= old(self).text.len() ==> {
                &&& r == Err::<bool, PatternErrorKind>(PatternErrorKind::UnexpectedEndOfPattern)
                &&& final(self).index == old(self).index
                &&& final(self).current_char == old(self).current_char
            },
    {
        match self.next() {
            Ok(ch) => Ok(ch == c),
            Err(e) => Err(e),
        }
    }

    fn get_absolute_jump(&mut self, jump: JumpFrom) -> (r: Jump)
        requires
            old(self).inv(),
            old(self).room() >= -6,
        ensures
            final(self).follows(old(self)),
            final(self).index == old(self).index,
            final(self).current_char == old(self).current_char,
            final(self).start_jump == old(self).start_jump,
            final(self).ops.len() <= old(self).ops.len() + 2,
            jump is End ==> final(self).emitted(r),
            jump is Beginning ==> r == jump->Beginning_0 && final(self).ops@ == old(self).ops@,
    {
        match jump {
            JumpFrom::Beginning(jump) => jump,
            JumpFrom::End(_) => {
                let jump = Jump((self.ops.len() + 2) as u16);
                self.push_op(Op::Unwind(jump, Length(0)));
                let jump = Jump(self.ops.len() as u16);
                self.push_op(Op::Unwind(jump, Length(0)));
                jump
            },
        }
    }

    fn patch_unwind_jump(&mut self, jump: JumpFrom, unwind_jump: Jump)
        requires
            old(self).inv(),
            small_end(jump),
        ensures
            final(self).text == old(self).text,
            final(self).index == old(self).index,
            final(self).current_char == old(self).current_char,
            final(self).start_jump == old(self).start_jump,
            final(self).ops.len() == old(self).ops.len(),
            no_string_ops(final(self).ops@),
            final(self).ops@ == (if jump is End && unwind_jump.0 < old(self).ops.len() && old(self).ops@[unwind_jump.0 as int]
                is Unwind && old(self).ops@[unwind_jump.0 as int]->Unwind_1 == Length(0) {
                old(self).ops@.update(
                    unwind_jump.0 as int,
                    Op::Unwind(Jump((jump->End_0.0 + old(self).ops.len()) as u16), Length(0)),
                )
            } else {
                old(self).ops@
            }),
    {
        if let JumpFrom::End(j) = jump {
            let target = Jump(j.0 + self.ops.len() as u16);
            let k = unwind_jump.0 as usize;
            if k < self.ops.len() {
                if let Op::Unwind(_, Length(0)) = self.ops[k] {
                    self.set_op(k, Op::Unwind(target, Length(0)));
                }
            }
        }
    }

    fn jump_at_end(&mut self, jump: JumpFrom)
        requires
            old(self).inv(),
            old(self).room() >= -7,
            small_end(jump),
        ensures
            final(self).follows(old(self)),
            final(self).index == old(self).index,
            final(self).current_char == old(self).current_char,
            final(self).start_jump == old(self).start_jump,
            final(self).ops.len() <= old(self).ops.len() + 1,
            final(self).ops@ == match jump {
                JumpFrom::Beginning(j) => old(self).ops@.push(Op::Unwind(j, Length(0))),
                JumpFrom::End(j) => if j.0 == 0 {
                    old(self).ops@
                } else {
                    old(self).ops@.push(Op::Unwind(Jump((j.0 + old(self).ops.len() + 1) as u16), Length(0)))
                },
            },
    {
        match jump {
            JumpFrom::Beginning(j) => self.push_op(Op::Unwind(j, Length(0))),
            JumpFrom::End(Jump(0)) => {},
            JumpFrom::End(j) => {
                let target = Jump(j.0 + (self.ops.len() + 1) as u16);
                self.push_op(Op::Unwind(target, Length(0)));
            },
        }
    }

    fn skip(&mut self, okj: Jump, erj: Jump, len: Length)
        requires
            old(self).inv(),
            old(self).room() >= -7,
        ensures
            final(self).follows(old(self)),
            final(self).index == old(self).index,
            final(self).current_char == old(self).current_char,
            final(self).start_jump == old(self).start_jump,
            final(self).ops.len() == old(self).ops.len() + 1,
    {
        match len {
            Length(0) => self.push_op(Op::Unwind(okj, Length(0))),
            Length(1) => self.push_op(Op::SkipOne(okj, erj)),
            _ => self.push_op(Op::SkipMany(okj, erj, len)),
        }
    }

    fn absolute(&self, jump: JumpFrom) -> (r: Jump)
        requires
            self.inv(),
            small_end(jump),
        ensures
            r == spec_absolute(jump, self.ops.len() as int),
    {
        match jump {
            JumpFrom::Beginning(j) => j,
            JumpFrom::End(j) => Jump(j.0 + self.ops.len() as u16 + 1),
        }
    }

    fn parse_class_expr(&mut self, okj: JumpFrom, erj: JumpFrom) -> (r: Result<Length, PatternErrorKind>)
        requires
            old(self).inv(),
            old(self).room() >= 0,
            small_end(okj),
            small_end(erj),
        ensures
            final(self).follows(old(self)),
            final(self).start_jump == old(self).start_jump,
            r is Ok ==> final(self).room() >= old(self).room() - 1,
            r matches Ok(l) ==> l.0 <= final(self).index - old(self).index + 1,
            r matches Ok(l) ==> grammar_class(old(self).text@, old(self).index as int, old(self).current_char)
                == Ok::<(int, int), PatternErrorKind>((l.0 as int, final(self).index as int)),
            r matches Err(e) ==> grammar_class(old(self).text@, old(self).index as int, old(self).current_char)
                == Err::<(int, int), PatternErrorKind>(e),
            first_test(old(self).text@, old(self).index as int, old(self).current_char) matches Some((test, w)) ==> {
                &&& r == Ok::<Length, PatternErrorKind>(Length(1))
                &&& final(self).index == old(self).index + w
                &&& final(self).ops@ == old(self).ops@.push(
                    test_op(
                        test,
                        spec_absolute(okj, old(self).ops.len() as int),
                        spec_absolute(erj, old(self).ops.len() as int),
                    ),
                )
            },
    {
        let okj = self.absolute(okj);
        let erj = self.absolute(erj);
        let op = match self.current_char {
            '%' => match self.next()? {
                'a' => Op::Alphabetic(okj, erj),
                'l' => Op::Lower(okj, erj),
                'u' => Op::Upper(okj, erj),
                'd' => Op::Digit(okj, erj),
                'w' => Op::Alphanumeric(okj, erj),
                '%' => Op::Char(okj, erj, '%'),
                '$' => Op::Char(okj, erj, '$'),
                '.' => Op::Char(okj, erj, '.'),
                '!' => Op::Char(okj, erj, '!'),
                '(' => Op::Char(okj, erj, '('),
                ')' => Op::Char(okj, erj, ')'),
                '[' => Op::Char(okj, erj, '['),
                ']' => Op::Char(okj, erj, ']'),
                '{' => Op::Char(okj, erj, '{'),
                '}' => Op::Char(okj, erj, '}'),
                '|' => Op::Char(okj, erj, '|'),
                c => return Err(PatternErrorKind::InvalidEscaping(c)),
            },
            '$' => {
                self.push_op(Op::EndAnchor(okj, erj));
                return Ok(Length(0));
            },
            '.' => Op::SkipOne(okj, erj),
            '!' => return Err(PatternErrorKind::Unescaped('!')),
            '(' => return Err(PatternErrorKind::Unescaped('(')),
            ')' => return Err(PatternErrorKind::Unescaped(')')),
            '[' => return Err(PatternErrorKind::Unescaped('[')),
            ']' => return Err(PatternErrorKind::Unescaped(']')),
            '{' => return Err(PatternErrorKind::Unescaped('{')),
            '}' => return Err(PatternErrorKind::Unescaped('}')),
            '|' => return Err(PatternErrorKind::Unescaped('|')),
            c => Op::Char(okj, erj, c),
        };
        self.push_op(op);
        Ok(Length(1))
    }

    fn parse_expr(&mut self, okj: JumpFrom, erj: JumpFrom) -> (r: Result<Length, PatternErrorKind>)
        requires
            old(self).inv(),
            old(self).room() >= 0,
            small_end(okj),
            small_end(erj),
        ensures
            final(self).follows(old(self)),
            final(self).start_jump == old(self).start_jump,
            r is Ok ==> final(self).room() >= old(self).room() - 1,
            r matches Ok(l) ==> l.0 <= final(self).index - old(self).index + 1,
            r matches Ok(l) ==> grammar_expr(old(self).text@, old(self).index as int, old(self).current_char)
                == Ok::<(int, int), PatternErrorKind>((l.0 as int, final(self).index as int)),
            r matches Err(e) ==> grammar_expr(old(self).text@, old(self).index as int, old(self).current_char)
                == Err::<(int, int), PatternErrorKind>(e),
            first_test(old(self).text@, old(self).index as int, old(self).current_char) matches Some((test, w)) ==> {
                &&& r == Ok::<Length, PatternErrorKind>(Length(1))
                &&& final(self).index == old(self).index + w
                &&& final(self).ops@ == old(self).ops@.push(
                    test_op(
                        test,
                        spec_absolute(okj, old(self).ops.len() as int),
                        spec_absolute(erj, old(self).ops.len() as int),
                    ),
                )
            },
        decreases old(self).text.len() - old(self).index, 1nat,
    {
        let len = match self.current_char {
            '(' => self.parse_sequence_expr(okj, erj)?,
            '[' => self.parse_group_expr(okj, erj)?,
            _ => self.parse_class_expr(okj, erj)?,
        };
        Ok(len)
    }

    fn parse_sequence_expr(&mut self, okj: JumpFrom, erj: JumpFrom) -> (r: Result<Length, PatternErrorKind>)
        requires
            old(self).inv(),
            old(self).room() >= 0,
            small_end(okj),
            small_end(erj),
        ensures
            final(self).follows(old(self)),
            final(self).start_jump == old(self).start_jump,
            r is Ok ==> final(self).room() >= old(self).room() - 1,
            r matches Ok(l) ==> l.0 <= final(self).index - old(self).index + 1,
            r matches Ok(l) ==> grammar_sequence(old(self).text@, old(self).index as int)
                == Ok::<(int, int), PatternErrorKind>((l.0 as int, final(self).index as int)),
            r matches Err(e) ==> grammar_sequence(old(self).text@, old(self).index as int)
                == Err::<(int, int), PatternErrorKind>(e),
        decreases old(self).text.len() - old(self).index, 0nat,
    {
        let ghost start = *self;
        let previous_state = self.index;
        let mut len = Length(0);
        if self.next()? == '!' {
            let abs_erj = self.get_absolute_jump(erj);
            while !self.next_is(')')?
                invariant
                    start == *old(self),
                    self.follows(&start),
                    self.index >= start.index,
                    self.start_jump == start.start_jump,
                    self.room() >= start.room() - 2,
                    len.0 <= self.index - start.index,
                    small_end(okj),
                    small_end(erj),
                    grammar_sequence(start.text@, start.index as int) == grammar_sequence_items(
                        self.text@,
                        self.index as int,
                        len.0 as int,
                    ),
                decreases self.text.len() - self.index,
            {
                let expr_len = self.parse_expr(JumpFrom::End(Jump(2)), JumpFrom::End(Jump(0)))?;
                let okj2 = Jump((self.ops.len() + 3) as u16);
                let erj2 = Jump((self.ops.len() + 1) as u16);
                self.skip(okj2, erj2, expr_len);
                self.push_op(Op::Unwind(abs_erj, len));
                len = Length(len.0 + expr_len.0);
            }
            self.push_op(Op::Unwind(abs_erj, len));
            self.jump_at_end(okj);
            self.patch_unwind_jump(erj, abs_erj);
        } else {
            self.index = previous_state;
            let abs_erj = self.get_absolute_jump(erj);
            while !self.next_is(')')?
                invariant
                    start == *old(self),
                    self.follows(&start),
                    self.index >= start.index,
                    self.start_jump == start.start_jump,
                    self.room() >= start.room() - 2,
                    len.0 <= self.index - start.index,
                    small_end(okj),
                    small_end(erj),
                    grammar_sequence(start.text@, start.index as int) == grammar_sequence_items(
                        self.text@,
                        self.index as int,
                        len.0 as int,
                    ),
                decreases self.text.len() - self.index,
            {
                let expr_len = self.parse_expr(JumpFrom::End(Jump(1)), JumpFrom::End(Jump(0)))?;
                self.push_op(Op::Unwind(abs_erj, len));
                len = Length(len.0 + expr_len.0);
            }
            self.jump_at_end(okj);
            self.patch_unwind_jump(erj, abs_erj);
        }
        self.assert_current(')')?;
        Ok(len)
    }

    fn parse_group_expr(&mut self, okj: JumpFrom, erj: JumpFrom) -> (r: Result<Length, PatternErrorKind>)
        requires
            old(self).inv(),
            old(self).room() >= 0,
            small_end(okj),
            small_end(erj),
        ensures
            final(self).follows(old(self)),
            final(self).start_jump == old(self).start_jump,
            r is Ok ==> final(self).room() >= old(self).room() - 1,
            r matches Ok(l) ==> l.0 <= final(self).index - old(self).index + 1,
            r matches Ok(l) ==> grammar_group(old(self).text@, old(self).index as int)
                == Ok::<(int, int), PatternErrorKind>((l.0 as int, final(self).index as int)),
            r matches Err(e) ==> grammar_group(old(self).text@, old(self).index as int)
                == Err::<(int, int), PatternErrorKind>(e),
        decreases old(self).text.len() - old(self).index, 0nat,
    {
        let ghost start = *self;
        let previous_state = self.index;
        let mut len: Option<Length> = None;
        if self.next()? == '!' {
            let abs_erj = self.get_absolute_jump(erj);
            while !self.next_is(']')?
                invariant
                    start == *old(self),
                    self.follows(&start),
                    self.index >= start.index,
                    self.start_jump == start.start_jump,
                    self.room() >= start.room() - 2,
                    len matches Some(l) ==> l.0 <= self.index - start.index,
                    small_end(okj),
                    small_end(erj),
                    grammar_group(start.text@, start.index as int) == grammar_group_items(
                        self.text@,
                        self.index as int,
                        opt_len(len),
                    ),
                decreases self.text.len() - self.index,
            {
                let expr_len = self.parse_expr(JumpFrom::End(Jump(0)), JumpFrom::End(Jump(1)))?;
                self.push_op(Op::Unwind(abs_erj, expr_len));
                let previous = match len {
                    Some(l) => l,
                    None => expr_len,
                };
                if previous.0 != expr_len.0 {
                    return Err(PatternErrorKind::GroupWithElementsOfDifferentSize);
                }
                len = Some(expr_len);
            }
            let len = match len {
                Some(l) => l,
                None => return Err(PatternErrorKind::EmptyGroup),
            };
            match okj {
                JumpFrom::Beginning(jump) => self.skip(jump, abs_erj, len),
                JumpFrom::End(jump) => {
                    let jump = Jump(jump.0 + (self.ops.len() + 1) as u16);
                    self.skip(jump, abs_erj, len);
                },
            }
            self.patch_unwind_jump(erj, abs_erj);
            self.assert_current(']')?;
            Ok(len)
        } else {
            self.index = previous_state;
            let abs_okj = self.get_absolute_jump(okj);
            while !self.next_is(']')?
                invariant
                    start == *old(self),
                    self.follows(&start),
                    self.index >= start.index,
                    self.start_jump == start.start_jump,
                    self.room() >= start.room() - 2,
                    len matches Some(l) ==> l.0 <= self.index - start.index,
                    small_end(okj),
                    small_end(erj),
                    grammar_group(start.text@, start.index as int) == grammar_group_items(
                        self.text@,
                        self.index as int,
                        opt_len(len),
                    ),
                decreases self.text.len() - self.index,
            {
                let expr_len = self.parse_expr(JumpFrom::Beginning(abs_okj), JumpFrom::End(Jump(0)))?;
                let previous = match len {
                    Some(l) => l,
                    None => expr_len,
                };
                if previous.0 != expr_len.0 {
                    return Err(PatternErrorKind::GroupWithElementsOfDifferentSize);
                }
                len = Some(expr_len);
            }
            self.jump_at_end(erj);
            self.patch_unwind_jump(okj, abs_okj);
            self.assert_current(']')?;
            match len {
                Some(l) => Ok(l),
                None => Err(PatternErrorKind::EmptyGroup),
            }
        }
    }

    fn parse_repeat_stmt(&mut self, erj: JumpFrom) -> (r: Result<(), PatternErrorKind>)
        requires
            old(self).inv(),
            old(self).room() >= 0,
            small_end(erj),
        ensures
            final(self).follows(old(self)),
            final(self).start_jump == old(self).start_jump,
            r is Ok ==> final(self).room() >= old(self).room() - 1,
            r is Ok ==> grammar_repeat(old(self).text@, old(self).index as int) == Ok::<int, PatternErrorKind>(
                final(self).index as int,
            ),
            r matches Err(e) ==> grammar_repeat(old(self).text@, old(self).index as int) == Err::<int, PatternErrorKind>(e),
        decreases old(self).text.len() - old(self).index, 1nat,
    {
        let ghost start = *self;
        let start_jump = Jump(self.ops.len() as u16);
        let end_jump = self.get_absolute_jump(JumpFrom::End(Jump(0)));
        let mut has_cancel_pattern = false;
        while !self.next_is('}')?
            invariant
                start == *old(self),
                self.follows(&start),
                self.index >= start.index,
                self.start_jump == start.start_jump,
                self.room() >= start.room() - 2,
                small_end(erj),
                grammar_repeat(start.text@, start.index as int) == grammar_repeat(self.text@, self.index as int),
            decreases self.text.len() - self.index,
        {
            match self.current_char {
                '!' => {
                    self.next()?;
                    self.parse_expr(JumpFrom::Beginning(end_jump), JumpFrom::End(Jump(0)))?;
                    has_cancel_pattern = true;
                },
                _ => {
                    self.parse_expr(JumpFrom::Beginning(start_jump), JumpFrom::End(Jump(0)))?;
                },
            }
        }
        if has_cancel_pattern {
            self.jump_at_end(erj);
        }
        self.patch_unwind_jump(JumpFrom::End(Jump(0)), end_jump);
        self.assert_current('}')?;
        Ok(())
    }

    fn parse_stmt(&mut self, erj: JumpFrom) -> (r: Result<(), PatternErrorKind>)
        requires
            old(self).inv(),
            old(self).room() >= 0,
            small_end(erj),
        ensures
            final(self).follows(old(self)),
            final(self).start_jump == old(self).start_jump,
            r is Ok ==> final(self).room() >= old(self).room() - 1,
            r is Ok ==> grammar_stmt(old(self).text@, old(self).index as int, old(self).current_char) == Ok::<
                int,
                PatternErrorKind,
            >(final(self).index as int),
            r matches Err(e) ==> grammar_stmt(old(self).text@, old(self).index as int, old(self).current_char)
                == Err::<int, PatternErrorKind>(e),
            first_test(old(self).text@, old(self).index as int, old(self).current_char) matches Some((test, w)) ==> {
                &&& r is Ok
                &&& final(self).index == old(self).index + w
                &&& final(self).ops@ == old(self).ops@.push(
                    test_op(test, Jump((old(self).ops.len() + 1) as u16), spec_absolute(erj, old(self).ops.len() as int)),
                )
            },
    {
        match self.current_char {
            '{' => self.parse_repeat_stmt(erj),
            _ => match self.parse_expr(JumpFrom::End(Jump(0)), erj) {
                Ok(_) => Ok(()),
                Err(e) => Err(e),
            },
        }
    }

    fn add_reset_jump(&mut self) -> (r: Jump)
        requires
            old(self).inv(),
            old(self).room() >= -6,
        ensures
            final(self).follows(old(self)),
            final(self).index == old(self).index,
            final(self).current_char == old(self).current_char,
            final(self).start_jump == old(self).start_jump,
            final(self).ops.len() == old(self).ops.len() + 2,
            final(self).emitted(r),
            r == Jump((old(self).ops.len() + 1) as u16),
            final(self).ops@ == old(self).ops@.push(Op::Unwind(Jump((old(self).ops.len() + 2) as u16), Length(0))).push(
                Op::Reset(r),
            ),
    {
        let jump = Jump((self.ops.len() + 2) as u16);
        self.push_op(Op::Unwind(jump, Length(0)));
        let jump = Jump(self.ops.len() as u16);
        self.push_op(Op::Reset(jump));
        jump
    }

    fn patch_reset_jump(&mut self, reset_jump: Jump)
        requires
            old(self).inv(),
            old(self).emitted(reset_jump),
        ensures
            final(self).text == old(self).text,
            final(self).index == old(self).index,
            final(self).current_char == old(self).current_char,
            final(self).start_jump == old(self).start_jump,
            final(self).ops.len() == old(self).ops.len(),
            no_string_ops(final(self).ops@),
            !(old(self).ops@[reset_jump.0 as int] is Reset) ==> final(self).ops@ == old(self).ops@,
            old(self).ops@[reset_jump.0 as int] is Reset ==> final(self).ops@ == old(self).ops@.update(
                reset_jump.0 as int,
                Op::Reset(Jump(old(self).ops.len() as u16)),
            ),
    {
        let jump = Jump(self.ops.len() as u16);
        let k = reset_jump.0 as usize;
        if let Op::Reset(_) = self.ops[k] {
            self.set_op(k, Op::Reset(jump));
        }
    }

    #[verifier::spinoff_prover]
    #[verifier::rlimit(80)]
    fn parse_subpatterns(&mut self) -> (r: Result<(), PatternErrorKind>)
        requires
            old(self).inv(),
            old(self).room() >= -2,
            old(self).index == 0,
        ensures
            final(self).follows(old(self)),
            final(self).start_jump == old(self).start_jump,
            r is Ok ==> final(self).index == final(self).text.len(),
            r is Ok ==> pattern_syntax(old(self).text@) is Ok,
            r matches Err(e) ==> pattern_syntax(old(self).text@) == Err::<(), PatternErrorKind>(e),
            alt_tests(old(self).text@) matches Some(alts) ==> r is Ok && final(self).ops@ == old(self).ops@
                + parsed_alts(old(self).ops.len() as int, alts),
            char_tests(old(self).text@) matches Some(ts) ==> r is Ok && final(self).ops@ == old(self).ops@
                + parsed_tests(old(self).ops.len() as int, ts),
    {
        let ghost start = *self;
        let ghost base = self.ops.len() as int;
        let ghost alts = alt_tests(self.text@);
        let ghost mut ai: int = 0;
        let ghost mut k: int = 0;
        let ghost mut bi: int = base;
        let mut reset_jump = self.add_reset_jump();
        proof {
            if let Some(ts) = char_tests(self.text@) {
                lemma_char_tests_alts(self.text@);
            }
        }
        if self.next().is_ok() {
            proof {
                if let Some(a) = alts {
                    lemma_alts_nonempty(self.text@);
                    assert(self.text@.skip(0) =~= self.text@);
                    assert(self.text@[0] != '|');
                    assert(alt_tail(self.text@) == alt_start(self.text@));
                    assert(a =~= seq![a[0]] + a.skip(1));
                    lemma_alt_next(self.text@, 0, a[0], a.skip(1));
                    lemma_tests_ops(base + 2, base + 1, a[0].take(0));
                }
            }
            self.parse_stmt(JumpFrom::Beginning(reset_jump))?;
            proof {
                if let Some(a) = alts {
                    assert(a.take(0) =~= Seq::<Seq<CharTest>>::empty());
                    assert(a[0].take(1).drop_last() =~= a[0].take(0));
                    assert(a[0].take(0) =~= Seq::<CharTest>::empty());
                    assert(self.ops@ =~= start.ops@ + done_blocks(base, a.take(0)) + seq![
                        Op::Unwind(Jump((bi + 2) as u16), Length(0)),
                        Op::Reset(Jump((bi + 1) as u16)),
                    ] + tests_ops(bi + 2, bi + 1, a[0].take(1)));
                    assert(a.skip(ai + 1) =~= a.skip(1));
                    k = 1;
                }
            }
            while self.next().is_ok()
                invariant
                    start == *old(self),
                    self.follows(&start),
                    self.start_jump == start.start_jump,
                    self.room() >= -5,
                    self.emitted(reset_jump),
                    pattern_syntax(start.text@) == grammar_statements(self.text@, self.index as int),
                    base == start.ops.len(),
                    alts == alt_tests(start.text@),
                    starts_with_stops(start.ops@) ==> reset_jump.0 >= 2,
                    char_tests(start.text@) matches Some(ts) ==> alts == Some(seq![ts]),
                    alts matches Some(a) ==> {
                        &&& 0 <= ai < a.len()
                        &&& 1 <= k <= a[ai].len()
                        &&& bi == base + done_len(a.take(ai))
                        &&& reset_jump == Jump((bi + 1) as u16)
                        &&& self.ops@ == start.ops@ + done_blocks(base, a.take(ai)) + seq![
                            Op::Unwind(Jump((bi + 2) as u16), Length(0)),
                            Op::Reset(Jump((bi + 1) as u16)),
                        ] + tests_ops(bi + 2, bi + 1, a[ai].take(k))
                        &&& alt_tail(self.text@.skip(self.index as int)) == Some(seq![a[ai].skip(k)] + a.skip(ai + 1))
                    },
                decreases self.text.len() - self.index,
            {
                let ghost read_at = self.index - 1;
                proof {
                    if let Some(a) = alts {
                        lemma_alt_next(self.text@, read_at, a[ai].skip(k), a.skip(ai + 1));
                        lemma_tests_ops(bi + 2, bi + 1, a[ai].take(k));
                        lemma_done_len(base, a.take(ai));
                    }
                }
                if self.current_char == '|' {
                    self.next()?;
                    self.push_op(Op::Unwind(Jump(1), Length(0)));
                    proof {
                        if let Some(a) = alts {
                            assert(self.ops@[reset_jump.0 as int] == Op::Reset(Jump((bi + 1) as u16)));
                        }
                    }
                    self.patch_reset_jump(reset_jump);
                    reset_jump = self.add_reset_jump();
                    proof {
                        if let Some(a) = alts {
                            let x = a[ai];
                            assert(a[ai].skip(k).len() == 0);
                            assert(x.take(k) =~= x);
                            lemma_done_push(base, a.take(ai), x);
                            assert(a.take(ai).push(x) =~= a.take(ai + 1));
                            assert(a.skip(ai + 1)[0] == a[ai + 1]);
                            assert(a.skip(ai + 1).skip(1) =~= a.skip(ai + 2));
                            assert(self.ops@ =~= start.ops@ + done_blocks(base, a.take(ai + 1)) + seq![
                                Op::Unwind(Jump((bi + 3 + x.len() + 2) as u16), Length(0)),
                                Op::Reset(Jump((bi + 3 + x.len() + 1) as u16)),
                            ] + tests_ops(bi + 3 + x.len() + 2, bi + 3 + x.len() + 1, a[ai + 1].take(0)));
                            bi = bi + 3 + x.len();
                            ai = ai + 1;
                            k = 0;
                            lemma_tests_ops(bi + 2, bi + 1, a[ai].take(0));
                        }
                    }
                }
                self.parse_stmt(JumpFrom::Beginning(reset_jump))?;
                proof {
                    if let Some(a) = alts {
                        assert(a[ai].take(k + 1).drop_last() =~= a[ai].take(k));
                        assert(a[ai].skip(k).skip(1) =~= a[ai].skip(k + 1));
                        assert(self.ops@ =~= start.ops@ + done_blocks(base, a.take(ai)) + seq![
                            Op::Unwind(Jump((bi + 2) as u16), Length(0)),
                            Op::Reset(Jump((bi + 1) as u16)),
                        ] + tests_ops(bi + 2, bi + 1, a[ai].take(k + 1)));
                        k = k + 1;
                    }
                }
            }
        }
        self.push_op(Op::Unwind(Jump(1), Length(0)));
        self.set_op(reset_jump.0 as usize, Op::Unwind(Jump(0), Length(0)));
        proof {
            if let Some(a) = alts {
                let t = self.text@;
                assert(t.skip(t.len() as int) =~= Seq::<char>::empty());
                if t.len() == 0 {
                    assert(a == seq![Seq::<CharTest>::empty()]);
                    assert(a.drop_last() =~= Seq::<Seq<CharTest>>::empty());
                    assert(self.ops@ =~= start.ops@ + parsed_alts(base, a));
                } else {
                    let tail = seq![a[ai].skip(k)] + a.skip(ai + 1);
                    assert(tail == seq![Seq::<CharTest>::empty()]);
                    assert(tail[0] == a[ai].skip(k));
                    assert(tail.skip(1) =~= a.skip(ai + 1));
                    assert(a[ai].skip(k).len() == 0);
                    assert(a.skip(ai + 1).len() == 0);
                    assert(ai == a.len() - 1);
                    assert(a.take(ai) =~= a.drop_last());
                    assert(a[ai].take(k) =~= a.last());
                    lemma_tests_ops(bi + 2, bi + 1, a.last());
                    lemma_done_len(base, a.take(ai));
                    assert(self.ops@ =~= start.ops@ + parsed_alts(base, a));
                }
            }
            if let Some(ts) = char_tests(self.text@) {
                let a = seq![ts];
                assert(a.drop_last() =~= Seq::<Seq<CharTest>>::empty());
                assert(parsed_alts(base, a) =~= parsed_tests(base, ts));
            }
        }
        Ok(())
    }

    /// Drops the op at `index`, a plain jump to `jump`, and redirects every
    /// jump to it.
    fn remove_jump_at(&mut self, index: usize, jump: Jump)
        requires
            index < old(self).ops.len(),
        ensures
            final(self).text == old(self).text,
            final(self).index == old(self).index,
            ({
                let removed = if jump.0 > index { Jump((jump.0 - 1) as u16) } else { jump };
                &&& final(self).ops@ == spec_fix_ops_removed(old(self).ops@.remove(index as int), index as int, removed)
                &&& final(self).start_jump == spec_fix_jump_removed(old(self).start_jump, index as int, removed)
            }),
    {
        self.ops.remove(index);
        let mut jump = jump;
        if jump.0 as usize > index {
            jump = Jump(jump.0 - 1);
        }
        self.start_jump = fix_jump_removed(self.start_jump, index, jump);
        let ghost removed_ops = self.ops@;
        let mut i: usize = 0;
        while i < self.ops.len()
            invariant
                self.text == old(self).text,
                self.index == old(self).index,
                self.start_jump == spec_fix_jump_removed(old(self).start_jump, index as int, jump),
                removed_ops == old(self).ops@.remove(index as int),
                self.ops.len() == removed_ops.len(),
                i <= self.ops.len(),
                forall|k: int| 0 <= k < i ==> self.ops@[k] == spec_map_op_jumps(
                    #[trigger] removed_ops[k],
                    |j: Jump| spec_fix_jump_removed(j, index as int, jump),
                ),
                forall|k: int| i <= k < self.ops.len() ==> self.ops@[k] == removed_ops[k],
            decreases self.ops.len() - i,
        {
            let op = fix_op_removed(self.ops[i], index, jump);
            self.ops.set(i, op);
            i = i + 1;
        }
        assert(self.ops@ =~= spec_fix_ops_removed(removed_ops, index as int, jump));
    }

    /// Replaces a chain of char ops starting at `index` by one string op.
    fn try_collapse_chars_at(&mut self, index: usize) -> (r: bool)
        requires
            index < old(self).ops.len(),
        ensures
            final(self).text == old(self).text,
            final(self).index == old(self).index,
            final(self).ops.len() <= old(self).ops.len(),
            index < final(self).ops.len(),
            r == (old(self).ops@[index as int] is Char && char_collapse_end(old(self).ops@, index as int) > index + 1),
            r ==> ({
                let ops = old(self).ops@;
                let to = char_collapse_end(ops, index as int);
                let chars = op_chars(ops, index as int, to);
                let fix = (byte_len(chars) - 1) as u16;
                &&& collapsed_at(ops, final(self).ops@, index as int, to, op_ok_jump(ops[to - 1]), op_err_jump(ops[index as int]), encode_utf8(chars), fix)
                &&& final(self).start_jump == spec_fix_jump_collapsed(old(self).start_jump, index as int, fix)
            }),
            !r ==> final(self).ops@ == old(self).ops@ && final(self).start_jump == old(self).start_jump,
    {
        let (c, okj0, erj) = match self.ops[index] {
            Op::Char(okj, erj, c) => (c, okj, erj),
            _ => return false,
        };
        let ghost ops = self.ops@;
        let mut okj = okj0;
        let mut bytes: [u8; 10] = [0u8; 10];
        let (cb, w) = encode_char(c);
        let mut k: usize = 0;
        while k < w
            invariant
                1 <= w <= 4,
                k <= w,
                cb@.take(w as int) == char_bytes(c),
                forall|m: int| 0 <= m < k ==> bytes@[m] == cb@[m],
                forall|m: int| k <= m < 10 ==> bytes@[m] == 0,
            decreases w - k,
        {
            bytes[k] = cb[k];
            k = k + 1;
        }
        proof {
            assert(op_chars(ops, index as int, index + 1) =~= seq![c]);
            assert(seq![c] =~= Seq::<char>::empty().push(c));
            lemma_encode_push(Seq::<char>::empty(), c);
            assert(encode_utf8(Seq::<char>::empty()) =~= Seq::<u8>::empty());
            assert(bytes@ =~= padded_bytes(encode_utf8(op_chars(ops, index as int, index + 1))));
        }
        let mut len: usize = w;
        let mut op_index = index + 1;
        while op_index < self.ops.len()
            invariant_except_break
                self.ops@ == ops,
                index < op_index <= ops.len(),
                1 <= len <= 10,
                ops[index as int] == Op::Char(okj0, erj, c),
                len == byte_len(op_chars(ops, index as int, op_index as int)),
                bytes@ == padded_bytes(encode_utf8(op_chars(ops, index as int, op_index as int))),
                char_chain_end(ops, op_index as int, erj, len as int) == char_collapse_end(ops, index as int),
                okj == op_ok_jump(ops[op_index - 1]),
            ensures
                self.ops@ == ops,
                index < op_index <= ops.len(),
                1 <= len <= 10,
                len == byte_len(op_chars(ops, index as int, op_index as int)),
                bytes@ == padded_bytes(encode_utf8(op_chars(ops, index as int, op_index as int))),
                op_index == char_collapse_end(ops, index as int),
                okj == op_ok_jump(ops[op_index - 1]),
            decreases self.ops.len() - op_index,
        {
            let (oj, ej, c) = match self.ops[op_index] {
                Op::Char(oj, ej, c) => (oj, ej, c),
                _ => break,
            };
            if op_index + 1 != oj.0 as usize || erj.0 != ej.0 || len + char_len_utf8(c) > OP_STRING_LEN {
                break;
            }
            let ghost before = op_chars(ops, index as int, op_index as int);
            let (cb, w) = encode_char(c);
            let mut k: usize = 0;
            while k < w
                invariant
                    1 <= w <= 4,
                    k <= w,
                    len + w <= 10,
                    cb@.take(w as int) == char_bytes(c),
                    forall|m: int| 0 <= m < len ==> bytes@[m] == padded_bytes(encode_utf8(before))[m],
                    forall|m: int| len <= m < len + k ==> bytes@[m] == cb@[m - len],
                    forall|m: int| len + k <= m < 10 ==> bytes@[m] == 0,
                decreases w - k,
            {
                bytes[len + k] = cb[k];
                k = k + 1;
            }
            proof {
                assert(op_chars(ops, index as int, op_index + 1) =~= before.push(c));
                lemma_encode_push(before, c);
                lemma_byte_len_push(before, c);
                assert(bytes@ =~= padded_bytes(encode_utf8(op_chars(ops, index as int, op_index + 1))));
            }
            len = len + w;
            okj = oj;
            op_index = op_index + 1;
        }
        let from = index + 1;
        let to = op_index;
        if from == to {
            return false;
        }
        let ghost chars = op_chars(ops, index as int, to as int);
        self.ops.set(index, Op::String(okj, erj, len as u8, bytes));
        remove_range(&mut self.ops, from, to);
        let ghost kept = self.ops@;
        assert(kept =~= ops.take(index + 1).update(index as int, Op::String(okj, erj, len as u8, bytes)) + ops.skip(
            to as int,
        ));
        let fix = (len - 1) as u16;
        self.start_jump = fix_jump_collapsed(self.start_jump, index, fix);
        let mut i: usize = 0;
        while i < self.ops.len()
            invariant
                self.text == old(self).text,
                self.index == old(self).index,
                self.start_jump == spec_fix_jump_collapsed(old(self).start_jump, index as int, fix),
                self.ops.len() == kept.len(),
                index < kept.len(),
                i <= self.ops.len(),
                forall|m: int| 0 <= m < i ==> self.ops@[m] == spec_map_op_jumps(
                    #[trigger] kept[m],
                    |j: Jump| spec_fix_jump_collapsed(j, index as int, fix),
                ),
                forall|m: int| i <= m < self.ops.len() ==> self.ops@[m] == kept[m],
            decreases self.ops.len() - i,
        {
            let op = fix_op_collapsed(self.ops[i], index, fix);
            self.ops.set(i, op);
            i = i + 1;
        }
        assert(self.ops@[index as int] == spec_map_op_jumps(kept[index as int], |j: Jump| spec_fix_jump_collapsed(j, index as int, fix)));
        assert forall|m: int| 0 <= m < kept.len() && m != index implies self.ops@[m] == spec_map_op_jumps(
            #[trigger] (ops.take(index + 1) + ops.skip(to as int))[m],
            |j: Jump| spec_fix_jump_collapsed(j, index as int, fix),
        ) by {
            assert(kept[m] == (ops.take(index + 1) + ops.skip(to as int))[m]);
        }
        true
    }

    /// Replaces a sequence of char tests, each followed by the unwind to the
    /// sequence's failure jump, by one string op.
    fn try_collapse_sequence_at(&mut self, index: usize)
        requires
            index < old(self).ops.len(),
        ensures
            final(self).text == old(self).text,
            final(self).index == old(self).index,
            final(self).ops.len() <= old(self).ops.len(),
            index < final(self).ops.len(),
            ({
                let ops = old(self).ops@;
                let n = sequence_chain_len(ops, index as int, 0, 0);
                let to = index + 2 * n;
                let chars = sequence_chars(ops, index as int, n);
                let fix = (2 * n - 1) as u16;
                if n > 1 {
                    &&& collapsed_at(ops, final(self).ops@, index as int, to, op_ok_jump(ops[to - 2]), op_unwind_jump(ops[to - 1]), encode_utf8(chars), fix)
                    &&& final(self).start_jump == spec_fix_jump_collapsed(old(self).start_jump, index as int, fix)
                } else {
                    final(self).ops@ == ops && final(self).start_jump == old(self).start_jump
                }
            }),
    {
        let ghost ops = self.ops@;
        let mut bytes: [u8; 10] = [0u8; 10];
        let mut len: usize = 0;
        let mut jumps: Option<(Jump, Jump)> = None;
        let mut sequence_len: usize = 0;
        let mut op_index = index;
        proof {
            assert(sequence_chars(ops, index as int, 0) =~= Seq::<char>::empty());
            assert(encode_utf8(Seq::<char>::empty()) =~= Seq::<u8>::empty());
            assert(bytes@ =~= padded_bytes(Seq::<u8>::empty()));
        }
        while self.ops.len() - op_index > 1
            invariant_except_break
                self.ops@ == ops,
                len <= 10,
                index <= op_index <= ops.len(),
                op_index == index + 2 * sequence_len,
                len == byte_len(sequence_chars(ops, index as int, sequence_len as int)),
                bytes@ == padded_bytes(encode_utf8(sequence_chars(ops, index as int, sequence_len as int))),
                sequence_chain_len(ops, op_index as int, sequence_len as int, len as int) == sequence_chain_len(ops, index as int, 0, 0),
                sequence_len > 0 ==> jumps == Some((op_ok_jump(ops[op_index - 2]), op_unwind_jump(ops[op_index - 1]))),
            ensures
                self.ops@ == ops,
                len <= 10,
                index <= op_index <= ops.len(),
                op_index == index + 2 * sequence_len,
                bytes@ == padded_bytes(encode_utf8(sequence_chars(ops, index as int, sequence_len as int))),
                len == byte_len(sequence_chars(ops, index as int, sequence_len as int)),
                sequence_len == sequence_chain_len(ops, index as int, 0, 0),
                sequence_len > 0 ==> jumps == Some((op_ok_jump(ops[op_index - 2]), op_unwind_jump(ops[op_index - 1]))),
            decreases self.ops.len() - op_index,
        {
            let (okj, erj, c) = match self.ops[op_index] {
                Op::Char(okj, erj, c) => (okj, erj, c),
                _ => break,
            };
            if op_index + 2 != okj.0 as usize || op_index + 1 != erj.0 as usize || len
                + char_len_utf8(c) > OP_STRING_LEN {
                break;
            }
            let (jump, count) = match self.ops[op_index + 1] {
                Op::Unwind(jump, count) => (jump, count),
                _ => break,
            };
            if sequence_len != count.0 as usize {
                break;
            }
            let ghost before = sequence_chars(ops, index as int, sequence_len as int);
            let (cb, w) = encode_char(c);
            let mut k: usize = 0;
            while k < w
                invariant
                    1 <= w <= 4,
                    k <= w,
                    len + w <= 10,
                    cb@.take(w as int) == char_bytes(c),
                    forall|m: int| 0 <= m < len ==> bytes@[m] == padded_bytes(encode_utf8(before))[m],
                    forall|m: int| len <= m < len + k ==> bytes@[m] == cb@[m - len],
                    forall|m: int| len + k <= m < 10 ==> bytes@[m] == 0,
                decreases w - k,
            {
                bytes[len + k] = cb[k];
                k = k + 1;
            }
            proof {
                assert(sequence_chars(ops, index as int, sequence_len + 1) =~= before.push(c));
                lemma_encode_push(before, c);
                lemma_byte_len_push(before, c);
                assert(bytes@ =~= padded_bytes(encode_utf8(sequence_chars(ops, index as int, sequence_len + 1))));
            }
            len = len + w;
            jumps = Some((okj, jump));
            sequence_len = sequence_len + 1;
            op_index = op_index + 2;
        }
        if sequence_len <= 1 {
            return;
        }
        let (okj, erj) = match jumps {
            Some(jumps) => jumps,
            None => return,
        };
        self.ops.set(index, Op::String(okj, erj, len as u8, bytes));
        remove_range(&mut self.ops, index + 1, op_index);
        let ghost kept = self.ops@;
        assert(kept =~= ops.take(index + 1).update(index as int, Op::String(okj, erj, len as u8, bytes)) + ops.skip(
            op_index as int,
        ));
        let fix = (sequence_len * 2 - 1) as u16;
        self.start_jump = fix_jump_collapsed(self.start_jump, index, fix);
        let mut i: usize = 0;
        while i < self.ops.len()
            invariant
                self.text == old(self).text,
                self.index == old(self).index,
                self.start_jump == spec_fix_jump_collapsed(old(self).start_jump, index as int, fix),
                self.ops.len() == kept.len(),
                index < kept.len(),
                i <= self.ops.len(),
                forall|m: int| 0 <= m < i ==> self.ops@[m] == spec_map_op_jumps(
                    #[trigger] kept[m],
                    |j: Jump| spec_fix_jump_collapsed(j, index as int, fix),
                ),
                forall|m: int| i <= m < self.ops.len() ==> self.ops@[m] == kept[m],
            decreases self.ops.len() - i,
        {
            let op = fix_op_collapsed(self.ops[i], index, fix);
            self.ops.set(i, op);
            i = i + 1;
        }
        assert(self.ops@[index as int] == spec_map_op_jumps(kept[index as int], |j: Jump| spec_fix_jump_collapsed(j, index as int, fix)));
        assert forall|m: int| 0 <= m < kept.len() && m != index implies self.ops@[m] == spec_map_op_jumps(
            #[trigger] (ops.take(index + 1) + ops.skip(op_index as int))[m],
            |j: Jump| spec_fix_jump_collapsed(j, index as int, fix),
        ) by {
            assert(kept[m] == (ops.take(index + 1) + ops.skip(op_index as int))[m]);
        }
    }

    /// Collapses chains of char tests into string tests and drops every
    /// plain jump, redirecting the jumps to it.
    /// When `tests` holds the single char tests that these ops were parsed
    /// from, the result is the program of those tests.
    fn optimize(&mut self, Ghost(tests): Ghost<Option<Seq<CharTest>>>, Ghost(alts): Ghost<Option<Seq<Seq<CharTest>>>>)
        requires
            tests matches Some(ts) ==> {
                &&& ascii_tests(ts)
                &&& ts.len() <= MAX_PATTERN_LEN
                &&& old(self).ops@ == parsed_program(ts)
                &&& old(self).start_jump == Jump(2)
            },
            tests is Some ==> alts is None,
            alts matches Some(a) ==> {
                &&& alts_ok(a)
                &&& a.len() >= 2
                &&& old(self).ops@ == seq![Op::Error, Op::Accept] + parsed_alts(2, a)
                &&& old(self).ops.len() < 0x10000
                &&& old(self).start_jump == Jump(2)
            },
        ensures
            final(self).text == old(self).text,
            final(self).index == old(self).index,
            final(self).ops.len() <= old(self).ops.len(),
            forall|k: int| 0 <= k < final(self).ops.len() ==> !is_plain_jump(#[trigger] final(self).ops@[k]),
            starts_with_stops(old(self).ops@) ==> starts_with_stops(final(self).ops@),
            string_ops_valid(old(self).ops@) ==> string_ops_valid(final(self).ops@),
            tests matches Some(ts) ==> is_tests_program(final(self).ops@, ts) && final(self).start_jump == Jump(
                tests_start(ts) as u16,
            ),
            alts matches Some(a) ==> is_alts_program(final(self).ops@, a) && final(self).start_jump == Jump(3),
    {
        let ghost mut ast = AltsState { phase: 0, j: 0, done: 0, ud: Seq::empty() };
        proof {
            if let Some(a) = alts {
                lemma_alts_stage_start(self.ops@, a);
            }
        }
        let ghost stops = starts_with_stops(self.ops@);
        let ghost valid = string_ops_valid(self.ops@);
        let ghost mut phase: int = 0;
        let ghost mut done: int = 0;
        let ghost mut ud: Seq<Seq<CharTest>> = Seq::empty();
        let mut i: usize = 0;
        while i < self.ops.len()
            invariant
                self.text == old(self).text,
                self.index == old(self).index,
                self.ops.len() <= old(self).ops.len(),
                i <= self.ops.len(),
                forall|k: int| 0 <= k < i ==> !is_plain_jump(#[trigger] self.ops@[k]),
                stops ==> starts_with_stops(self.ops@),
                valid ==> string_ops_valid(self.ops@),
                tests is Some ==> alts is None,
                alts matches Some(a) ==> alts_stage(self.ops@, self.start_jump, i as int, a, ast),
                tests matches Some(ts) ==> {
                    &&& ascii_tests(ts)
                    &&& ts.len() <= MAX_PATTERN_LEN
                    &&& {
                        ||| (phase == 0 && i <= 2 && self.ops@ == parsed_program(ts) && self.start_jump == Jump(2))
                        ||| (phase == 1 && i == 2 && self.ops@ == first_jump_dropped(ts) && self.start_jump == Jump(3))
                        ||| (phase == 2 && i == 2 + ud.len() as int && tests_stage(self.ops@, ts, done, ud)
                            && self.start_jump == Jump(2))
                        ||| (phase == 3 && i == self.ops.len() && is_tests_program(self.ops@, ts)
                            && self.start_jump == Jump(tests_start(ts) as u16))
                    }
                },
            decreases self.ops.len() - i,
        {
            let ghost before = self.ops@;
            let ghost start_before = self.start_jump;
            proof {
                lemma_map_op_jumps_kind();
            }
            match self.ops[i] {
                Op::Char(_, _, _) => {
                    let collapsed = self.try_collapse_chars_at(i);
                    if !collapsed {
                        self.try_collapse_sequence_at(i);
                    }
                    proof {
                        if collapsed {
                            let to = char_collapse_end(before, i as int);
                            lemma_char_chain_end_bounds(before, i + 1, op_err_jump(before[i as int]), char_bytes(op_char(before[i as int])).len() as int);
                            let chars = op_chars(before, i as int, to);
                            lemma_collapsed_prefix(before, self.ops@, i as int, to, op_ok_jump(before[to - 1]),
                                op_err_jump(before[i as int]), encode_utf8(chars), (byte_len(chars) - 1) as u16);
                            if valid {
                                vstd::utf8::encode_utf8_valid_utf8(chars);
                                lemma_collapsed_valid(before, self.ops@, i as int, to, op_ok_jump(before[to - 1]),
                                    op_err_jump(before[i as int]), encode_utf8(chars), (byte_len(chars) - 1) as u16);
                            }
                        } else if sequence_chain_len(before, i as int, 0, 0) > 1 {
                            let n = sequence_chain_len(before, i as int, 0, 0);
                            lemma_sequence_chain_bounds(before, i as int, 0, 0);
                            let to = i + 2 * n;
                            lemma_collapsed_prefix(before, self.ops@, i as int, to, op_ok_jump(before[to - 2]),
                                op_unwind_jump(before[to - 1]), encode_utf8(sequence_chars(before, i as int, n)),
                                (2 * n - 1) as u16);
                            if valid {
                                vstd::utf8::encode_utf8_valid_utf8(sequence_chars(before, i as int, n));
                                lemma_collapsed_valid(before, self.ops@, i as int, to, op_ok_jump(before[to - 2]),
                                    op_unwind_jump(before[to - 1]), encode_utf8(sequence_chars(before, i as int, n)),
                                    (2 * n - 1) as u16);
                            }
                        }
                        assert forall|k: int| 0 <= k < i implies !is_plain_jump(#[trigger] self.ops@[k]) by {
                            assert(!is_plain_jump(before[k]));
                        }
                        if let Some(ts) = tests {
                            assert(phase == 2);
                            assert(done < ts.len()) by {
                                if done == ts.len() {
                                    assert(before[before.len() - 1] == Op::Unwind(Jump(1), Length(0)));
                                }
                            }
                            let m = first_unit_len(ts.skip(done));
                            if m >= 2 {
                                lemma_collapse_unit(before, self.ops@, ts, done, ud);
                                ud = ud.push(ts.skip(done).take(m));
                                done = done + m;
                            } else {
                                lemma_single_unit(before, ts, done, ud);
                                ud = ud.push(ts.skip(done).take(1));
                                done = done + 1;
                            }
                        }
                    }
                    proof {
                        if let Some(a) = alts {
                            ast = lemma_alts_char_step(before, self.ops@, start_before, self.start_jump, i as int, a, ast, collapsed);
                        }
                    }
                    i = i + 1;
                },
                Op::Unwind(jump, Length(0)) => {
                    self.remove_jump_at(i, jump);
                    proof {
                        if let Some(a) = alts {
                            ast = lemma_alts_unwind_step(before, self.ops@, start_before, self.start_jump, i as int, jump, a, ast);
                        }
                    }
                    proof {
                        if valid {
                            assert forall|k: int| 0 <= k < self.ops@.len() implies valid_string_op(#[trigger] self.ops@[k]) by {
                                assert(valid_string_op(before.remove(i as int)[k]));
                            }
                        }
                        assert forall|k: int| 0 <= k < i implies self.ops@[k] == spec_map_op_jumps(
                            #[trigger] before[k],
                            |j: Jump| spec_fix_jump_removed(j, i as int, if jump.0 > i { Jump((jump.0 - 1) as u16) } else { jump }),
                        ) by {
                            assert(before.remove(i as int)[k] == before[k]);
                        }
                        if let Some(ts) = tests {
                            if phase == 0 {
                                lemma_drop_first_jump(ts);
                                phase = 1;
                            } else if phase == 1 {
                                lemma_drop_error_jump(ts);
                                phase = 2;
                                done = 0;
                                ud = Seq::empty();
                            } else {
                                assert(phase == 2);
                                assert(done == ts.len()) by {
                                    if done < ts.len() {
                                        assert(before[2 + ud.len() as int + 0] == test_op(
                                            ts.skip(done)[0],
                                            Jump((3 + ud.len() as int + 0) as u16),
                                            Jump(0),
                                        ));
                                    }
                                }
                                lemma_drop_last_jump(before, ts, ud);
                                phase = 3;
                            }
                        }
                    }
                },
                _ => {
                    proof {
                        if let Some(a) = alts {
                            ast = lemma_alts_other_step(before, start_before, i as int, a, ast);
                        }
                        if let Some(ts) = tests {
                            if phase == 2 {
                                if done < ts.len() {
                                    assert(before[2 + ud.len() as int + 0] == test_op(
                                        ts.skip(done)[0],
                                        Jump((3 + ud.len() as int + 0) as u16),
                                        Jump(0),
                                    ));
                                    if first_unit_len(ts.skip(done)) == 1 {
                                        lemma_single_unit(before, ts, done, ud);
                                        ud = ud.push(ts.skip(done).take(1));
                                        done = done + 1;
                                    } else {
                                        lemma_collapse_unit(before, before, ts, done, ud);
                                    }
                                } else {
                                    assert(before[before.len() - 1] == Op::Unwind(Jump(1), Length(0)));
                                }
                            }
                        }
                    }
                    i = i + 1;
                },
            }
        }
    }

    /// Compiles the whole pattern; the ops are handed back in both cases.
    pub fn compile(self) -> (r: (Vec<Op>, Result<Jump, PatternErrorKind>))
        requires
            self.inv(),
            self.index == 0,
            self.ops.len() == 0,
            self.start_jump == Jump(2),
        ensures
            r.1 is Ok ==> pattern_syntax(self.text@) is Ok,
            r.1 is Ok ==> forall|k: int| 0 <= k < r.0@.len() ==> !is_plain_jump(#[trigger] r.0@[k]),
            starts_with_stops(r.0@),
            string_ops_valid(r.0@),
            char_tests(self.text@) matches Some(ts) ==> r.1 == Ok::<Jump, PatternErrorKind>(
                Jump(tests_start(ts) as u16),
            ) && is_tests_program(r.0@, ts),
            alt_tests(self.text@) matches Some(a) ==> (a.len() >= 2 ==> r.1 == Ok::<Jump, PatternErrorKind>(Jump(3))
                && is_alts_program(r.0@, a) && alts_ok(a) && r.0@.len() < 0x10000),
            r.1 matches Err(e) ==> pattern_syntax(self.text@) == Err::<(), PatternErrorKind>(e),
    {
        let mut this = self;
        this.push_op(Op::Error);
        this.push_op(Op::Accept);
        let parsed = this.parse_subpatterns();
        proof {
            assert forall|k: int| 0 <= k < this.ops@.len() implies valid_string_op(#[trigger] this.ops@[k]) by {
                assert(!is_string_op(this.ops@[k]));
            }
        }
        match parsed {
            Ok(()) => {},
            Err(e) => return (this.ops, Err(e)),
        }
        let ghost tests = char_tests(this.text@);
        let ghost alts = if alt_tests(this.text@) matches Some(a) && a.len() >= 2 {
            alt_tests(this.text@)
        } else {
            None
        };
        proof {
            if let Some(ts) = tests {
                assert(this.ops@ =~= parsed_program(ts));
                lemma_char_tests_ascii(this.text@);
                lemma_char_tests_len(this.text@);
                lemma_char_tests_alts(this.text@);
            }
            if let Some(a) = alts {
                lemma_alt_tests_ok(this.text@);
                assert(this.ops@ =~= seq![Op::Error, Op::Accept] + parsed_alts(2, a));
            }
        }
        this.optimize(Ghost(tests), Ghost(alts));
        let start_jump = this.start_jump;
        (this.ops, Ok(start_jump))
    }
}

/// The success jump of an op that tests a char (or string).
pub open spec fn op_ok_jump(op: Op) -> Jump {
    match op {
        Op::Char(okj, _, _) => okj,
        Op::String(okj, _, _, _) => okj,
        _ => Jump(0),
    }
}

/// The failure jump of an op that tests a char (or string).
pub open spec fn op_err_jump(op: Op) -> Jump {
    match op {
        Op::Char(_, erj, _) => erj,
        Op::String(_, erj, _, _) => erj,
        _ => Jump(0),
    }
}

/// The char that a char op tests.
pub open spec fn op_char(op: Op) -> char {
    match op {
        Op::Char(_, _, c) => c,
        _ => ' ',
    }
}

/// The chars tested by the char ops `from..to`.
pub open spec fn op_chars(ops: Seq<Op>, from: int, to: int) -> Seq<char> {
    Seq::new((to - from) as nat, |i: int| op_char(ops[from + i]))
}

/// The bytes of a string op: `b`, then zeros.
pub open spec fn padded_bytes(b: Seq<u8>) -> Seq<u8> {
    b + Seq::new((OP_STRING_LEN - b.len()) as nat, |i: int| 0u8)
}

/// Where the chain of char ops from `k` that can join a string ends: each
/// char op of the chain succeeds into the next op, fails to `erj`, and its
/// bytes still fit after the `len` bytes so far.
pub open spec fn char_chain_end(ops: Seq<Op>, k: int, erj: Jump, len: int) -> int
    decreases ops.len() - k,
{
    if 0 <= k < ops.len() {
        match ops[k] {
            Op::Char(oj, ej, c) => if k + 1 == oj.0 && erj.0 == ej.0 && len + char_bytes(c).len() <= OP_STRING_LEN {
                char_chain_end(ops, k + 1, erj, len + char_bytes(c).len())
            } else {
                k
            },
            _ => k,
        }
    } else {
        k
    }
}

/// Where the chain of char ops that a string op at `index` can replace ends.
pub open spec fn char_collapse_end(ops: Seq<Op>, index: int) -> int {
    match ops[index] {
        Op::Char(_, erj, c) => char_chain_end(ops, index + 1, erj, char_bytes(c).len() as int),
        _ => index + 1,
    }
}

/// A string test, with or without case.
pub open spec fn is_string_op(op: Op) -> bool {
    op is String || op is StringCaseInsensitive
}

/// No op tests a string: parsing emits single char tests only.
pub open spec fn no_string_ops(ops: Seq<Op>) -> bool {
    forall|k: int| 0 <= k < ops.len() ==> !is_string_op(#[trigger] ops[k])
}

/// An unwind op that moves back over no char: a plain jump.
pub open spec fn is_plain_jump(op: Op) -> bool {
    op matches Op::Unwind(_, l) && l.0 == 0
}

/// The first op fails and the second accepts.
pub open spec fn starts_with_stops(ops: Seq<Op>) -> bool {
    ops.len() >= 2 && ops[0] is Error && ops[1] is Accept
}

/// Changing the jumps of an op keeps its kind, and the bytes it tests.
proof fn lemma_map_op_jumps_kind()
    ensures
        forall|op: Op, f: spec_fn(Jump) -> Jump| {
            &&& is_plain_jump(#[trigger] spec_map_op_jumps(op, f)) == is_plain_jump(op)
            &&& (spec_map_op_jumps(op, f) is Error <==> op is Error)
            &&& (spec_map_op_jumps(op, f) is Accept <==> op is Accept)
            &&& valid_string_op(spec_map_op_jumps(op, f)) == valid_string_op(op)
        },
{
}

/// Collapsing a chain into a string test of valid UTF-8 keeps every string
/// test valid.
proof fn lemma_collapsed_valid(
    before: Seq<Op>,
    after: Seq<Op>,
    index: int,
    to: int,
    okj: Jump,
    erj: Jump,
    bytes: Seq<u8>,
    fix: u16,
)
    requires
        0 <= index < to <= before.len(),
        collapsed_at(before, after, index, to, okj, erj, bytes, fix),
        string_ops_valid(before),
        vstd::utf8::valid_utf8(bytes),
    ensures
        string_ops_valid(after),
{
    lemma_map_op_jumps_kind();
    let kept = before.take(index + 1) + before.skip(to);
    assert forall|k: int| 0 <= k < after.len() implies valid_string_op(#[trigger] after[k]) by {
        if k != index {
            if k < index + 1 {
                assert(kept[k] == before[k]);
            } else {
                assert(kept[k] == before[k - index - 1 + to]);
            }
            assert(valid_string_op(kept[k]));
        } else {
            if let Op::String(o, e, l, b) = after[index] {
                assert(b@.len() == OP_STRING_LEN);
                assert(b@.take(l as int) =~= bytes);
            }
        }
    }
}

/// A chain of char ops ends within the ops.
proof fn lemma_char_chain_end_bounds(ops: Seq<Op>, k: int, erj: Jump, len: int)
    requires
        0 <= k <= ops.len(),
    ensures
        k <= char_chain_end(ops, k, erj, len) <= ops.len(),
    decreases ops.len() - k,
{
    if k < ops.len() {
        if let Op::Char(oj, ej, c) = ops[k] {
            lemma_char_chain_end_bounds(ops, k + 1, erj, len + char_bytes(c).len());
        }
    }
}

/// A chain of (char test, unwind) pairs ends within the ops.
proof fn lemma_sequence_chain_bounds(ops: Seq<Op>, k: int, n: int, len: int)
    requires
        0 <= k <= ops.len(),
    ensures
        n <= sequence_chain_len(ops, k, n, len),
        k + 2 * (sequence_chain_len(ops, k, n, len) - n) <= ops.len(),
    decreases ops.len() - k,
{
    if k + 1 < ops.len() {
        if let Op::Char(okj, erj, c) = ops[k] {
            lemma_sequence_chain_bounds(ops, k + 2, n + 1, len + char_bytes(c).len());
        }
    }
}

/// The ops before a collapsed chain only had their jumps changed, and the
/// chain became a string test.
pub(crate) proof fn lemma_collapsed_prefix(
    before: Seq<Op>,
    after: Seq<Op>,
    index: int,
    to: int,
    okj: Jump,
    erj: Jump,
    bytes: Seq<u8>,
    fix: u16,
)
    requires
        0 <= index < to <= before.len(),
        collapsed_at(before, after, index, to, okj, erj, bytes, fix),
    ensures
        forall|k: int| 0 <= k < index ==> after[k] == spec_map_op_jumps(
            #[trigger] before[k],
            |j: Jump| spec_fix_jump_collapsed(j, index, fix),
        ),
        after[index] is String,
{
    let kept = before.take(index + 1) + before.skip(to);
    assert forall|k: int| 0 <= k < index implies after[k] == spec_map_op_jumps(
        #[trigger] before[k],
        |j: Jump| spec_fix_jump_collapsed(j, index, fix),
    ) by {
        assert(kept[k] == before[k]);
    }
}

/// The jump of an unwind op.
pub open spec fn op_unwind_jump(op: Op) -> Jump {
    match op {
        Op::Unwind(j, _) => j,
        _ => Jump(0),
    }
}

/// How many (char test, unwind) pairs from op `k` can join a string: each
/// char op succeeds past its pair and fails into its unwind, the unwind goes
/// back over the `n` chars before it, and the bytes still fit after the
/// `len` bytes so far.
pub open spec fn sequence_chain_len(ops: Seq<Op>, k: int, n: int, len: int) -> int
    decreases ops.len() - k,
{
    if 0 <= k && k + 1 < ops.len() {
        match ops[k] {
            Op::Char(okj, erj, c) => match ops[k + 1] {
                Op::Unwind(_, count) => if k + 2 == okj.0 && k + 1 == erj.0 && len + char_bytes(c).len()
                    <= OP_STRING_LEN && count.0 == n {
                    sequence_chain_len(ops, k + 2, n + 1, len + char_bytes(c).len())
                } else {
                    n
                },
                _ => n,
            },
            _ => n,
        }
    } else {
        n
    }
}

/// The chars tested by the first `n` (char test, unwind) pairs from `index`.
pub open spec fn sequence_chars(ops: Seq<Op>, index: int, n: int) -> Seq<char> {
    Seq::new(n as nat, |i: int| op_char(ops[index + 2 * i]))
}

/// `after` is `before` with the ops `index..to` replaced by one string op
/// testing `bytes` (success to `okj`, failure to `erj`), and every jump past
/// `index` moved back by `fix`.
pub open spec fn collapsed_at(
    before: Seq<Op>,
    after: Seq<Op>,
    index: int,
    to: int,
    okj: Jump,
    erj: Jump,
    bytes: Seq<u8>,
    fix: u16,
) -> bool {
    let kept = before.take(index + 1) + before.skip(to);
    let f = |j: Jump| spec_fix_jump_collapsed(j, index, fix);
    &&& after.len() == kept.len()
    &&& forall|k: int| 0 <= k < kept.len() && k != index ==> after[k] == spec_map_op_jumps(#[trigger] kept[k], f)
    &&& after[index] matches Op::String(o, e, l, b) && o == f(okj) && e == f(erj) && l == bytes.len() && b@ == padded_bytes(bytes)
}

/// A jump after removing the plain jump op at `index` that went to `removed`.
pub open spec fn spec_fix_jump_removed(j: Jump, index: int, removed: Jump) -> Jump {
    if j.0 > index {
        Jump((j.0 - 1) as u16)
    } else if j.0 == index {
        removed
    } else {
        j
    }
}

fn fix_jump_removed(j: Jump, index: usize, removed: Jump) -> (r: Jump)
    ensures
        r == spec_fix_jump_removed(j, index as int, removed),
{
    if j.0 as usize > index {
        Jump(j.0 - 1)
    } else if j.0 as usize == index {
        removed
    } else {
        j
    }
}

/// A jump after the ops following `index` were collapsed into it: jumps
/// past `index` move back by `fix`.
pub open spec fn spec_fix_jump_collapsed(j: Jump, index: int, fix: u16) -> Jump {
    if j.0 > index {
        Jump(j.0.wrapping_sub(fix))
    } else {
        j
    }
}

fn fix_jump_collapsed(j: Jump, index: usize, fix: u16) -> (r: Jump)
    ensures
        r == spec_fix_jump_collapsed(j, index as int, fix),
{
    if j.0 as usize > index {
        Jump(j.0.wrapping_sub(fix))
    } else {
        j
    }
}

/// `op` with `f` applied to each of its jumps.
pub open spec fn spec_map_op_jumps(op: Op, f: spec_fn(Jump) -> Jump) -> Op {
    match op {
        Op::Accept => Op::Accept,
        Op::Error => Op::Error,
        Op::Reset(j) => Op::Reset(f(j)),
        Op::Unwind(j, l) => Op::Unwind(f(j), l),
        Op::EndAnchor(okj, erj) => Op::EndAnchor(f(okj), f(erj)),
        Op::SkipOne(okj, erj) => Op::SkipOne(f(okj), f(erj)),
        Op::SkipMany(okj, erj, l) => Op::SkipMany(f(okj), f(erj), l),
        Op::Alphabetic(okj, erj) => Op::Alphabetic(f(okj), f(erj)),
        Op::Lower(okj, erj) => Op::Lower(f(okj), f(erj)),
        Op::Upper(okj, erj) => Op::Upper(f(okj), f(erj)),
        Op::Digit(okj, erj) => Op::Digit(f(okj), f(erj)),
        Op::Alphanumeric(okj, erj) => Op::Alphanumeric(f(okj), f(erj)),
        Op::Char(okj, erj, c) => Op::Char(f(okj), f(erj), c),
        Op::CharCaseInsensitive(okj, erj, c) => Op::CharCaseInsensitive(f(okj), f(erj), c),
        Op::String(okj, erj, l, b) => Op::String(f(okj), f(erj), l, b),
        Op::StringCaseInsensitive(okj, erj, l, b) => Op::StringCaseInsensitive(f(okj), f(erj), l, b),
    }
}

/// The ops after removing the plain jump op at `index` (already dropped
/// from `ops`) that went to `removed`.
pub open spec fn spec_fix_ops_removed(ops: Seq<Op>, index: int, removed: Jump) -> Seq<Op> {
    ops.map_values(|op: Op| spec_map_op_jumps(op, |j: Jump| spec_fix_jump_removed(j, index, removed)))
}

fn fix_op_removed(op: Op, index: usize, removed: Jump) -> (r: Op)
    ensures
        r == spec_map_op_jumps(op, |j: Jump| spec_fix_jump_removed(j, index as int, removed)),
{
    let f = |j: Jump| -> (r: Jump)
        ensures
            r == spec_fix_jump_removed(j, index as int, removed),
        { fix_jump_removed(j, index, removed) };
    map_op_jumps(op, f, Ghost(|j: Jump| spec_fix_jump_removed(j, index as int, removed)))
}

fn fix_op_collapsed(op: Op, index: usize, fix: u16) -> (r: Op)
    ensures
        r == spec_map_op_jumps(op, |j: Jump| spec_fix_jump_collapsed(j, index as int, fix)),
{
    let f = |j: Jump| -> (r: Jump)
        ensures
            r == spec_fix_jump_collapsed(j, index as int, fix),
        { fix_jump_collapsed(j, index, fix) };
    map_op_jumps(op, f, Ghost(|j: Jump| spec_fix_jump_collapsed(j, index as int, fix)))
}

/// Applies `f`, which computes `g`, to every jump of `op`.
fn map_op_jumps<F: Fn(Jump) -> Jump>(op: Op, f: F, Ghost(g): Ghost<spec_fn(Jump) -> Jump>) -> (r: Op)
    requires
        forall|j: Jump| f.requires((j,)),
        forall|j: Jump, k: Jump| f.ensures((j,), k) ==> k == g(j),
    ensures
        r == spec_map_op_jumps(op, g),
{
    match op {
        Op::Accept => Op::Accept,
        Op::Error => Op::Error,
        Op::Reset(j) => Op::Reset(f(j)),
        Op::Unwind(j, l) => Op::Unwind(f(j), l),
        Op::EndAnchor(okj, erj) => Op::EndAnchor(f(okj), f(erj)),
        Op::SkipOne(okj, erj) => Op::SkipOne(f(okj), f(erj)),
        Op::SkipMany(okj, erj, l) => Op::SkipMany(f(okj), f(erj), l),
        Op::Alphabetic(okj, erj) => Op::Alphabetic(f(okj), f(erj)),
        Op::Lower(okj, erj) => Op::Lower(f(okj), f(erj)),
        Op::Upper(okj, erj) => Op::Upper(f(okj), f(erj)),
        Op::Digit(okj, erj) => Op::Digit(f(okj), f(erj)),
        Op::Alphanumeric(okj, erj) => Op::Alphanumeric(f(okj), f(erj)),
        Op::Char(okj, erj, c) => Op::Char(f(okj), f(erj), c),
        Op::CharCaseInsensitive(okj, erj, c) => Op::CharCaseInsensitive(f(okj), f(erj), c),
        Op::String(okj, erj, l, b) => Op::String(f(okj), f(erj), l, b),
        Op::StringCaseInsensitive(okj, erj, l, b) => Op::StringCaseInsensitive(f(okj), f(erj), l, b),
    }
}

/// Drops the items `from..to` of `v`.
fn remove_range(v: &mut Vec<Op>, from: usize, to: usize)
    requires
        from <= to <= old(v).len(),
    ensures
        final(v)@ == old(v)@.take(from as int) + old(v)@.skip(to as int),
{
    let mut r: Vec<Op> = Vec::new();
    let mut i: usize = 0;
    while i < from
        invariant
            from <= to <= v.len(),
            i <= from,
            r@ == v@.take(i as int),
        decreases from - i,
    {
        r.push(v[i]);
        i = i + 1;
        assert(r@ =~= v@.take(i as int));
    }
    let mut i: usize = to;
    while i < v.len()
        invariant
            from <= to <= i <= v.len(),
            r@ == v@.take(from as int) + v@.subrange(to as int, i as int),
        decreases v.len() - i,
    {
        r.push(v[i]);
        i = i + 1;
        assert(r@ =~= v@.take(from as int) + v@.subrange(to as int, i as int));
    }
    assert(v@.subrange(to as int, v.len() as int) =~= v@.skip(to as int));
    *v = r;
}

} // verus!
