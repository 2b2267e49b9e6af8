//! The pattern language used to search text and to describe syntax rules.
//!
//! A pattern is compiled into a small program of [`Op`]s which a tiny machine
//! runs over the chars of a text. Each op either tests the char under the
//! cursor and jumps to one of two ops (match / no match), or moves the
//! cursor, or stops with a result.
//!
//! Syntax: `.` any char, `%a %l %u %d %w` ASCII classes, `%x` escapes a
//! special char, `$` end of text, `(..)` sequence, `(!..)` negated sequence,
//! `[..]` group (one of), `[!..]` negated group, `{..}` repetition with
//! optional `!..` cancel patterns, and `|` between alternative subpatterns.

pub mod alternatives;
pub mod compiler;
pub mod listing;
pub mod single_chars;

use vstd::prelude::*;
use crate::pattern::listing::{listing, listing_string};
use crate::pattern::compiler::{char_tests, is_plain_jump, starts_with_stops, lemma_char_tests_len, pattern_syntax, PatternCompiler, MAX_PATTERN_LEN};
use crate::pattern::alternatives::{alt_tests, alts_match, is_alts_program, lemma_alts_program_matches, lemma_one_alt, lemma_one_alt_match};
use crate::pattern::single_chars::{case_ops, is_tests_program, tests_start, lemma_case_tests_program_matches, lemma_char_tests_ascii, lemma_tests_program_matches, tests_match, tests_match_case};
use crate::syntax::{boundary, boundary_from, lemma_boundary_bounds, lemma_boundary_clamp, lemma_offset_below_len, offset};
use crate::text::{push_char, split_at_char};
use crate::text::{
    char_is_lowercase, decode_first_char, first_char, strip_char_prefix, unicode_lowercase,
    ascii_alphabetic, ascii_alphanumeric, ascii_digit, ascii_lowercase, ascii_uppercase, byte_fold,
    char_len_utf8, chars_eq_ignore_case, encode_char, lemma_byte_len_take_mono,
    lemma_byte_len_take_next, str_byte_len, str_to_chars, byte_len, char_bytes, fold_byte, fold_char, is_alnum, is_alpha, is_digit, is_lower, is_upper};

verus! {

/// Outcome of running a pattern over a text.
#[derive(Debug, Clone, Copy, PartialEq, Eq, Structural)]
pub enum MatchResult {
    /// The text ended while the pattern still waited for more (`$` was
    /// reached); the state resumes matching on the next text.
    Pending(PatternState),
    /// The pattern matched this many bytes at the start of the text.
    Matched(usize),
    Failed,
}

#[derive(Debug, Clone, Copy, PartialEq, Eq, Structural)]
pub enum PatternErrorKind {
    UnexpectedEndOfPattern,
    Expected(char),
    InvalidEscaping(char),
    Unescaped(char),
    EmptyGroup,
    GroupWithElementsOfDifferentSize,
}

#[derive(Debug)]
pub struct PatternError<'a> {
    pub pattern: &'a str,
    pub kind: PatternErrorKind,
}

/// The text that describes an error kind.
pub open spec fn error_kind_message(kind: PatternErrorKind) -> Seq<char> {
    match kind {
        PatternErrorKind::UnexpectedEndOfPattern => "unexpected end of pattern"@,
        PatternErrorKind::Expected(c) => "expected character '"@.push(c) + "'"@,
        PatternErrorKind::InvalidEscaping(c) => "invalid escaping '%"@.push(c) + "'"@,
        PatternErrorKind::Unescaped(c) => "unescaped character '"@.push(c) + "'"@,
        PatternErrorKind::EmptyGroup => "empty pattern group"@,
        PatternErrorKind::GroupWithElementsOfDifferentSize => "pattern group has elements of different size"@,
    }
}

/// `prefix`, then `c`, then a closing quote.
fn quoted_char(prefix: &str, c: char) -> (r: String)
    ensures
        r@ == prefix@.push(c) + "'"@,
{
    let mut s = String::from_str(prefix);
    push_char(&mut s, c);
    s.append("'");
    s
}

impl PatternErrorKind {
    /// The text that describes this error.
    pub fn message(&self) -> (r: String)
        ensures
            r@ == error_kind_message(*self),
    {
        match self {
            PatternErrorKind::UnexpectedEndOfPattern => String::from_str("unexpected end of pattern"),
            PatternErrorKind::Expected(c) => quoted_char("expected character '", *c),
            PatternErrorKind::InvalidEscaping(c) => quoted_char("invalid escaping '%", *c),
            PatternErrorKind::Unescaped(c) => quoted_char("unescaped character '", *c),
            PatternErrorKind::EmptyGroup => String::from_str("empty pattern group"),
            PatternErrorKind::GroupWithElementsOfDifferentSize => String::from_str(
                "pattern group has elements of different size",
            ),
        }
    }
}

impl<'a> PatternError<'a> {
    /// The text that describes this error: the pattern, then what is wrong with it.
    pub fn message(&self) -> (r: String)
        ensures
            r@ == "invalid pattern '"@ + self.pattern@ + "': "@ + error_kind_message(self.kind),
    {
        let mut s = String::from_str("invalid pattern '");
        s.append(self.pattern);
        s.append("': ");
        let kind = self.kind.message();
        s.append(kind.as_str());
        s
    }
}

/// Where to resume a pending match.
#[derive(Debug, Clone, Copy, PartialEq, Eq, Structural)]
pub struct PatternState {
    pub op_index: usize,
}

#[derive(Debug, Clone, Copy, PartialEq, Eq, Structural)]
pub struct Length(pub u16);

#[derive(Debug, Clone, Copy, PartialEq, Eq, Structural)]
pub struct Jump(pub u16);

/// Number of bytes a string op can hold.
pub const OP_STRING_LEN: usize = 10;

/// One instruction of a compiled pattern. Ops that test a char hold the
/// jump taken on success first and the jump taken on failure second.
#[derive(Debug, Clone, Copy)]
pub enum Op {
    Accept,
    Error,
    Reset(Jump),
    Unwind(Jump, Length),
    EndAnchor(Jump, Jump),
    SkipOne(Jump, Jump),
    SkipMany(Jump, Jump, Length),
    Alphabetic(Jump, Jump),
    Lower(Jump, Jump),
    Upper(Jump, Jump),
    Digit(Jump, Jump),
    Alphanumeric(Jump, Jump),
    Char(Jump, Jump, char),
    CharCaseInsensitive(Jump, Jump, char),
    String(Jump, Jump, u8, [u8; 10]),
    StringCaseInsensitive(Jump, Jump, u8, [u8; 10]),
}

/// One step of the pattern machine.
pub enum Step {
    Next(int, int),
    Stop(MatchResult),
}

/// Two byte strings are equal, or equal up to ASCII case when `fold`.
pub open spec fn bytes_eq(a: Seq<u8>, b: Seq<u8>, fold: bool) -> bool {
    &&& a.len() == b.len()
    &&& forall|i: int|
        0 <= i < a.len() ==> if fold {
            fold_byte(#[trigger] a[i]) == fold_byte(b[i])
        } else {
            a[i] == b[i]
        }
}

/// Number of chars of `t` from `pos` whose UTF-8 encoding is `b`
/// (up to ASCII case when `fold`), if there is such a run.
pub open spec fn prefix_match(t: Seq<char>, pos: int, b: Seq<u8>, fold: bool) -> Option<int>
    decreases b.len(),
{
    if b.len() == 0 {
        Some(0)
    } else if pos < 0 || pos >= t.len() {
        None
    } else {
        let cb = char_bytes(t[pos]);
        if cb.len() <= b.len() && bytes_eq(cb, b.take(cb.len() as int), fold) {
            match prefix_match(t, pos + 1, b.skip(cb.len() as int), fold) {
                Some(k) => Some(k + 1),
                None => None,
            }
        } else {
            None
        }
    }
}

/// Result of a single char test: move on to `okj` one char further, or to `erj`.
pub open spec fn test_char(t: Seq<char>, pos: int, okj: Jump, erj: Jump, pass: spec_fn(char) -> bool) -> Step {
    if 0 <= pos < t.len() && pass(t[pos]) {
        Step::Next(okj.0 as int, pos + 1)
    } else {
        Step::Next(erj.0 as int, pos)
    }
}

/// What op `pc` does at char position `pos` of `t`.
pub open spec fn step(ops: Seq<Op>, t: Seq<char>, pc: int, pos: int) -> Step {
    if !(0 <= pc < ops.len()) {
        Step::Stop(MatchResult::Failed)
    } else {
        match ops[pc] {
            Op::Accept => Step::Stop(MatchResult::Matched(byte_len(t.take(pos)) as usize)),
            Op::Error => Step::Stop(MatchResult::Failed),
            Op::Reset(j) => Step::Next(j.0 as int, 0),
            Op::Unwind(j, n) => if n.0 <= pos {
                Step::Next(j.0 as int, pos - n.0)
            } else {
                Step::Stop(MatchResult::Failed)
            },
            Op::EndAnchor(okj, erj) => if pos == t.len() {
                if okj.0 < ops.len() && ops[okj.0 as int] is Accept {
                    Step::Stop(MatchResult::Matched(byte_len(t.take(pos)) as usize))
                } else if okj.0 < ops.len() {
                    Step::Stop(MatchResult::Pending(PatternState { op_index: okj.0 as usize }))
                } else {
                    Step::Stop(MatchResult::Failed)
                }
            } else {
                Step::Next(erj.0 as int, pos)
            },
            Op::SkipOne(okj, erj) => test_char(t, pos, okj, erj, |c: char| true),
            Op::SkipMany(okj, erj, n) => if pos + n.0 <= t.len() {
                Step::Next(okj.0 as int, pos + n.0)
            } else {
                Step::Next(erj.0 as int, t.len() as int)
            },
            Op::Alphabetic(okj, erj) => test_char(t, pos, okj, erj, |c: char| is_alpha(c)),
            Op::Lower(okj, erj) => test_char(t, pos, okj, erj, |c: char| is_lower(c)),
            Op::Upper(okj, erj) => test_char(t, pos, okj, erj, |c: char| is_upper(c)),
            Op::Digit(okj, erj) => test_char(t, pos, okj, erj, |c: char| is_digit(c)),
            Op::Alphanumeric(okj, erj) => test_char(t, pos, okj, erj, |c: char| is_alnum(c)),
            Op::Char(okj, erj, ch) => test_char(t, pos, okj, erj, |c: char| c == ch),
            Op::CharCaseInsensitive(okj, erj, ch) => test_char(
                t,
                pos,
                okj,
                erj,
                |c: char| fold_char(c) == fold_char(ch),
            ),
            Op::String(okj, erj, len, bytes) => if len > 10 {
                Step::Stop(MatchResult::Failed)
            } else {
                match prefix_match(t, pos, bytes@.take(len as int), false) {
                    Some(k) => Step::Next(okj.0 as int, pos + k),
                    None => Step::Next(erj.0 as int, pos),
                }
            },
            Op::StringCaseInsensitive(okj, erj, len, bytes) => if len > 10 {
                Step::Stop(MatchResult::Failed)
            } else {
                match prefix_match(t, pos, bytes@.take(len as int), true) {
                    Some(k) => Step::Next(okj.0 as int, pos + k),
                    None => Step::Next(erj.0 as int, pos),
                }
            },
        }
    }
}

/// Runs the machine from op `pc` at char `pos` for at most `fuel` steps.
pub open spec fn run(ops: Seq<Op>, t: Seq<char>, pc: int, pos: int, fuel: nat) -> MatchResult
    decreases fuel,
{
    if fuel == 0 {
        MatchResult::Failed
    } else {
        match step(ops, t, pc, pos) {
            Step::Stop(r) => r,
            Step::Next(pc2, pos2) => run(ops, t, pc2, pos2, (fuel - 1) as nat),
        }
    }
}

/// The step budget of one match: far more steps than a match can take in practice.
pub open spec fn match_fuel() -> nat {
    u64::MAX as nat
}

/// Result of matching the ops from op `pc` against the whole of `t`.
pub open spec fn spec_match(ops: Seq<Op>, t: Seq<char>, pc: int) -> MatchResult {
    run(ops, t, pc, 0, match_fuel())
}


/// Byte offset of every char position of `t` (and of its end).
pub fn char_offsets(t: &Vec<char>) -> (r: Vec<usize>)
    requires
        byte_len(t@) <= usize::MAX,
    ensures
        r.len() == t.len() + 1,
        forall|i: int| 0 <= i <= t.len() ==> r[i] == byte_len(#[trigger] t@.take(i)),
{
    let mut r: Vec<usize> = Vec::new();
    let mut acc: usize = 0;
    let mut i: usize = 0;
    proof {
        assert(t@.take(0) =~= Seq::<char>::empty());
        assert(t@.take(t.len() as int) =~= t@);
    }
    while i < t.len()
        invariant
            i <= t.len(),
            r.len() == i,
            acc == byte_len(t@.take(i as int)),
            byte_len(t@.take(t.len() as int)) <= usize::MAX,
            forall|j: int| 0 <= j < i ==> r[j] == byte_len(#[trigger] t@.take(j)),
        decreases t.len() - i,
    {
        r.push(acc);
        proof {
            lemma_byte_len_take_next(t@, i as int);
            lemma_byte_len_take_mono(t@, i + 1, t.len() as int);
        }
        acc = acc + char_len_utf8(t[i]);
        i = i + 1;
    }
    r.push(acc);
    r
}

/// Adds `count` to a run length.
pub open spec fn shift_run(count: int, r: Option<int>) -> Option<int> {
    match r {
        Some(k) => Some(k + count),
        None => None,
    }
}

/// Matches the first `len` bytes of `bytes` against the chars of `t` from `pos`.
fn match_string(t: &Vec<char>, pos: usize, bytes: &[u8; 10], len: u8, fold: bool) -> (r: Option<usize>)
    requires
        pos <= t.len(),
        len <= 10,
    ensures
        match r {
            Some(k) => prefix_match(t@, pos as int, bytes@.take(len as int), fold) == Some(k as int)
                && pos + k <= t.len(),
            None => prefix_match(t@, pos as int, bytes@.take(len as int), fold) is None,
        },
{
    let ghost b = bytes@.take(len as int);
    let mut k: usize = 0;
    let mut p: usize = pos;
    let n = len as usize;
    assert(b.skip(0) =~= b);
    while k < n
        invariant
            n <= 10,
            n == len,
            b == bytes@.take(n as int),
            k <= n,
            pos <= p <= t.len(),
            prefix_match(t@, pos as int, b, fold) == shift_run(
                p - pos,
                prefix_match(t@, p as int, b.skip(k as int), fold),
            ),
        decreases n - k,
    {
        assert(b.len() == n);
        assert(b.skip(k as int).len() > 0);
        if p >= t.len() {
            assert(prefix_match(t@, p as int, b.skip(k as int), fold) is None);
            return None;
        }
        let (cb, w) = encode_char(t[p]);
        if w > n - k {
            assert(prefix_match(t@, p as int, b.skip(k as int), fold) is None);
            return None;
        }
        let mut i: usize = 0;
        let mut eq = true;
        while i < w
            invariant_except_break
                w <= 4,
                k + w <= n,
                n <= 10,
                i <= w,
                eq,
                forall|j: int|
                    0 <= j < i ==> if fold {
                        fold_byte(#[trigger] cb@[j]) == fold_byte(bytes@[k + j])
                    } else {
                        cb@[j] == bytes@[k + j]
                    },
            ensures
                eq ==> i == w,
                eq ==> forall|j: int|
                    0 <= j < w ==> if fold {
                        fold_byte(#[trigger] cb@[j]) == fold_byte(bytes@[k + j])
                    } else {
                        cb@[j] == bytes@[k + j]
                    },
                !eq ==> i < w && !(if fold {
                    fold_byte(cb@[i as int]) == fold_byte(bytes@[k + i])
                } else {
                    cb@[i as int] == bytes@[k + i]
                }),
            decreases w - i,
        {
            let same = if fold {
                byte_fold(cb[i]) == byte_fold(bytes[k + i])
            } else {
                cb[i] == bytes[k + i]
            };
            if !same {
                eq = false;
                break;
            }
            i = i + 1;
        }
        let ghost rest = b.skip(k as int);
        let ghost cbs = char_bytes(t@[p as int]);
        assert(cbs == cb@.take(w as int));
        assert(rest.take(w as int) =~= bytes@.subrange(k as int, k + w));
        if !eq {
            proof {
                assert(cbs[i as int] == cb@[i as int]);
                assert(rest.take(w as int)[i as int] == bytes@[k + i]);
                assert(!bytes_eq(cbs, rest.take(w as int), fold));
                assert(prefix_match(t@, p as int, b.skip(k as int), fold) is None);
            }
            return None;
        }
        proof {
            assert(i == w);
            assert forall|j: int| 0 <= j < cbs.len() implies if fold {
                fold_byte(#[trigger] cbs[j]) == fold_byte(rest.take(w as int)[j])
            } else {
                cbs[j] == rest.take(w as int)[j]
            } by {
                assert(cbs[j] == cb@[j]);
                assert(rest.take(w as int)[j] == bytes@[k + j]);
            }
            assert(bytes_eq(cbs, rest.take(w as int), fold));
            assert(rest.skip(w as int) =~= b.skip(k + w));
        }
        k = k + w;
        p = p + 1;
    }
    assert(b.skip(k as int).len() == 0);
    Some(p - pos)
}


/// Runs the ops from `start` over `t`, whose char offsets are `offsets`.
fn run_ops(ops: &Vec<Op>, t: &Vec<char>, offsets: &Vec<usize>, start: usize) -> (r: MatchResult)
    requires
        offsets.len() == t.len() + 1,
        forall|i: int| 0 <= i <= t.len() ==> offsets[i] == byte_len(#[trigger] t@.take(i)),
    ensures
        r == spec_match(ops@, t@, start as int),
{
    let mut pc: usize = start;
    let mut pos: usize = 0;
    let mut fuel: u64 = u64::MAX;
    while fuel > 0
        invariant
            pos <= t.len(),
            offsets.len() == t.len() + 1,
            forall|i: int| 0 <= i <= t.len() ==> offsets[i] == byte_len(#[trigger] t@.take(i)),
            spec_match(ops@, t@, start as int) == run(ops@, t@, pc as int, pos as int, fuel as nat),
        decreases fuel,
    {
        fuel = fuel - 1;
        if pc >= ops.len() {
            return MatchResult::Failed;
        }
        let ghost st = step(ops@, t@, pc as int, pos as int);
        match ops[pc] {
            Op::Accept => {
                return MatchResult::Matched(offsets[pos]);
            },
            Op::Error => {
                return MatchResult::Failed;
            },
            Op::Reset(j) => {
                pc = j.0 as usize;
                pos = 0;
            },
            Op::Unwind(j, n) => {
                if (n.0 as usize) <= pos {
                    pos = pos - n.0 as usize;
                    pc = j.0 as usize;
                } else {
                    return MatchResult::Failed;
                }
            },
            Op::EndAnchor(okj, erj) => {
                if pos == t.len() {
                    let k = okj.0 as usize;
                    if k < ops.len() {
                        if let Op::Accept = ops[k] {
                            return MatchResult::Matched(offsets[pos]);
                        } else {
                            return MatchResult::Pending(PatternState { op_index: k });
                        }
                    } else {
                        return MatchResult::Failed;
                    }
                } else {
                    pc = erj.0 as usize;
                }
            },
            Op::SkipOne(okj, erj) => {
                if pos < t.len() {
                    pos = pos + 1;
                    pc = okj.0 as usize;
                } else {
                    pc = erj.0 as usize;
                }
            },
            Op::SkipMany(okj, erj, n) => {
                if (n.0 as usize) <= t.len() - pos {
                    pos = pos + n.0 as usize;
                    pc = okj.0 as usize;
                } else {
                    pos = t.len();
                    pc = erj.0 as usize;
                }
            },
            Op::Alphabetic(okj, erj) => {
                if pos < t.len() && ascii_alphabetic(t[pos]) {
                    pos = pos + 1;
                    pc = okj.0 as usize;
                } else {
                    pc = erj.0 as usize;
                }
            },
            Op::Lower(okj, erj) => {
                if pos < t.len() && ascii_lowercase(t[pos]) {
                    pos = pos + 1;
                    pc = okj.0 as usize;
                } else {
                    pc = erj.0 as usize;
                }
            },
            Op::Upper(okj, erj) => {
                if pos < t.len() && ascii_uppercase(t[pos]) {
                    pos = pos + 1;
                    pc = okj.0 as usize;
                } else {
                    pc = erj.0 as usize;
                }
            },
            Op::Digit(okj, erj) => {
                if pos < t.len() && ascii_digit(t[pos]) {
                    pos = pos + 1;
                    pc = okj.0 as usize;
                } else {
                    pc = erj.0 as usize;
                }
            },
            Op::Alphanumeric(okj, erj) => {
                if pos < t.len() && ascii_alphanumeric(t[pos]) {
                    pos = pos + 1;
                    pc = okj.0 as usize;
                } else {
                    pc = erj.0 as usize;
                }
            },
            Op::Char(okj, erj, ch) => {
                if pos < t.len() && t[pos] == ch {
                    pos = pos + 1;
                    pc = okj.0 as usize;
                } else {
                    pc = erj.0 as usize;
                }
            },
            Op::CharCaseInsensitive(okj, erj, ch) => {
                if pos < t.len() && chars_eq_ignore_case(t[pos], ch) {
                    pos = pos + 1;
                    pc = okj.0 as usize;
                } else {
                    pc = erj.0 as usize;
                }
            },
            Op::String(okj, erj, len, bytes) => {
                if len <= 10 {
                    match match_string(t, pos, &bytes, len, false) {
                        Some(k) => {
                            pos = pos + k;
                            pc = okj.0 as usize;
                        },
                        None => {
                            pc = erj.0 as usize;
                        },
                    }
                } else {
                    return MatchResult::Failed;
                }
            },
            Op::StringCaseInsensitive(okj, erj, len, bytes) => {
                if len <= 10 {
                    match match_string(t, pos, &bytes, len, true) {
                        Some(k) => {
                            pos = pos + k;
                            pc = okj.0 as usize;
                        },
                        None => {
                            pc = erj.0 as usize;
                        },
                    }
                } else {
                    return MatchResult::Failed;
                }
            },
        }
        assert(st == Step::Next(pc as int, pos as int));
    }
    MatchResult::Failed
}


/// `ops[start]` ends the match at once: an empty pattern.
pub open spec fn spec_is_empty(ops: Seq<Op>, start: int) -> bool {
    !(0 <= start < ops.len()) || ops[start] is Accept || ops[start] is Error
}

/// `c` is a search anchor when failing to match the first op ends the match.
pub open spec fn anchor_if_fails(ops: Seq<Op>, erj: Jump, c: char) -> Option<char> {
    if erj.0 < ops.len() && ops[erj.0 as int] is Error {
        Some(c)
    } else {
        None
    }
}

/// The char every match must start with, if the program from `start` has one;
/// `'\0'` for a program that never matches.
pub open spec fn spec_search_anchor(ops: Seq<Op>, start: int) -> Option<char> {
    if !(0 <= start < ops.len()) {
        None
    } else {
        match ops[start] {
            Op::Error => Some('\0'),
            Op::Char(_, erj, c) => anchor_if_fails(ops, erj, c),
            Op::String(_, erj, len, bytes) => if len > 10 {
                None
            } else {
                match first_char(bytes@.take(len as int)) {
                    Some(c) => anchor_if_fails(ops, erj, c),
                    None => None,
                }
            },
            _ => None,
        }
    }
}

/// What compiling the pattern text `t` gives, as the program `ops` that
/// starts at op `start`: a program that starts with the error op and the
/// accepting op, holds no plain jump and only string tests of valid UTF-8;
/// for a sequence of single ASCII char tests, the program of those tests,
/// which matches what they match; for alternatives of such sequences, a
/// program that gives what the first alternative that matches gives.
pub open spec fn program_compiled_from(ops: Seq<Op>, start: int, t: Seq<char>) -> bool {
    &&& starts_with_stops(ops)
    &&& forall|k: int| 0 <= k < ops.len() ==> !is_plain_jump(#[trigger] ops[k])
    &&& string_ops_valid(ops)
    &&& (char_tests(t) matches Some(ts) ==> {
        &&& is_tests_program(ops, ts)
        &&& start == tests_start(ts)
        &&& forall|text: Seq<char>| #[trigger] spec_match(ops, text, start) == tests_match(ts, text)
    })
    &&& (alt_tests(t) matches Some(alts) ==> {
        &&& (alts.len() >= 2 ==> is_alts_program(ops, alts) && start == 3)
        &&& forall|text: Seq<char>| #[trigger] spec_match(ops, text, start) == alts_match(alts, text)
    })
}

/// The case insensitive form of an op.
pub open spec fn fold_op(op: Op) -> Op {
    match op {
        Op::Char(okj, erj, c) => Op::CharCaseInsensitive(okj, erj, c),
        Op::String(okj, erj, len, bytes) => Op::StringCaseInsensitive(okj, erj, len, bytes),
        other => other,
    }
}

fn fold_op_exec(op: Op) -> (r: Op)
    ensures
        r == fold_op(op),
{
    match op {
        Op::Char(okj, erj, c) => Op::CharCaseInsensitive(okj, erj, c),
        Op::String(okj, erj, len, bytes) => Op::StringCaseInsensitive(okj, erj, len, bytes),
        other => other,
    }
}

/// Whether a searcher pattern ignores case: it does not start with `_` and
/// all its chars are lower case.
pub open spec fn searcher_ignores_case(p: Seq<char>) -> bool {
    !(p.len() > 0 && p[0] == '_') && forall|i: int| 0 <= i < p.len() ==> unicode_lowercase(#[trigger] p[i])
}

/// The text of a searcher pattern once a leading `_` is dropped.
pub open spec fn searcher_text(p: Seq<char>) -> Seq<char> {
    if p.len() > 0 && p[0] == '_' {
        p.drop_first()
    } else {
        p
    }
}

/// End of the chunk of `p` that starts at char 0, searched from char `k`:
/// the longest prefix whose UTF-8 encoding is shorter than a string op's bytes.
pub open spec fn chunk_end(p: Seq<char>, k: int) -> int
    decreases p.len() - k,
{
    if 0 <= k < p.len() && byte_len(p.take(k + 1)) < OP_STRING_LEN {
        chunk_end(p, k + 1)
    } else {
        k
    }
}

/// A literal cut into the chunks that fit string ops, in order.
pub open spec fn chunks(p: Seq<char>) -> Seq<Seq<char>>
    decreases p.len(),
{
    let k = chunk_end(p, 0);
    if p.len() == 0 || k <= 0 || k > p.len() {
        Seq::empty()
    } else {
        seq![p.take(k)] + chunks(p.skip(k))
    }
}

/// A string test holds at most `OP_STRING_LEN` bytes of valid UTF-8.
pub open spec fn valid_string_op(op: Op) -> bool {
    match op {
        Op::String(_, _, len, bytes) => len <= OP_STRING_LEN && vstd::utf8::valid_utf8(bytes@.take(len as int)),
        Op::StringCaseInsensitive(_, _, len, bytes) => len <= OP_STRING_LEN && vstd::utf8::valid_utf8(
            bytes@.take(len as int),
        ),
        _ => true,
    }
}

/// Every string test of `ops` holds valid UTF-8.
pub open spec fn string_ops_valid(ops: Seq<Op>) -> bool {
    forall|k: int| 0 <= k < ops.len() ==> valid_string_op(#[trigger] ops[k])
}

/// A string op (case insensitive when `fold`) that tests `chunk`, goes to
/// op `okj` when it matches and ends the match otherwise.
pub open spec fn is_chunk_op(op: Op, okj: int, chunk: Seq<char>, fold: bool) -> bool {
    match op {
        Op::String(j, e, len, bytes) => !fold && j.0 == okj && e.0 == 0 && len == byte_len(chunk) && len
            <= OP_STRING_LEN && bytes@.take(len as int) == vstd::utf8::encode_utf8(chunk),
        Op::StringCaseInsensitive(j, e, len, bytes) => fold && j.0 == okj && e.0 == 0 && len == byte_len(
            chunk,
        ) && len <= OP_STRING_LEN && bytes@.take(len as int) == vstd::utf8::encode_utf8(chunk),
        _ => false,
    }
}

/// The program of a literal search for `p`: an error op, one string op per
/// chunk, each leading to the next, and the accepting op.
pub open spec fn is_literal_program(ops: Seq<Op>, p: Seq<char>, fold: bool) -> bool {
    let cs = chunks(p);
    &&& ops.len() == cs.len() + 2
    &&& ops[0] is Error
    &&& ops[ops.len() - 1] is Accept
    &&& forall|i: int| 0 <= i < cs.len() ==> is_chunk_op(#[trigger] ops[i + 1], i + 2, cs[i], fold)
}

/// The string tests of a literal program hold valid UTF-8.
proof fn lemma_literal_program_valid(ops: Seq<Op>, p: Seq<char>, fold: bool)
    requires
        is_literal_program(ops, p, fold),
    ensures
        string_ops_valid(ops),
{
    let cs = chunks(p);
    assert forall|k: int| 0 <= k < ops.len() implies valid_string_op(#[trigger] ops[k]) by {
        if 1 <= k < ops.len() - 1 {
            assert(is_chunk_op(ops[(k - 1) + 1], (k - 1) + 2, cs[k - 1], fold));
            vstd::utf8::encode_utf8_valid_utf8(cs[k - 1]);
        }
    }
}

/// Case folding turns a literal program into its case insensitive form.
proof fn lemma_fold_literal_program(ops: Seq<Op>, p: Seq<char>)
    requires
        is_literal_program(ops, p, false),
    ensures
        is_literal_program(ops.map_values(|op: Op| fold_op(op)), p, true),
{
    let f = ops.map_values(|op: Op| fold_op(op));
    assert forall|i: int| 0 <= i < chunks(p).len() implies is_chunk_op(#[trigger] f[i + 1], i + 2, chunks(p)[i], true) by {
        assert(is_chunk_op(ops[i + 1], i + 2, chunks(p)[i], false));
    }
}

/// The encoding of `s[i..j + 1]` is that of `s[i..j]` and then of `s[j]`.
proof fn lemma_encode_subrange_push(s: Seq<char>, i: int, j: int)
    requires
        0 <= i <= j < s.len(),
    ensures
        vstd::utf8::encode_utf8(s.subrange(i, j + 1)) == vstd::utf8::encode_utf8(s.subrange(i, j)) + char_bytes(s[j]),
        byte_len(s.subrange(i, j + 1)) == byte_len(s.subrange(i, j)) + char_bytes(s[j]).len(),
{
    assert(s.subrange(i, j + 1) =~= s.subrange(i, j) + seq![s[j]]);
    crate::text::lemma_encode_concat(s.subrange(i, j), seq![s[j]]);
    assert(seq![s[j]].drop_first() =~= Seq::<char>::empty());
    assert(vstd::utf8::encode_utf8(seq![s[j]]) =~= char_bytes(s[j]) + vstd::utf8::encode_utf8(Seq::<char>::empty()));
}

/// The program of a literal search for `chars`.
fn literal_program(chars: &Vec<char>) -> (ops: Vec<Op>)
    requires
        chars.len() <= MAX_PATTERN_LEN,
    ensures
        is_literal_program(ops@, chars@, false),
{
    let mut ops: Vec<Op> = Vec::new();
    ops.push(Op::Error);
    let mut buf: [u8; 10] = [0u8; 10];
    let mut i: usize = 0;
    let ghost mut done: Seq<Seq<char>> = Seq::empty();
    proof {
        assert(chars@.skip(0) =~= chars@);
    }
    while i < chars.len()
        invariant
            i <= chars.len(),
            chars.len() <= MAX_PATTERN_LEN,
            chunks(chars@) == done + chunks(chars@.skip(i as int)),
            ops.len() == done.len() + 1,
            done.len() <= i,
            ops@[0] is Error,
            forall|j: int| 0 <= j < done.len() ==> is_chunk_op(#[trigger] ops@[j + 1], j + 2, done[j], false),
        decreases chars.len() - i,
    {
        let ghost p = chars@.skip(i as int);
        let mut j: usize = i;
        let mut blen: usize = 0;
        proof {
            assert(chars@.subrange(i as int, i as int) =~= Seq::<char>::empty());
            assert(vstd::utf8::encode_utf8(Seq::<char>::empty()) =~= Seq::<u8>::empty());
        }
        while j < chars.len() && blen + char_len_utf8(chars[j]) < 10
            invariant
                i <= j <= chars.len(),
                p == chars@.skip(i as int),
                blen == byte_len(chars@.subrange(i as int, j as int)),
                blen < 10,
                chunk_end(p, 0) == chunk_end(p, j - i),
            decreases chars.len() - j,
        {
            proof {
                lemma_encode_subrange_push(chars@, i as int, j as int);
                assert(p.take(j - i + 1) =~= chars@.subrange(i as int, j + 1));
            }
            blen = blen + char_len_utf8(chars[j]);
            j = j + 1;
        }
        proof {
            if j < chars.len() {
                lemma_encode_subrange_push(chars@, i as int, j as int);
                assert(p.take(j - i + 1) =~= chars@.subrange(i as int, j + 1));
            }
            assert(chunk_end(p, 0) == j - i);
        }
        let mut off: usize = 0;
        let mut t: usize = i;
        while t < j
            invariant
                i <= t <= j <= chars.len(),
                blen == byte_len(chars@.subrange(i as int, j as int)),
                blen < 10,
                off == byte_len(chars@.subrange(i as int, t as int)),
                off <= blen,
                buf@.take(off as int) == vstd::utf8::encode_utf8(chars@.subrange(i as int, t as int)),
            decreases j - t,
        {
            let (b, n) = encode_char(chars[t]);
            proof {
                lemma_encode_subrange_push(chars@, i as int, t as int);
                crate::text::lemma_byte_len_take_mono(chars@.subrange(i as int, j as int), t + 1 - i, j - i);
                assert(chars@.subrange(i as int, j as int).take(t + 1 - i) =~= chars@.subrange(i as int, t + 1));
                assert(chars@.subrange(i as int, j as int).take(j - i) =~= chars@.subrange(i as int, j as int));
            }
            let mut u: usize = 0;
            let ghost before = buf@;
            while u < n
                invariant
                    u <= n,
                    1 <= n <= 4,
                    off + n <= 10,
                    b@.take(n as int) == char_bytes(chars@[t as int]),
                    buf@.take(off as int) == before.take(off as int),
                    forall|v: int| 0 <= v < u ==> buf@[off + v] == b@[v],
                    buf@.len() == 10,
                decreases n - u,
            {
                buf[off + u] = b[u];
                u = u + 1;
            }
            proof {
                assert(buf@.take(off + n) =~= buf@.take(off as int) + b@.take(n as int));
            }
            off = off + n;
            t = t + 1;
        }
        let op = Op::String(Jump((ops.len() + 1) as u16), Jump(0), blen as u8, buf);
        ops.push(op);
        proof {
            let chunk = chars@.subrange(i as int, j as int);
            assert(p.take(j - i) =~= chunk);
            assert(p.skip(j - i) =~= chars@.skip(j as int));
            assert(chunks(p) == seq![chunk] + chunks(chars@.skip(j as int)));
            done = done.push(chunk);
            assert(chunks(chars@) =~= done + chunks(chars@.skip(j as int)));
            assert(is_chunk_op(ops@[done.len() as int], (done.len() + 1) as int, chunk, false));
        }
        i = j;
    }
    proof {
        assert(chars@.skip(chars.len() as int) =~= Seq::<char>::empty());
        assert(done =~= chunks(chars@));
    }
    ops.push(Op::Accept);
    ops
}

/// A compiled pattern.
#[derive(Clone)]
pub struct Pattern {
    ops: Vec<Op>,
    start_jump: Jump,
}

impl Pattern {
    /// The compiled program.
    pub closed spec fn ops_seq(&self) -> Seq<Op> {
        self.ops@
    }

    /// Index of the first op run.
    pub closed spec fn start(&self) -> int {
        self.start_jump.0 as int
    }

    /// The program of a pattern that never matches.
    pub open spec fn is_cleared(&self) -> bool {
        self.ops_seq() == seq![Op::Error] && self.start() == 0
    }

    /// Every string test of the program holds valid UTF-8.
    pub open spec fn strings_valid(&self) -> bool {
        string_ops_valid(self.ops_seq())
    }

    /// What compiling the pattern text `t` gives (see `program_compiled_from`).
    pub open spec fn compiled_from(&self, t: Seq<char>) -> bool {
        program_compiled_from(self.ops_seq(), self.start(), t)
    }

    /// A pattern that matches nothing.
    pub fn new() -> (r: Self)
        ensures
            r.is_cleared(),
            r.strings_valid(),
    {
        let mut ops: Vec<Op> = Vec::new();
        ops.push(Op::Error);
        assert(ops@ =~= seq![Op::Error]);
        Self { ops, start_jump: Jump(0) }
    }

    pub fn clear(&mut self)
        ensures
            final(self).is_cleared(),
            final(self).strings_valid(),
    {
        self.ops.clear();
        self.ops.push(Op::Error);
        self.start_jump = Jump(0);
        assert(self.ops@ =~= seq![Op::Error]);
    }

    /// Compiles `pattern`; on error the pattern is cleared.
    pub fn compile<'a>(&mut self, pattern: &'a str) -> (r: Result<(), PatternError<'a>>)
        requires
            pattern@.len() <= MAX_PATTERN_LEN,
        ensures
            r is Ok <==> pattern_syntax(pattern@) is Ok,
            r is Ok ==> final(self).compiled_from(pattern@),
            r is Ok ==> forall|k: int| 0 <= k < final(self).ops_seq().len() ==> !is_plain_jump(#[trigger] final(self).ops_seq()[k]),
            final(self).strings_valid(),
            char_tests(pattern@) matches Some(ts) ==> r is Ok && forall|text: Seq<char>| #[trigger] spec_match(
                final(self).ops_seq(),
                text,
                final(self).start(),
            ) == tests_match(ts, text),
            alt_tests(pattern@) matches Some(alts) ==> r is Ok && forall|text: Seq<char>| #[trigger] spec_match(
                final(self).ops_seq(),
                text,
                final(self).start(),
            ) == alts_match(alts, text),
            r matches Err(e) ==> e.pattern == pattern && final(self).is_cleared() && pattern_syntax(pattern@)
                == Err::<(), PatternErrorKind>(e.kind),
    {
        let mut ops: Vec<Op> = Vec::new();
        std::mem::swap(&mut ops, &mut self.ops);
        let compiler = PatternCompiler::new(ops, pattern);
        let (ops, result) = compiler.compile();
        self.ops = ops;
        proof {
            lemma_one_alt(pattern@);
        }
        match result {
            Ok(start_jump) => {
                self.start_jump = start_jump;
                proof {
                    if let Some(ts) = char_tests(pattern@) {
                        lemma_char_tests_ascii(pattern@);
                        lemma_char_tests_len(pattern@);
                        assert forall|text: Seq<char>| #[trigger] spec_match(self.ops_seq(), text, self.start())
                            == tests_match(ts, text) by {
                            lemma_tests_program_matches(self.ops@, ts, text);
                        }
                    }
                    if let Some(alts) = alt_tests(pattern@) {
                        lemma_one_alt(pattern@);
                        if alts.len() >= 2 {
                            assert forall|text: Seq<char>| #[trigger] spec_match(self.ops_seq(), text, self.start())
                                == alts_match(alts, text) by {
                                lemma_alts_program_matches(self.ops@, alts, text);
                            }
                        } else {
                            let ts = alts[0];
                            assert(alts =~= seq![ts]);
                            lemma_char_tests_ascii(pattern@);
                            lemma_char_tests_len(pattern@);
                            assert forall|text: Seq<char>| #[trigger] spec_match(self.ops_seq(), text, self.start())
                                == alts_match(alts, text) by {
                                lemma_tests_program_matches(self.ops@, ts, text);
                                lemma_one_alt_match(ts, text);
                            }
                        }
                    }
                }
                Ok(())
            },
            Err(kind) => {
                self.clear();
                Err(PatternError { pattern, kind })
            },
        }
    }

    /// Compiles a pattern typed to search: a leading `_` makes the search
    /// case sensitive, as does an upper case char; after that, a leading `%`
    /// makes the rest a pattern, otherwise the rest is searched literally.
    pub fn compile_searcher<'a>(&mut self, pattern: &'a str) -> (r: Result<(), PatternError<'a>>)
        requires
            pattern@.len() <= MAX_PATTERN_LEN,
        ensures
            ({
                let text = searcher_text(pattern@);
                let ignore = searcher_ignores_case(pattern@);
                if text.len() > 0 && text[0] == '%' {
                    &&& (r is Ok <==> pattern_syntax(text.drop_first()) is Ok)
                    &&& (r is Ok ==> exists|ops: Seq<Op>| program_compiled_from(ops, final(self).start(), text.drop_first())
                        && #[trigger] case_ops(ops, ignore) == final(self).ops_seq())
                    &&& (r is Ok ==> (char_tests(text.drop_first()) matches Some(ts) ==> forall|t: Seq<char>| #[trigger] spec_match(
                        final(self).ops_seq(),
                        t,
                        final(self).start(),
                    ) == tests_match_case(ts, t, ignore)))
                    &&& (r matches Err(e) ==> e.pattern@ == text.drop_first() && final(self).is_cleared()
                        && pattern_syntax(text.drop_first()) == Err::<(), PatternErrorKind>(e.kind))
                } else {
                    &&& r is Ok
                    &&& final(self).start() == 1
                    &&& is_literal_program(final(self).ops_seq(), text, searcher_ignores_case(pattern@))
                }
            }),
            final(self).strings_valid(),
    {
        let (ignore_case, text) = match strip_char_prefix(pattern, '_') {
            Some(rest) => (false, rest),
            None => {
                let chars = str_to_chars(pattern);
                let mut all_lower = true;
                let mut i: usize = 0;
                while i < chars.len()
                    invariant
                        i <= chars.len(),
                        chars@ == pattern@,
                        all_lower == forall|j: int| 0 <= j < i ==> unicode_lowercase(#[trigger] chars@[j]),
                    decreases chars.len() - i,
                {
                    if !char_is_lowercase(chars[i]) {
                        all_lower = false;
                    }
                    i = i + 1;
                }
                (all_lower, pattern)
            },
        };
        assert(text@ == searcher_text(pattern@));
        assert(ignore_case == searcher_ignores_case(pattern@));
        let ghost compiled: Seq<Op> = Seq::empty();
        match strip_char_prefix(text, '%') {
            Some(rest) => {
                match self.compile(rest) {
                    Ok(()) => {},
                    Err(e) => {
                        return Err(e);
                    },
                }
                proof {
                    compiled = self.ops@;
                    assert(rest@ == text@.drop_first());
                    if let Some(ts) = char_tests(rest@) {
                        lemma_char_tests_ascii(rest@);
                        lemma_char_tests_len(rest@);
                    }
                }
            },
            None => {
                let chars = str_to_chars(text);
                self.ops = literal_program(&chars);
                self.start_jump = Jump(1);
                proof {
                    lemma_literal_program_valid(self.ops@, chars@, false);
                }
            },
        }
        if ignore_case {
            let ghost before = self.ops@;
            self.ignore_case();
            proof {
                if !(text@.len() > 0 && text@[0] == '%') {
                    lemma_fold_literal_program(before, text@);
                }
            }
        }
        proof {
            if text@.len() > 0 && text@[0] == '%' {
                let rest = text@.drop_first();
                assert(case_ops(compiled, ignore_case) =~= self.ops@);
                assert(program_compiled_from(compiled, self.start(), rest));
                if let Some(ts) = char_tests(rest) {
                    assert forall|t: Seq<char>| #[trigger] spec_match(self.ops@, t, self.start())
                        == tests_match_case(ts, t, ignore_case) by {
                        lemma_case_tests_program_matches(compiled, ts, t, ignore_case);
                    }
                }
            }
        }
        Ok(())
    }

    /// The listing of the compiled program: one line per op, the op where
    /// matching starts marked with `>`.
    pub fn debug_string(&self) -> (r: String)
        requires
            self.strings_valid(),
        ensures
            r@ == listing(self.ops_seq(), self.start()),
    {
        listing_string(&self.ops, self.start_jump.0 as usize)
    }

    /// Makes every char and string test ignore ASCII case.
    pub fn ignore_case(&mut self)
        ensures
            final(self).ops_seq() == old(self).ops_seq().map_values(|op: Op| fold_op(op)),
            final(self).start() == old(self).start(),
            old(self).strings_valid() ==> final(self).strings_valid(),
    {
        let mut i: usize = 0;
        while i < self.ops.len()
            invariant
                i <= self.ops.len(),
                self.ops.len() == old(self).ops.len(),
                self.start_jump == old(self).start_jump,
                forall|j: int| 0 <= j < i ==> self.ops@[j] == fold_op(#[trigger] old(self).ops@[j]),
                forall|j: int| i <= j < self.ops.len() ==> self.ops@[j] == old(self).ops@[j],
            decreases self.ops.len() - i,
        {
            let op = fold_op_exec(self.ops[i]);
            self.ops.set(i, op);
            i = i + 1;
        }
        assert(self.ops@ =~= old(self).ops@.map_values(|op: Op| fold_op(op)));
        assert forall|k: int| 0 <= k < self.ops@.len() && valid_string_op(old(self).ops@[k]) implies valid_string_op(
            #[trigger] self.ops@[k],
        ) by {
            assert(self.ops@[k] == fold_op(old(self).ops@[k]));
        }
    }

    pub fn is_empty(&self) -> (r: bool)
        ensures
            r == spec_is_empty(self.ops_seq(), self.start()),
    {
        let k = self.start_jump.0 as usize;
        if k >= self.ops.len() {
            return true;
        }
        match self.ops[k] {
            Op::Accept | Op::Error => true,
            _ => false,
        }
    }

    /// A char that every match starts with, used to skip ahead while searching.
    pub fn search_anchor(&self) -> (r: Option<char>)
        ensures
            r == spec_search_anchor(self.ops_seq(), self.start()),
    {
        let k = self.start_jump.0 as usize;
        if k >= self.ops.len() {
            return None;
        }
        let (c, erj) = match self.ops[k] {
            Op::Error => return Some('\0'),
            Op::Char(_, erj, c) => (c, erj),
            Op::String(_, erj, len, bytes) => {
                if len > 10 {
                    return None;
                }
                match decode_first_char(&bytes, len as usize) {
                    Some(c) => (c, erj),
                    None => return None,
                }
            },
            _ => return None,
        };
        let e = erj.0 as usize;
        if e < self.ops.len() {
            match self.ops[e] {
                Op::Error => Some(c),
                _ => None,
            }
        } else {
            None
        }
    }

    /// Matches the pattern against the start of `text`.
    pub fn matches(&self, text: &str) -> (r: MatchResult)
        ensures
            r == spec_match(self.ops_seq(), text@, self.start()),
    {
        let state = PatternState { op_index: self.start_jump.0 as usize };
        self.matches_with_state(text, state)
    }

    /// Resumes a pending match on `text`.
    pub fn matches_with_state(&self, text: &str, state: PatternState) -> (r: MatchResult)
        ensures
            r == spec_match(self.ops_seq(), text@, state.op_index as int),
    {
        let _len = str_byte_len(text);
        let chars = str_to_chars(text);
        let offsets = char_offsets(&chars);
        run_ops(&self.ops, &chars, &offsets, state.op_index)
    }
}


/// The first position of `a` in `t` from `pos` on.
pub open spec fn find_char_from(t: Seq<char>, pos: int, a: char) -> Option<int>
    decreases t.len() - pos,
{
    if pos < 0 || pos >= t.len() {
        None
    } else if t[pos] == a {
        Some(pos)
    } else {
        find_char_from(t, pos + 1, a)
    }
}

/// Where a search from `pos` tries a match: at `pos`, or with an anchor at
/// its next occurrence.
pub open spec fn anchored(t: Seq<char>, pos: int, anchor: Option<char>) -> Option<int> {
    match anchor {
        Some(a) => find_char_from(t, pos, a),
        None => Some(pos),
    }
}

/// The next non-empty match of `p` in `t` from char `pos` on, as the char
/// positions where it starts and ends.
pub open spec fn next_match(p: Pattern, t: Seq<char>, pos: int, anchor: Option<char>) -> Option<(int, int)>
    decreases t.len() - pos,
{
    if pos < 0 || pos > t.len() {
        None
    } else {
        match anchored(t, pos, anchor) {
            None => None,
            Some(q) => {
                let found = match spec_match(p.ops_seq(), t.skip(q), p.start()) {
                    MatchResult::Matched(len) => if len > 0 {
                        Some(len)
                    } else {
                        None
                    },
                    _ => None,
                };
                match found {
                    Some(len) => Some((q, boundary_from(t, offset(t, q) + len, q))),
                    None => if pos <= q < t.len() {
                        next_match(p, t, q + 1, anchor)
                    } else {
                        None
                    },
                }
            },
        }
    }
}

/// The found anchor lies at or after the start, within the text.
proof fn lemma_find_char_bounds(t: Seq<char>, pos: int, a: char)
    requires
        0 <= pos,
    ensures
        find_char_from(t, pos, a) matches Some(q) ==> pos <= q < t.len() && t[q] == a,
    decreases t.len() - pos,
{
    if 0 <= pos < t.len() && t[pos] != a {
        lemma_find_char_bounds(t, pos + 1, a);
    }
}

/// Byte length of a slice of chars: the difference of the offsets of its ends.
proof fn lemma_byte_len_slice(t: Seq<char>, q: int, k: int)
    requires
        0 <= q,
        0 <= k,
        q + k <= t.len(),
    ensures
        byte_len(t.skip(q).take(k)) == byte_len(t.take(q + k)) - byte_len(t.take(q)),
{
    assert(t.take(q) + t.skip(q).take(k) =~= t.take(q + k));
    crate::text::lemma_encode_concat(t.take(q), t.skip(q).take(k));
}

/// The successive non-empty matches of a pattern in a text.
pub struct MatchIndices<'pattern, 'text> {
    pattern: &'pattern Pattern,
    text: &'text str,
    chars: Vec<char>,
    offsets: Vec<usize>,
    pos: usize,
    anchor: Option<char>,
}

impl<'pattern, 'text> MatchIndices<'pattern, 'text> {
    /// The pattern searched for.
    pub closed spec fn searched(&self) -> Pattern {
        *self.pattern
    }

    /// The whole text searched.
    pub closed spec fn text_chars(&self) -> Seq<char> {
        self.text@
    }

    /// The char position the search resumes at.
    pub closed spec fn position(&self) -> int {
        self.pos as int
    }

    pub closed spec fn anchor_char(&self) -> Option<char> {
        self.anchor
    }

    pub closed spec fn wf(&self) -> bool {
        &&& self.chars@ == self.text@
        &&& self.offsets.len() == self.chars.len() + 1
        &&& forall|i: int| 0 <= i <= self.chars.len() ==> self.offsets[i] == byte_len(#[trigger] self.chars@.take(i))
        &&& self.pos <= self.chars.len()
    }

    /// The next non-empty match: its byte offset in the text and its text.
    pub fn next(&mut self) -> (r: Option<(usize, &'text str)>)
        requires
            old(self).wf(),
        ensures
            final(self).wf(),
            final(self).searched() == old(self).searched(),
            final(self).text_chars() == old(self).text_chars(),
            final(self).anchor_char() == old(self).anchor_char(),
            match next_match(
                old(self).searched(),
                old(self).text_chars(),
                old(self).position(),
                old(self).anchor_char(),
            ) {
                Some((a, b)) => r matches Some(m) && m.0 == offset(old(self).text_chars(), a) && m.1@
                    == old(self).text_chars().subrange(a, b) && final(self).position() == b,
                None => r is None && final(self).position() == old(self).text_chars().len(),
            },
    {
        let ghost t = self.text@;
        let ghost start = self.pos as int;
        let n = self.chars.len();
        proof {
            assert(t.take(n as int) =~= t);
        }
        loop
            invariant
                self.wf(),
                t == self.text@,
                n == self.chars.len(),
                self.searched() == old(self).searched(),
                self.text_chars() == old(self).text_chars(),
                self.anchor_char() == old(self).anchor_char(),
                t.take(n as int) == t,
                start == old(self).position(),
                next_match(self.searched(), t, start, self.anchor) == next_match(self.searched(), t, self.pos as int, self.anchor),
            decreases n - self.pos,
        {
            let pos = self.pos;
            let q = match self.anchor {
                Some(a) => {
                    let mut j = pos;
                    while j < n && self.chars[j] != a
                        invariant
                            pos <= j <= n,
                            n == self.chars.len(),
                            self.chars@ == t,
                            find_char_from(t, pos as int, a) == find_char_from(t, j as int, a),
                        decreases n - j,
                    {
                        j = j + 1;
                    }
                    if j == n {
                        proof {
                            assert(find_char_from(t, n as int, a) is None);
                            assert(next_match(self.searched(), t, pos as int, self.anchor) is None);
                        }
                        self.pos = n;
                        return None;
                    }
                    assert(find_char_from(t, j as int, a) == Some(j as int));
                    j
                },
                None => pos,
            };
            assert(anchored(t, pos as int, self.anchor) == Some(q as int));
            let (_, rest) = split_at_char(self.text, q, self.offsets[q]);
            let found = match self.pattern.matches(rest) {
                MatchResult::Matched(len) => if len > 0 {
                    Some(len)
                } else {
                    None
                },
                _ => None,
            };
            match found {
                Some(len) => {
                    let total = self.offsets[n];
                    let from = self.offsets[q];
                    proof {
                        crate::text::lemma_byte_len_take_mono(t, q as int, n as int);
                    }
                    let target = if len >= total - from {
                        total
                    } else {
                        from + len
                    };
                    proof {
                        let b = offset(t, q as int) + len;
                        if b >= byte_len(t) {
                            lemma_boundary_clamp(t, b, q as int);
                        }
                    }
                    let b = boundary(&self.chars, &self.offsets, target, q);
                    proof {
                        lemma_byte_len_slice(t, q as int, b - q);
                        assert(rest@.take(b - q) =~= t.subrange(q as int, b as int));
                    }
                    let (matched, _) = split_at_char(rest, b - q, self.offsets[b] - from);
                    assert(next_match(self.searched(), t, pos as int, self.anchor) == Some((q as int, b as int)));
                    self.pos = b;
                    return Some((from, matched));
                },
                None => {
                    if q < n {
                        self.pos = q + 1;
                    } else {
                        assert(next_match(self.searched(), t, pos as int, self.anchor) is None);
                        self.pos = n;
                        return None;
                    }
                },
            }
        }
    }
}

impl Pattern {
    /// The non-empty matches of the pattern in `text`, from its start; with
    /// an anchor, matches are only tried where the anchor char stands.
    pub fn match_indices<'pattern, 'text>(&'pattern self, text: &'text str, anchor: Option<char>) -> (r: MatchIndices<'pattern, 'text>)
        ensures
            r.wf(),
            r.searched() == *self,
            r.text_chars() == text@,
            r.position() == 0,
            r.anchor_char() == anchor,
    {
        let _len = str_byte_len(text);
        let chars = str_to_chars(text);
        let offsets = char_offsets(&chars);
        MatchIndices { pattern: self, text, chars, offsets, pos: 0, anchor }
    }
}

/// A run of a string test stays within the text.
proof fn lemma_prefix_match_within(t: Seq<char>, pos: int, b: Seq<u8>, fold: bool)
    requires
        0 <= pos <= t.len(),
    ensures
        prefix_match(t, pos, b, fold) matches Some(k) ==> 0 <= k && pos + k <= t.len(),
    decreases b.len(),
{
    if b.len() > 0 && 0 <= pos < t.len() {
        let cb = char_bytes(t[pos]);
        if cb.len() <= b.len() && bytes_eq(cb, b.take(cb.len() as int), fold) {
            lemma_prefix_match_within(t, pos + 1, b.skip(cb.len() as int), fold);
        }
    }
}

/// A step keeps the position within the text, and a match it stops with
/// covers the chars before the position.
proof fn lemma_step_within(ops: Seq<Op>, t: Seq<char>, pc: int, pos: int)
    requires
        0 <= pos <= t.len(),
    ensures
        step(ops, t, pc, pos) matches Step::Next(pc2, pos2) ==> 0 <= pos2 <= t.len(),
        step(ops, t, pc, pos) matches Step::Stop(MatchResult::Matched(n)) ==> n == byte_len(t.take(pos)) as usize,
{
    if 0 <= pc < ops.len() {
        match ops[pc] {
            Op::String(okj, erj, len, bytes) => {
                lemma_prefix_match_within(t, pos, bytes@.take(len as int), false);
            },
            Op::StringCaseInsensitive(okj, erj, len, bytes) => {
                lemma_prefix_match_within(t, pos, bytes@.take(len as int), true);
            },
            _ => {},
        }
    }
}

/// A run from a position within the text that ends in a match matches the
/// bytes of some first chars of the text.
proof fn lemma_run_within(ops: Seq<Op>, t: Seq<char>, pc: int, pos: int, fuel: nat)
    requires
        0 <= pos <= t.len(),
    ensures
        run(ops, t, pc, pos, fuel) matches MatchResult::Matched(n) ==> exists|k: int|
            0 <= k <= t.len() && n == #[trigger] byte_len(t.take(k)) as usize,
    decreases fuel,
{
    if fuel > 0 {
        lemma_step_within(ops, t, pc, pos);
        match step(ops, t, pc, pos) {
            Step::Next(pc2, pos2) => {
                lemma_run_within(ops, t, pc2, pos2, (fuel - 1) as nat);
            },
            Step::Stop(r) => {
                if let MatchResult::Matched(n) = r {
                    assert(n == byte_len(t.take(pos)) as usize);
                }
            },
        }
    }
}

/// Whatever the program, a match ends on a char boundary of the text: it
/// covers the bytes of the text's first `k` chars, for some `k`.
pub proof fn lemma_match_ends_on_char_boundary(ops: Seq<Op>, t: Seq<char>, pc: int)
    ensures
        spec_match(ops, t, pc) matches MatchResult::Matched(n) ==> exists|k: int|
            0 <= k <= t.len() && n == #[trigger] byte_len(t.take(k)) as usize,
{
    lemma_run_within(ops, t, pc, 0, match_fuel());
}

/// The first char position from `q` on whose offset reaches that of `r`
/// is `r`.
proof fn lemma_boundary_exact(t: Seq<char>, q: int, r: int)
    requires
        0 <= q <= r <= t.len(),
    ensures
        boundary_from(t, offset(t, r), q) == r,
    decreases r - q,
{
    if q < r {
        lemma_byte_len_take_next(t, q);
        lemma_byte_len_take_mono(t, q + 1, r);
        lemma_boundary_exact(t, q + 1, r);
    }
}

/// The next match of a search lies at or after the search position, is not
/// empty, ends within the text, and covers exactly the bytes that the
/// pattern matches where it starts: matches found one after the other
/// never overlap.
pub proof fn lemma_next_match_exact(p: Pattern, t: Seq<char>, pos: int, anchor: Option<char>)
    requires
        0 <= pos <= t.len(),
        byte_len(t) <= usize::MAX,
    ensures
        next_match(p, t, pos, anchor) matches Some((a, b)) ==> {
            &&& pos <= a < b <= t.len()
            &&& spec_match(p.ops_seq(), t.skip(a), p.start()) == MatchResult::Matched(
                byte_len(t.subrange(a, b)) as usize,
            )
        },
    decreases t.len() - pos,
{
    if let Some(a) = anchor {
        lemma_find_char_bounds(t, pos, a);
    }
    if let Some(q) = anchored(t, pos, anchor) {
        let m = spec_match(p.ops_seq(), t.skip(q), p.start());
        if m is Matched && m->Matched_0 > 0 {
            let len = m->Matched_0;
            lemma_match_ends_on_char_boundary(p.ops_seq(), t.skip(q), p.start());
            let k = choose|k: int| 0 <= k <= t.skip(q).len() && len == #[trigger] byte_len(t.skip(q).take(k)) as usize;
            lemma_byte_len_slice(t, q, k);
            lemma_byte_len_take_mono(t, q + k, t.len() as int);
            lemma_byte_len_take_mono(t, q, q + k);
            assert(t.take(t.len() as int) =~= t);
            assert(byte_len(t.skip(q).take(k)) as usize == byte_len(t.skip(q).take(k)));
            assert(offset(t, q) + len == offset(t, q + k));
            lemma_boundary_exact(t, q, q + k);
            if k == 0 {
                assert(t.skip(q).take(0) =~= Seq::<char>::empty());
                assert(byte_len(Seq::<char>::empty()) == 0);
            }
            assert(t.subrange(q, q + k) =~= t.skip(q).take(k));
        } else if pos <= q < t.len() {
            lemma_next_match_exact(p, t, q + 1, anchor);
        }
    }
}

/// A cleared pattern (what a failed compile leaves) matches no text.
pub proof fn lemma_cleared_matches_nothing(p: Pattern, t: Seq<char>)
    requires
        p.is_cleared(),
    ensures
        spec_match(p.ops_seq(), t, p.start()) == MatchResult::Failed,
{
}

/// A char whose encoding starts the encoding of `c` is the first char of `c`.
proof fn lemma_encoding_prefix_char(x: char, c: Seq<char>)
    requires
        c.len() > 0,
        char_bytes(x).len() <= vstd::utf8::encode_utf8(c).len(),
        char_bytes(x) == vstd::utf8::encode_utf8(c).take(char_bytes(x).len() as int),
    ensures
        x == c[0],
{
    let xs = char_bytes(x);
    let b = vstd::utf8::encode_utf8(c);
    assert(seq![x].drop_first() =~= Seq::<char>::empty());
    assert(vstd::utf8::encode_utf8(seq![x]) =~= xs + vstd::utf8::encode_utf8(Seq::<char>::empty()));
    assert(vstd::utf8::encode_utf8(seq![x]) =~= xs);
    vstd::utf8::encode_utf8_first_scalar(seq![x]);
    vstd::utf8::encode_utf8_first_scalar(c);
    assert(xs[0] == b[0]);
    assert(forall|i: int| 0 <= i < xs.len() ==> xs[i] == b[i]);
    if xs.len() >= 2 {
        assert(xs[1] == b[1]);
    }
    if xs.len() >= 3 {
        assert(xs[2] == b[2]);
    }
    if xs.len() >= 4 {
        assert(xs[3] == b[3]);
    }
    assert(vstd::utf8::decode_first_scalar(xs) == vstd::utf8::decode_first_scalar(b));
    vstd::utf8::char_u32_cast(x, x as u32);
    vstd::utf8::char_u32_cast(c[0], c[0] as u32);
}

/// Matching the encoding of `c` at `pos` finds `c` there, char by char.
pub(crate) proof fn lemma_prefix_match_literal(t: Seq<char>, pos: int, c: Seq<char>)
    requires
        0 <= pos <= t.len(),
    ensures
        prefix_match(t, pos, vstd::utf8::encode_utf8(c), false) == if pos + c.len() <= t.len() && t.subrange(
            pos,
            pos + c.len(),
        ) == c {
            Some(c.len() as int)
        } else {
            None
        },
    decreases c.len(),
{
    let b = vstd::utf8::encode_utf8(c);
    if c.len() == 0 {
        assert(b =~= Seq::<u8>::empty());
        assert(t.subrange(pos, pos) =~= c);
    } else {
        vstd::utf8::encode_utf8_first_scalar(c);
        assert(b.len() > 0);
        if pos < t.len() {
            let cb = char_bytes(t[pos]);
            let rest = c.drop_first();
            assert(b == char_bytes(c[0]) + vstd::utf8::encode_utf8(rest));
            if t[pos] == c[0] {
                assert(b.take(cb.len() as int) =~= cb);
                assert(b.skip(cb.len() as int) =~= vstd::utf8::encode_utf8(rest));
                assert(bytes_eq(cb, b.take(cb.len() as int), false));
                lemma_prefix_match_literal(t, pos + 1, rest);
                if pos + c.len() <= t.len() {
                    if t.subrange(pos + 1, pos + 1 + rest.len()) == rest {
                        assert forall|m: int| 0 <= m < c.len() implies t.subrange(pos, pos + c.len())[m] == c[m] by {
                            if m > 0 {
                                assert(t.subrange(pos + 1, pos + 1 + rest.len())[m - 1] == rest[m - 1]);
                            }
                        }
                        assert(t.subrange(pos, pos + c.len()) =~= c);
                    } else {
                        assert(t.subrange(pos, pos + c.len()).drop_first() =~= t.subrange(pos + 1, pos + 1 + rest.len()));
                    }
                }
            } else {
                if cb.len() <= b.len() && bytes_eq(cb, b.take(cb.len() as int), false) {
                    assert(cb =~= b.take(cb.len() as int));
                    lemma_encoding_prefix_char(t[pos], c);
                }
                if pos + c.len() <= t.len() {
                    assert(t.subrange(pos, pos + c.len())[0] == t[pos]);
                }
            }
        }
    }
}

/// The end of the first chunk lies after its start and within the text.
proof fn lemma_chunk_end_bounds(p: Seq<char>, k: int)
    requires
        0 <= k <= p.len(),
    ensures
        k <= chunk_end(p, k) <= p.len(),
    decreases p.len() - k,
{
    if k < p.len() && byte_len(p.take(k + 1)) < OP_STRING_LEN {
        lemma_chunk_end_bounds(p, k + 1);
    }
}

/// A non-empty literal has a non-empty first chunk.
proof fn lemma_first_chunk_nonempty(p: Seq<char>)
    requires
        p.len() > 0,
    ensures
        1 <= chunk_end(p, 0) <= p.len(),
{
    lemma_byte_len_take_next(p, 0);
    assert(p.take(0) =~= Seq::<char>::empty());
    assert(vstd::utf8::encode_utf8(Seq::<char>::empty()) =~= Seq::<u8>::empty());
    char_len_bound(p[0]);
    lemma_chunk_end_bounds(p, 1);
}

/// A char takes at most four bytes.
proof fn char_len_bound(c: char)
    ensures
        1 <= char_bytes(c).len() <= 4,
{
}

/// Two char sequences are the same, or the same up to ASCII case when `fold`.
pub open spec fn same_chars(a: Seq<char>, b: Seq<char>, fold: bool) -> bool {
    &&& a.len() == b.len()
    &&& forall|i: int|
        0 <= i < a.len() ==> if fold {
            fold_char(#[trigger] a[i]) == fold_char(b[i])
        } else {
            a[i] == b[i]
        }
}

/// An ASCII char is its one byte; the bytes of any other char are all high.
proof fn lemma_char_bytes_ascii(c: char)
    ensures
        (c as u32) < 0x80 ==> char_bytes(c) == seq![(c as u32) as u8],
        (c as u32) >= 0x80 ==> char_bytes(c).len() >= 2 && forall|i: int| 0 <= i < char_bytes(c).len() ==> #[trigger] char_bytes(c)[i] >= 0x80,
{
    vstd::utf8::char_is_scalar(c);
    let v = c as u32;
    if v < 0x80 {
        assert((v & 0x7F) as u8 == v as u8) by (bit_vector)
            requires
                v < 0x80,
        ;
    } else {
        let b = char_bytes(c);
        assert forall|x: u32| #![auto] (0x80u8 | ((x & 0x3F) as u8)) >= 0x80 by {
            assert((0x80u8 | ((x & 0x3F) as u8)) >= 0x80) by (bit_vector);
        }
        assert forall|x: u32| #![auto] (0x80u8 | (((x >> 6) & 0x3F) as u8)) >= 0x80 by {
            assert((0x80u8 | (((x >> 6) & 0x3F) as u8)) >= 0x80) by (bit_vector);
        }
        assert forall|x: u32| #![auto] (0x80u8 | (((x >> 12) & 0x3F) as u8)) >= 0x80 by {
            assert((0x80u8 | (((x >> 12) & 0x3F) as u8)) >= 0x80) by (bit_vector);
        }
        assert forall|x: u32| #![auto] (0xC0u8 | (((x >> 6) & 0x1F) as u8)) >= 0x80 by {
            assert((0xC0u8 | (((x >> 6) & 0x1F) as u8)) >= 0x80) by (bit_vector);
        }
        assert forall|x: u32| #![auto] (0xE0u8 | (((x >> 12) & 0x0F) as u8)) >= 0x80 by {
            assert((0xE0u8 | (((x >> 12) & 0x0F) as u8)) >= 0x80) by (bit_vector);
        }
        assert forall|x: u32| #![auto] (0xF0u8 | (((x >> 18) & 0x7) as u8)) >= 0x80 by {
            assert((0xF0u8 | (((x >> 18) & 0x7) as u8)) >= 0x80) by (bit_vector);
        }
    }
}

/// On an ASCII char, folding its byte folds the char.
proof fn lemma_fold_ascii(c: char)
    requires
        (c as u32) < 0x80,
    ensures
        fold_byte((c as u32) as u8) as u32 == fold_char(c),
{
    let v = c as u32;
    assert(is_upper(c) <==> 65 <= v <= 90);
    assert((v as u8) as u32 == v) by (bit_vector)
        requires
            v < 0x80,
    ;
}

/// Two chars with the same ASCII lowercase are equal, or both ASCII.
pub(crate) proof fn lemma_fold_char_eq(x: char, y: char)
    requires
        fold_char(x) == fold_char(y),
    ensures
        x == y || ((x as u32) < 0x80 && (y as u32) < 0x80),
{
    let vx = x as u32;
    let vy = y as u32;
    assert(is_upper(x) <==> 65 <= vx <= 90);
    assert(is_upper(y) <==> 65 <= vy <= 90);
}

/// Two chars with the same ASCII lowercase agree on being a letter, a digit
/// or either.
pub(crate) proof fn lemma_fold_char_classes(x: char, y: char)
    requires
        fold_char(x) == fold_char(y),
    ensures
        is_alpha(x) == is_alpha(y),
        is_digit(x) == is_digit(y),
        is_alnum(x) == is_alnum(y),
{
    let vx = x as u32;
    let vy = y as u32;
    assert(is_upper(x) <==> 65 <= vx <= 90);
    assert(is_upper(y) <==> 65 <= vy <= 90);
    assert(is_lower(x) <==> 97 <= vx <= 122);
    assert(is_lower(y) <==> 97 <= vy <= 122);
    assert(is_digit(x) <==> 48 <= vx <= 57);
    assert(is_digit(y) <==> 48 <= vy <= 57);
}

/// Matching the case folded encoding of `c` at `pos` finds `c` there up to ASCII case.
proof fn lemma_prefix_match_folded(t: Seq<char>, pos: int, c: Seq<char>)
    requires
        0 <= pos <= t.len(),
    ensures
        prefix_match(t, pos, vstd::utf8::encode_utf8(c), true) == if pos + c.len() <= t.len() && same_chars(
            t.subrange(pos, pos + c.len()),
            c,
            true,
        ) {
            Some(c.len() as int)
        } else {
            None
        },
    decreases c.len(),
{
    let b = vstd::utf8::encode_utf8(c);
    if c.len() == 0 {
        assert(b =~= Seq::<u8>::empty());
    } else {
        vstd::utf8::encode_utf8_first_scalar(c);
        if pos < t.len() {
            let x = t[pos];
            let y = c[0];
            let cb = char_bytes(x);
            let rest = c.drop_first();
            assert(b == char_bytes(y) + vstd::utf8::encode_utf8(rest));
            lemma_char_bytes_ascii(x);
            lemma_char_bytes_ascii(y);
            lemma_prefix_match_folded(t, pos + 1, rest);
            let sub = t.subrange(pos, pos + c.len());
            if pos + c.len() <= t.len() {
                assert(sub[0] == x);
                assert(same_chars(sub, c, true) <==> (fold_char(x) == fold_char(y) && same_chars(
                    t.subrange(pos + 1, pos + 1 + rest.len()),
                    rest,
                    true,
                ))) by {
                    if same_chars(sub, c, true) {
                        assert forall|i: int| 0 <= i < rest.len() implies fold_char(
                            #[trigger] t.subrange(pos + 1, pos + 1 + rest.len())[i],
                        ) == fold_char(rest[i]) by {
                            assert(fold_char(sub[i + 1]) == fold_char(c[i + 1]));
                        }
                    }
                    if fold_char(x) == fold_char(y) && same_chars(t.subrange(pos + 1, pos + 1 + rest.len()), rest, true) {
                        assert forall|i: int| 0 <= i < sub.len() implies fold_char(#[trigger] sub[i]) == fold_char(c[i]) by {
                            if i > 0 {
                                assert(t.subrange(pos + 1, pos + 1 + rest.len())[i - 1] == sub[i]);
                            }
                        }
                    }
                }
            }
            if fold_char(x) == fold_char(y) {
                lemma_fold_char_eq(x, y);
                if x != y {
                    lemma_fold_ascii(x);
                    lemma_fold_ascii(y);
                }
                assert(cb.len() == char_bytes(y).len());
                assert(b.take(cb.len() as int) =~= char_bytes(y));
                assert(b.skip(cb.len() as int) =~= vstd::utf8::encode_utf8(rest));
                assert(bytes_eq(cb, b.take(cb.len() as int), true));
            } else {
                if cb.len() <= b.len() && bytes_eq(cb, b.take(cb.len() as int), true) {
                    if (x as u32) < 0x80 {
                        assert(fold_byte(cb[0]) == fold_byte(b[0]));
                        if (y as u32) >= 0x80 {
                            assert(b[0] >= 0x80);
                        } else {
                            lemma_fold_ascii(x);
                            lemma_fold_ascii(y);
                        }
                    } else {
                        assert forall|i: int| 0 <= i < cb.len() implies cb[i] == b.take(cb.len() as int)[i] by {
                            assert(fold_byte(cb[i]) == fold_byte(b.take(cb.len() as int)[i]));
                        }
                        assert(cb =~= b.take(cb.len() as int));
                        lemma_encoding_prefix_char(x, c);
                    }
                }
            }
        }
    }
}

/// Matching the encoding of `c` at `pos`, with or without case folding.
pub(crate) proof fn lemma_prefix_match_chars(t: Seq<char>, pos: int, c: Seq<char>, fold: bool)
    requires
        0 <= pos <= t.len(),
    ensures
        prefix_match(t, pos, vstd::utf8::encode_utf8(c), fold) == if pos + c.len() <= t.len() && same_chars(
            t.subrange(pos, pos + c.len()),
            c,
            fold,
        ) {
            Some(c.len() as int)
        } else {
            None
        },
{
    if fold {
        lemma_prefix_match_folded(t, pos, c);
    } else {
        lemma_prefix_match_literal(t, pos, c);
        if pos + c.len() <= t.len() {
            assert(same_chars(t.subrange(pos, pos + c.len()), c, false) <==> t.subrange(pos, pos + c.len()) =~= c);
        }
    }
}

/// Running the chunk ops of `rest` from op `i + 1` at char `pos`: the match
/// succeeds when the text goes on with `rest` there.
proof fn lemma_run_literal(ops: Seq<Op>, rest: Seq<char>, i: int, t: Seq<char>, pos: int, fuel: nat, fold: bool)
    requires
        0 <= i,
        0 <= pos <= t.len(),
        fuel >= rest.len() + 2,
        rest.len() <= MAX_PATTERN_LEN,
        ops.len() == i + chunks(rest).len() + 2,
        ops[0] is Error,
        ops[ops.len() - 1] is Accept,
        forall|j: int| 0 <= j < chunks(rest).len() ==> is_chunk_op(#[trigger] ops[i + 1 + j], i + 2 + j, chunks(rest)[j], fold),
    ensures
        run(ops, t, i + 1, pos, fuel) == if pos + rest.len() <= t.len() && same_chars(
            t.subrange(pos, pos + rest.len()),
            rest,
            fold,
        ) {
            MatchResult::Matched(byte_len(t.take(pos + rest.len())) as usize)
        } else {
            MatchResult::Failed
        },
    decreases rest.len(),
{
    if rest.len() == 0 {
        assert(t.take(pos + 0) =~= t.take(pos));
        assert(ops[i + 1] is Accept);
        assert(step(ops, t, i + 1, pos) == Step::Stop(MatchResult::Matched(byte_len(t.take(pos)) as usize)));
    } else {
        lemma_first_chunk_nonempty(rest);
        let k = chunk_end(rest, 0);
        let c0 = rest.take(k);
        let tail = rest.skip(k);
        assert(chunks(rest) == seq![c0] + chunks(tail));
        assert(is_chunk_op(ops[i + 1 + 0], i + 2, chunks(rest)[0], fold));
        lemma_prefix_match_chars(t, pos, c0, fold);
        let m = pos + k <= t.len() && same_chars(t.subrange(pos, pos + k), c0, fold);
        if m {
            assert(step(ops, t, i + 1, pos) == Step::Next(i + 2, pos + k));
            assert forall|n: int| 0 <= n < chunks(tail).len() implies is_chunk_op(
                #[trigger] ops[(i + 1) + 1 + n],
                (i + 1) + 2 + n,
                chunks(tail)[n],
                fold,
            ) by {
                assert(chunks(rest)[n + 1] == chunks(tail)[n]);
                assert(is_chunk_op(ops[i + 1 + (n + 1)], i + 2 + (n + 1), chunks(rest)[n + 1], fold));
            }
            lemma_run_literal(ops, tail, i + 1, t, pos + k, (fuel - 1) as nat, fold);
        } else {
            assert(step(ops, t, i + 1, pos) == Step::Next(0, pos));
            assert(step(ops, t, 0, pos) == Step::Stop(MatchResult::Failed));
            assert(run(ops, t, 0, pos, (fuel - 1) as nat) == MatchResult::Failed);
        }
        if pos + rest.len() <= t.len() {
            let whole = t.subrange(pos, pos + rest.len());
            let first = t.subrange(pos, pos + k);
            let second = t.subrange(pos + k, pos + k + tail.len());
            assert(first =~= whole.take(k));
            assert(second =~= whole.skip(k));
            assert(c0 =~= rest.take(k));
            assert(tail =~= rest.skip(k));
            assert(same_chars(whole, rest, fold) <==> (same_chars(first, c0, fold) && same_chars(second, tail, fold))) by {
                if same_chars(whole, rest, fold) {
                    assert forall|n: int| 0 <= n < second.len() implies (if fold {
                        fold_char(#[trigger] second[n]) == fold_char(tail[n])
                    } else {
                        second[n] == tail[n]
                    }) by {
                        assert(second[n] == whole[n + k]);
                        assert(tail[n] == rest[n + k]);
                    }
                }
                if same_chars(first, c0, fold) && same_chars(second, tail, fold) {
                    assert forall|n: int| 0 <= n < whole.len() implies (if fold {
                        fold_char(#[trigger] whole[n]) == fold_char(rest[n])
                    } else {
                        whole[n] == rest[n]
                    }) by {
                        if n < k {
                            assert(whole[n] == first[n]);
                        } else {
                            assert(whole[n] == second[n - k]);
                            assert(rest[n] == tail[n - k]);
                        }
                    }
                }
            }
        }
    }
}

/// A literal search program finds the literal: it matches exactly the texts
/// that start with it (up to ASCII case for a case insensitive program),
/// over the bytes of that start.
pub proof fn lemma_literal_program_matches(ops: Seq<Op>, p: Seq<char>, t: Seq<char>, fold: bool)
    requires
        is_literal_program(ops, p, fold),
        p.len() <= MAX_PATTERN_LEN,
    ensures
        spec_match(ops, t, 1) == if p.len() <= t.len() && same_chars(t.take(p.len() as int), p, fold) {
            MatchResult::Matched(byte_len(t.take(p.len() as int)) as usize)
        } else {
            MatchResult::Failed
        },
{
    assert forall|j: int| 0 <= j < chunks(p).len() implies is_chunk_op(#[trigger] ops[0 + 1 + j], 0 + 2 + j, chunks(p)[j], fold) by {
        assert(is_chunk_op(ops[j + 1], j + 2, chunks(p)[j], fold));
    }
    lemma_run_literal(ops, p, 0, t, 0, match_fuel(), fold);
    if p.len() <= t.len() {
        assert(t.subrange(0, p.len() as int) =~= t.take(p.len() as int));
    }
}

} // verus!
