//! Syntax highlighting: each token kind has a pattern, a line is cut into
//! tokens by taking, at each point, the longest match among the patterns,
//! and a token that is still open at the end of a line (a block comment)
//! carries over to the next line.

use vstd::prelude::*;
use std::ops::Range;
use crate::buffer_position::BufferRange;
use crate::pattern::{char_offsets, spec_match, MatchResult, Pattern, PatternError, PatternErrorKind, PatternState};
use crate::pattern::compiler::{pattern_syntax, MAX_PATTERN_LEN};
use crate::text::{
    ascii_alphanumeric, byte_len, char_bytes, is_alnum, lemma_byte_len_take_mono,
    lemma_byte_len_take_next, split_at_char, str_byte_len, str_to_chars,
};

verus! {

/// How many lines one call of `highlight_dirty_lines` parses at most.
pub const MAX_HIGHLIGHT_COUNT: usize = 2048;

#[derive(Debug, Clone, Copy, PartialEq, Eq, Structural)]
pub enum TokenKind {
    Keyword,
    Type,
    Symbol,
    Literal,
    String,
    Comment,
    Text,
    Whitespace,
}

/// Index of the rule of a token kind (`Whitespace` has none).
pub open spec fn rule_index(kind: TokenKind) -> int {
    match kind {
        TokenKind::Keyword => 0,
        TokenKind::Type => 1,
        TokenKind::Symbol => 2,
        TokenKind::Literal => 3,
        TokenKind::String => 4,
        TokenKind::Comment => 5,
        TokenKind::Text => 6,
        TokenKind::Whitespace => 7,
    }
}

/// The token kind of rule `i`.
pub open spec fn kind_at(i: int) -> TokenKind {
    if i == 0 {
        TokenKind::Keyword
    } else if i == 1 {
        TokenKind::Type
    } else if i == 2 {
        TokenKind::Symbol
    } else if i == 3 {
        TokenKind::Literal
    } else if i == 4 {
        TokenKind::String
    } else if i == 5 {
        TokenKind::Comment
    } else if i == 6 {
        TokenKind::Text
    } else {
        TokenKind::Whitespace
    }
}

fn rule_index_exec(kind: TokenKind) -> (r: usize)
    ensures
        r == rule_index(kind),
{
    match kind {
        TokenKind::Keyword => 0,
        TokenKind::Type => 1,
        TokenKind::Symbol => 2,
        TokenKind::Literal => 3,
        TokenKind::String => 4,
        TokenKind::Comment => 5,
        TokenKind::Text => 6,
        TokenKind::Whitespace => 7,
    }
}

fn kind_at_exec(i: usize) -> (r: TokenKind)
    ensures
        r == kind_at(i as int),
{
    if i == 0 {
        TokenKind::Keyword
    } else if i == 1 {
        TokenKind::Type
    } else if i == 2 {
        TokenKind::Symbol
    } else if i == 3 {
        TokenKind::Literal
    } else if i == 4 {
        TokenKind::String
    } else if i == 5 {
        TokenKind::Comment
    } else if i == 6 {
        TokenKind::Text
    } else {
        TokenKind::Whitespace
    }
}

/// A token of a line: its kind and its byte range.
#[derive(Debug, PartialEq, Eq)]
pub struct Token {
    pub kind: TokenKind,
    pub range: Range<usize>,
}

impl Clone for Token {
    fn clone(&self) -> (r: Self)
        ensures
            r == *self,
    {
        Token { kind: self.kind, range: self.range.start..self.range.end }
    }
}

/// The token of `kind` over the bytes `from..to`.
pub open spec fn token(kind: TokenKind, from: int, to: int) -> Token {
    Token { kind, range: Range { start: from as usize, end: to as usize } }
}

/// How a line's parse ended: `Unfinished` when a token was still open at
/// its end; `Dirty` when the line has to be parsed again.
#[derive(Debug, Clone, Copy, PartialEq, Eq, Structural)]
pub enum LineParseState {
    Dirty,
    Finished,
    Unfinished(TokenKind, PatternState),
}

impl Default for LineParseState {
    fn default() -> (r: Self)
        ensures
            r is Dirty,
    {
        LineParseState::Dirty
    }
}

/// A state a line can be parsed after: not `Dirty`, and an open token
/// always has a rule.
pub open spec fn resumable(state: LineParseState) -> bool {
    match state {
        LineParseState::Dirty => false,
        LineParseState::Finished => true,
        LineParseState::Unfinished(kind, _) => kind != TokenKind::Whitespace,
    }
}

/// Result of matching a pattern from op `pc` against `t`.
pub open spec fn pattern_match(p: Pattern, t: Seq<char>, pc: int) -> MatchResult {
    spec_match(p.ops_seq(), t, pc)
}

/// What the rules make of the text at one point: a match that did not end
/// with the text, or the kind and byte length of the longest match (the
/// first rule wins a tie; length 0 when none matched).
pub enum RuleScan {
    Pending(TokenKind, PatternState),
    Best(TokenKind, usize),
}

/// Tries rules `k..7` on `s`, with the best match so far.
pub open spec fn scan_rules(rules: Seq<Pattern>, s: Seq<char>, k: int, best: TokenKind, max_len: usize) -> RuleScan
    decreases 7 - k,
{
    if k < 0 || k >= 7 {
        RuleScan::Best(best, max_len)
    } else {
        match pattern_match(rules[k], s, rules[k].start()) {
            MatchResult::Matched(len) => if len > max_len {
                scan_rules(rules, s, k + 1, kind_at(k), len)
            } else {
                scan_rules(rules, s, k + 1, best, max_len)
            },
            MatchResult::Failed => scan_rules(rules, s, k + 1, best, max_len),
            MatchResult::Pending(state) => RuleScan::Pending(kind_at(k), state),
        }
    }
}

/// `u8::is_ascii_whitespace` on a char.
pub open spec fn is_ascii_space(c: char) -> bool {
    c == ' ' || c == '\t' || c == '\n' || c == '\x0C' || c == '\r'
}

/// Number of ASCII whitespace chars of `t` from `p` on.
pub open spec fn space_run(t: Seq<char>, p: int) -> nat
    decreases t.len() - p,
{
    if 0 <= p < t.len() && is_ascii_space(t[p]) {
        1 + space_run(t, p + 1)
    } else {
        0
    }
}

/// Number of ASCII alphanumeric chars of `t` from `p` on.
pub open spec fn alnum_run(t: Seq<char>, p: int) -> nat
    decreases t.len() - p,
{
    if 0 <= p < t.len() && is_alnum(t[p]) {
        1 + alnum_run(t, p + 1)
    } else {
        0
    }
}

/// Byte offset of char position `p` of `t`.
pub open spec fn offset(t: Seq<char>, p: int) -> int {
    byte_len(t.take(p)) as int
}

/// The first char position from `q` on whose byte offset is at least `b`,
/// or the end of `t`.
pub open spec fn boundary_from(t: Seq<char>, b: int, q: int) -> int
    decreases t.len() - q,
{
    if q >= t.len() || offset(t, q) >= b {
        q
    } else {
        boundary_from(t, b, q + 1)
    }
}

/// The tokens of `t` from char `p` on, and how the line ends: skip ASCII
/// whitespace, take the longest rule match (or, when none matches, the run
/// of ASCII alphanumerics, at least one byte, as text); the token covers
/// the whitespace too and ends at the next char boundary.
pub open spec fn parse_from(rules: Seq<Pattern>, t: Seq<char>, p: int) -> (Seq<Token>, LineParseState)
    decreases t.len() - p,
{
    if p < 0 || p >= t.len() {
        (Seq::empty(), LineParseState::Finished)
    } else {
        let w = space_run(t, p);
        match scan_rules(rules, t.skip(p + w), 0, TokenKind::Text, 0) {
            RuleScan::Pending(kind, state) => (
                seq![token(kind, offset(t, p), byte_len(t) as int)],
                LineParseState::Unfinished(kind, state),
            ),
            RuleScan::Best(kind, len) => {
                let kind2 = if len == 0 {
                    TokenKind::Text
                } else {
                    kind
                };
                let len2: int = if len == 0 {
                    if alnum_run(t, p + w) == 0 {
                        1
                    } else {
                        alnum_run(t, p + w) as int
                    }
                } else {
                    len as int
                };
                let q = boundary_from(t, offset(t, p) + w + len2, p);
                if q <= p || q > t.len() {
                    (Seq::empty(), LineParseState::Finished)
                } else {
                    let rest = parse_from(rules, t, q);
                    (seq![token(kind2, offset(t, p), offset(t, q))] + rest.0, rest.1)
                }
            },
        }
    }
}

/// The tokens of line `t` parsed after a line that ended in `previous`:
/// an open token is first continued, then the rest is parsed from the start
/// or from where the continued token ended.
pub open spec fn spec_parse_line(rules: Seq<Pattern>, t: Seq<char>, previous: LineParseState) -> (Seq<Token>, LineParseState) {
    match previous {
        LineParseState::Unfinished(kind, state) => match pattern_match(
            rules[rule_index(kind)],
            t,
            state.op_index as int,
        ) {
            MatchResult::Matched(len) => {
                let rest = parse_from(rules, t, boundary_from(t, len as int, 0));
                (seq![token(kind, 0, len as int)] + rest.0, rest.1)
            },
            MatchResult::Failed => parse_from(rules, t, 0),
            MatchResult::Pending(state2) => (
                seq![token(kind, 0, byte_len(t) as int)],
                LineParseState::Unfinished(kind, state2),
            ),
        },
        _ => parse_from(rules, t, 0),
    }
}

/// A byte offset before the end is below the byte length.
pub proof fn lemma_offset_below_len(t: Seq<char>, q: int)
    requires
        0 <= q < t.len(),
    ensures
        offset(t, q) < byte_len(t),
{
    lemma_byte_len_take_next(t, q);
    lemma_byte_len_take_mono(t, q + 1, t.len() as int);
    assert(t.take(t.len() as int) =~= t);
}

/// Asking for a boundary past the end gives the end, as asking for the end does.
pub proof fn lemma_boundary_clamp(t: Seq<char>, b: int, q: int)
    requires
        0 <= q <= t.len(),
        b >= byte_len(t),
    ensures
        boundary_from(t, b, q) == boundary_from(t, byte_len(t) as int, q),
        boundary_from(t, b, q) == t.len(),
    decreases t.len() - q,
{
    if q < t.len() {
        lemma_offset_below_len(t, q);
        lemma_boundary_clamp(t, b, q + 1);
    }
}

/// A boundary search ends within the text.
pub proof fn lemma_boundary_bounds(t: Seq<char>, b: int, q: int)
    requires
        0 <= q <= t.len(),
    ensures
        q <= boundary_from(t, b, q) <= t.len(),
    decreases t.len() - q,
{
    if q < t.len() && offset(t, q) < b {
        lemma_boundary_bounds(t, b, q + 1);
    }
}

/// Number of ASCII whitespace chars from `p` on.
fn space_count(chars: &Vec<char>, p: usize) -> (w: usize)
    requires
        p <= chars.len(),
    ensures
        w == space_run(chars@, p as int),
        p + w <= chars.len(),
{
    let mut j: usize = p;
    while j < chars.len() && (chars[j] == ' ' || chars[j] == '\t' || chars[j] == '\n'
        || chars[j] == '\x0C' || chars[j] == '\r')
        invariant
            p <= j <= chars.len(),
            space_run(chars@, p as int) == (j - p) + space_run(chars@, j as int),
        decreases chars.len() - j,
    {
        j = j + 1;
    }
    j - p
}

/// Number of ASCII alphanumeric chars from `p` on.
fn alnum_count(chars: &Vec<char>, p: usize) -> (a: usize)
    requires
        p <= chars.len(),
    ensures
        a == alnum_run(chars@, p as int),
        p + a <= chars.len(),
{
    let mut j: usize = p;
    while j < chars.len() && ascii_alphanumeric(chars[j])
        invariant
            p <= j <= chars.len(),
            alnum_run(chars@, p as int) == (j - p) + alnum_run(chars@, j as int),
        decreases chars.len() - j,
    {
        j = j + 1;
    }
    j - p
}

/// The first char position from `from` on whose byte offset is at least
/// `target`, or the end.
pub(crate) fn boundary(chars: &Vec<char>, offsets: &Vec<usize>, target: usize, from: usize) -> (q: usize)
    requires
        from <= chars.len(),
        offsets.len() == chars.len() + 1,
        forall|i: int| 0 <= i <= chars.len() ==> offsets[i] == byte_len(#[trigger] chars@.take(i)),
    ensures
        q == boundary_from(chars@, target as int, from as int),
        from <= q <= chars.len(),
{
    let mut q: usize = from;
    while q < chars.len() && offsets[q] < target
        invariant
            from <= q <= chars.len(),
            offsets.len() == chars.len() + 1,
            forall|i: int| 0 <= i <= chars.len() ==> offsets[i] == byte_len(#[trigger] chars@.take(i)),
            boundary_from(chars@, target as int, from as int) == boundary_from(chars@, target as int, q as int),
        decreases chars.len() - q,
    {
        q = q + 1;
    }
    q
}

/// The highlighting rules of a language: one pattern per token kind but
/// whitespace.
pub struct Syntax {
    rules: Vec<Pattern>,
}

impl Syntax {
    /// The patterns, by rule index.
    pub closed spec fn rules(&self) -> Seq<Pattern> {
        self.rules@
    }

    /// There is a rule for each kind but whitespace.
    pub open spec fn wf(&self) -> bool {
        self.rules().len() == 7
    }

    /// A syntax whose rules match nothing, but the text rule, which matches
    /// identifiers (`%a{%w_}|_{%w_}`).
    pub fn new() -> (r: Self)
        ensures
            r.wf(),
            forall|i: int| 0 <= i < 6 ==> (#[trigger] r.rules()[i]).is_cleared(),
    {
        let mut text_pattern = Pattern::new();
        let source = "%a{%w_}|_{%w_}";
        proof {
            reveal_strlit("%a{%w_}|_{%w_}");
        }
        let _ = text_pattern.compile(source);
        let mut rules: Vec<Pattern> = Vec::new();
        let mut i: usize = 0;
        while i < 6
            invariant
                i <= 6,
                rules.len() == i,
                forall|j: int| 0 <= j < i ==> (#[trigger] rules@[j]).is_cleared(),
            decreases 6 - i,
        {
            rules.push(Pattern::new());
            i = i + 1;
        }
        rules.push(text_pattern);
        Syntax { rules }
    }

    /// Compiles the rule of `kind`; on error that rule matches nothing.
    pub fn set_rule<'a>(&mut self, kind: TokenKind, pattern: &'a str) -> (r: Result<(), PatternError<'a>>)
        requires
            old(self).wf(),
            kind != TokenKind::Whitespace,
            pattern@.len() <= MAX_PATTERN_LEN,
        ensures
            final(self).wf(),
            forall|i: int| 0 <= i < 7 && i != rule_index(kind) ==> #[trigger] final(self).rules()[i] == old(self).rules()[i],
            r is Ok <==> pattern_syntax(pattern@) is Ok,
            r is Ok ==> final(self).rules()[rule_index(kind)].compiled_from(pattern@),
            r matches Err(e) ==> e.pattern == pattern && final(self).rules()[rule_index(kind)].is_cleared()
                && pattern_syntax(pattern@) == Err::<(), PatternErrorKind>(e.kind),
    {
        let k = rule_index_exec(kind);
        let rule = &mut self.rules[k];
        rule.compile(pattern)
    }

    /// Tries every rule on `s`, in rule order.
    fn scan(&self, s: &str) -> (r: RuleScan)
        requires
            self.wf(),
        ensures
            r == scan_rules(self.rules(), s@, 0, TokenKind::Text, 0),
    {
        let mut best = TokenKind::Text;
        let mut max_len: usize = 0;
        let mut k: usize = 0;
        while k < 7
            invariant
                self.wf(),
                k <= 7,
                scan_rules(self.rules(), s@, 0, TokenKind::Text, 0) == scan_rules(
                    self.rules(),
                    s@,
                    k as int,
                    best,
                    max_len,
                ),
            decreases 7 - k,
        {
            let kind = kind_at_exec(k);
            match self.rules[k].matches(s) {
                MatchResult::Matched(len) => {
                    if len > max_len {
                        max_len = len;
                        best = kind;
                    }
                },
                MatchResult::Failed => {},
                MatchResult::Pending(state) => {
                    return RuleScan::Pending(kind, state);
                },
            }
            k = k + 1;
        }
        RuleScan::Best(best, max_len)
    }

    /// Cuts `line` into tokens, after a line that ended in
    /// `previous_parse_state`, and tells how the line ends.
    pub fn parse_line(&self, line: &str, previous_parse_state: LineParseState, tokens: &mut Vec<Token>) -> (r: LineParseState)
        requires
            self.wf(),
            resumable(previous_parse_state),
        ensures
            (final(tokens)@, r) == spec_parse_line(self.rules(), line@, previous_parse_state),
    {
        tokens.clear();
        let line_len = str_byte_len(line);
        let chars = str_to_chars(line);
        let offsets = char_offsets(&chars);
        let n = chars.len();
        let ghost t = line@;
        let ghost rules = self.rules();
        let mut ci: usize = 0;
        proof {
            assert(t.take(n as int) =~= t);
        }
        match previous_parse_state {
            LineParseState::Unfinished(kind, state) => {
                let k = rule_index_exec(kind);
                match self.rules[k].matches_with_state(line, state) {
                    MatchResult::Matched(len) => {
                        tokens.push(Token { kind, range: 0..len });
                        ci = boundary(&chars, &offsets, len, 0);
                    },
                    MatchResult::Failed => {},
                    MatchResult::Pending(state2) => {
                        tokens.push(Token { kind, range: 0..line_len });
                        proof {
                            assert(tokens@ =~= seq![token(kind, 0, byte_len(t) as int)]);
                        }
                        return LineParseState::Unfinished(kind, state2);
                    },
                }
            },
            _ => {},
        }
        proof {
            assert(tokens@ + parse_from(rules, t, ci as int).0 =~= spec_parse_line(rules, t, previous_parse_state).0);
        }
        while ci < n
            invariant
                self.wf(),
                rules == self.rules(),
                t == line@,
                chars@ == t,
                n == chars.len(),
                line_len == byte_len(t),
                offsets.len() == n + 1,
                forall|i: int| 0 <= i <= n ==> offsets[i] == byte_len(#[trigger] t.take(i)),
                ci <= n,
                spec_parse_line(rules, t, previous_parse_state) == (
                    tokens@ + parse_from(rules, t, ci as int).0,
                    parse_from(rules, t, ci as int).1,
                ),
            decreases n - ci,
        {
            let w = space_count(&chars, ci);
            let s = ci + w;
            let (_, rest_of_line) = split_at_char(line, s, offsets[s]);
            let from = offsets[ci];
            proof {
                lemma_offset_below_len(t, ci as int);
            }
            match self.scan(rest_of_line) {
                RuleScan::Pending(kind, state) => {
                    let ghost before = tokens@;
                    tokens.push(Token { kind, range: from..line_len });
                    proof {
                        assert(parse_from(rules, t, ci as int).0 =~= seq![token(kind, offset(t, ci as int), byte_len(t) as int)]);
                        assert(tokens@ =~= before + parse_from(rules, t, ci as int).0);
                    }
                    return LineParseState::Unfinished(kind, state);
                },
                RuleScan::Best(kind, len) => {
                    let mut kind2 = kind;
                    let mut len2 = len;
                    if len == 0 {
                        kind2 = TokenKind::Text;
                        let a = alnum_count(&chars, s);
                        len2 = if a == 0 {
                            1
                        } else {
                            a
                        };
                    }
                    let rest = line_len - from;
                    let target = if w >= rest || len2 >= rest - w {
                        line_len
                    } else {
                        from + w + len2
                    };
                    proof {
                        let b = offset(t, ci as int) + w + len2;
                        if b >= byte_len(t) {
                            lemma_boundary_clamp(t, b, ci as int);
                        }
                        assert(boundary_from(t, b, ci as int) == boundary_from(t, target as int, ci as int));
                    }
                    let q = boundary(&chars, &offsets, target, ci);
                    let ghost before = tokens@;
                    tokens.push(Token { kind: kind2, range: from..offsets[q] });
                    proof {
                        assert(target > from);
                        assert(boundary_from(t, target as int, ci as int) == boundary_from(t, target as int, ci + 1));
                        lemma_boundary_bounds(t, target as int, ci + 1);
                        assert(q > ci);
                        let restp = parse_from(rules, t, q as int);
                        assert(parse_from(rules, t, ci as int).0 =~= seq![token(kind2, offset(t, ci as int), offset(t, q as int))] + restp.0);
                        assert(tokens@ + restp.0 =~= before + parse_from(rules, t, ci as int).0);
                    }
                    ci = q;
                },
            }
        }
        proof {
            assert(tokens@ + parse_from(rules, t, ci as int).0 =~= tokens@);
        }
        LineParseState::Finished
    }
}


/// Result of a parse, with the state first, as lines keep it.
pub open spec fn parsed_line(rules: Seq<Pattern>, t: Seq<char>, previous: LineParseState) -> (LineParseState, Seq<Token>) {
    let r = spec_parse_line(rules, t, previous);
    (r.1, r.0)
}

/// A parse ends finished, or with an open token that has a rule.
proof fn lemma_parse_from_resumable(rules: Seq<Pattern>, t: Seq<char>, p: int)
    ensures
        resumable(parse_from(rules, t, p).1),
    decreases t.len() - p,
{
    if 0 <= p < t.len() {
        let w = space_run(t, p);
        lemma_scan_kind(rules, t.skip(p + w), 0, TokenKind::Text, 0);
        let r = scan_rules(rules, t.skip(p + w), 0, TokenKind::Text, 0);
        if let RuleScan::Best(kind, len) = r {
            let len2: int = if len == 0 {
                if alnum_run(t, p + w) == 0 {
                    1
                } else {
                    alnum_run(t, p + w) as int
                }
            } else {
                len as int
            };
            let q = boundary_from(t, offset(t, p) + w + len2, p);
            if q > p && q <= t.len() {
                lemma_parse_from_resumable(rules, t, q);
            }
        }
    }
}

/// A pending rule scan names a kind that has a rule.
proof fn lemma_scan_kind(rules: Seq<Pattern>, s: Seq<char>, k: int, best: TokenKind, max_len: usize)
    ensures
        scan_rules(rules, s, k, best, max_len) matches RuleScan::Pending(kind, _) ==> kind != TokenKind::Whitespace,
    decreases 7 - k,
{
    if 0 <= k < 7 {
        match pattern_match(rules[k], s, rules[k].start()) {
            MatchResult::Matched(len) => if len > max_len {
                lemma_scan_kind(rules, s, k + 1, kind_at(k), len);
            } else {
                lemma_scan_kind(rules, s, k + 1, best, max_len);
            },
            MatchResult::Failed => lemma_scan_kind(rules, s, k + 1, best, max_len),
            MatchResult::Pending(_) => {},
        }
    }
}

/// What the rules `k..7` make of `s`, with the best match so far: a rule
/// that does not end with the text stops the scan and is reported; else the
/// result is at least as long as the best so far and as every rule's match,
/// and a longer one is the first rule that reaches its length.
proof fn lemma_scan_rules_longest(rules: Seq<Pattern>, s: Seq<char>, k: int, best: TokenKind, max_len: usize)
    requires
        0 <= k <= 7,
    ensures
        scan_rules(rules, s, k, best, max_len) matches RuleScan::Pending(kind, state) ==> exists|j: int|
            k <= j < 7 && kind == kind_at(j) && #[trigger] pattern_match(rules[j], s, rules[j].start())
                == MatchResult::Pending(state) && forall|i: int| k <= i < j ==> !(#[trigger] pattern_match(
                rules[i],
                s,
                rules[i].start(),
            ) is Pending),
        scan_rules(rules, s, k, best, max_len) matches RuleScan::Best(kind, len) ==> {
            &&& forall|i: int| k <= i < 7 ==> !(#[trigger] pattern_match(rules[i], s, rules[i].start()) is Pending)
            &&& forall|i: int| k <= i < 7 ==> (#[trigger] pattern_match(rules[i], s, rules[i].start()) matches MatchResult::Matched(l) ==> l <= len)
            &&& len >= max_len
            &&& len == max_len ==> kind == best
            &&& len > max_len ==> exists|j: int| k <= j < 7 && kind == kind_at(j)
                && #[trigger] pattern_match(rules[j], s, rules[j].start()) == MatchResult::Matched(len)
                && forall|i: int| k <= i < j ==> (#[trigger] pattern_match(rules[i], s, rules[i].start()) matches MatchResult::Matched(l) ==> l < len)
        },
    decreases 7 - k,
{
    if k < 7 {
        match pattern_match(rules[k], s, rules[k].start()) {
            MatchResult::Matched(len) => if len > max_len {
                lemma_scan_rules_longest(rules, s, k + 1, kind_at(k), len);
            } else {
                lemma_scan_rules_longest(rules, s, k + 1, best, max_len);
            },
            MatchResult::Failed => lemma_scan_rules_longest(rules, s, k + 1, best, max_len),
            MatchResult::Pending(_) => {},
        }
    }
}

/// The rules take the longest match at a point: when no rule is left
/// pending at the end of the text, the length taken is at least that of
/// every rule that matches, and the kind taken is that of the first rule
/// that matches with that length (text, with length 0, when no rule
/// matches anything); when a rule is pending, it is the first such rule.
pub proof fn lemma_scan_takes_longest(rules: Seq<Pattern>, s: Seq<char>)
    ensures
        scan_rules(rules, s, 0, TokenKind::Text, 0) matches RuleScan::Pending(kind, state) ==> exists|j: int|
            0 <= j < 7 && kind == kind_at(j) && #[trigger] pattern_match(rules[j], s, rules[j].start())
                == MatchResult::Pending(state) && forall|i: int| 0 <= i < j ==> !(#[trigger] pattern_match(
                rules[i],
                s,
                rules[i].start(),
            ) is Pending),
        scan_rules(rules, s, 0, TokenKind::Text, 0) matches RuleScan::Best(kind, len) ==> {
            &&& forall|i: int| 0 <= i < 7 ==> !(#[trigger] pattern_match(rules[i], s, rules[i].start()) is Pending)
            &&& forall|i: int| 0 <= i < 7 ==> (#[trigger] pattern_match(rules[i], s, rules[i].start()) matches MatchResult::Matched(l) ==> l <= len)
            &&& len == 0 ==> kind == TokenKind::Text
            &&& len > 0 ==> exists|j: int| 0 <= j < 7 && kind == kind_at(j)
                && #[trigger] pattern_match(rules[j], s, rules[j].start()) == MatchResult::Matched(len)
                && forall|i: int| 0 <= i < j ==> (#[trigger] pattern_match(rules[i], s, rules[i].start()) matches MatchResult::Matched(l) ==> l < len)
        },
{
    lemma_scan_rules_longest(rules, s, 0, TokenKind::Text, 0);
}

/// The token a parse takes at a point (after the whitespace there) is a
/// longest rule match: when no rule is left pending and some rule matches,
/// the token starts at the point, reaches past every rule's match (or to the
/// end of the line), and has the kind of the first rule whose match is
/// longest.
pub proof fn lemma_parse_token_longest(rules: Seq<Pattern>, t: Seq<char>, p: int)
    requires
        0 <= p < t.len(),
        byte_len(t) <= usize::MAX,
    ensures
        ({
            let w = space_run(t, p);
            let s = t.skip(p + w);
            let r = parse_from(rules, t, p);
            (forall|i: int| 0 <= i < 7 ==> !(#[trigger] pattern_match(rules[i], s, rules[i].start()) is Pending))
                && (exists|i: int| 0 <= i < 7 && (#[trigger] pattern_match(rules[i], s, rules[i].start()) matches MatchResult::Matched(l) && l > 0))
                ==> {
                &&& r.0.len() > 0
                &&& r.0[0].range.start == offset(t, p)
                &&& forall|i: int| 0 <= i < 7 ==> (#[trigger] pattern_match(rules[i], s, rules[i].start()) matches MatchResult::Matched(l)
                    ==> (r.0[0].range.end >= offset(t, p) + w + l || r.0[0].range.end == byte_len(t)))
                &&& exists|j: int| 0 <= j < 7 && r.0[0].kind == kind_at(j)
                    && #[trigger] pattern_match(rules[j], s, rules[j].start()) is Matched
                    && pattern_match(rules[j], s, rules[j].start())->Matched_0 > 0
                    && (forall|i: int| 0 <= i < 7 ==> (#[trigger] pattern_match(rules[i], s, rules[i].start()) matches MatchResult::Matched(l)
                        ==> l <= pattern_match(rules[j], s, rules[j].start())->Matched_0))
                    && (forall|i: int| 0 <= i < j ==> (#[trigger] pattern_match(rules[i], s, rules[i].start()) matches MatchResult::Matched(l)
                        ==> l < pattern_match(rules[j], s, rules[j].start())->Matched_0))
            }
        }),
{
    let w = space_run(t, p);
    let s = t.skip(p + w);
    let r = parse_from(rules, t, p);
    lemma_scan_takes_longest(rules, s);
    if (forall|i: int| 0 <= i < 7 ==> !(#[trigger] pattern_match(rules[i], s, rules[i].start()) is Pending))
        && (exists|i: int| 0 <= i < 7 && (#[trigger] pattern_match(rules[i], s, rules[i].start()) matches MatchResult::Matched(l) && l > 0)) {
        let i0 = choose|i: int| 0 <= i < 7 && (#[trigger] pattern_match(rules[i], s, rules[i].start()) matches MatchResult::Matched(l) && l > 0);
        match scan_rules(rules, s, 0, TokenKind::Text, 0) {
            RuleScan::Pending(_, _) => {
                let j = choose|j: int| 0 <= j < 7 && #[trigger] pattern_match(rules[j], s, rules[j].start()) is Pending;
                assert(false);
            },
            RuleScan::Best(kind, len) => {
                assert(pattern_match(rules[i0], s, rules[i0].start()) is Matched);
                assert(len > 0);
                let b = offset(t, p) + w + len;
                let q = boundary_from(t, b, p);
                lemma_boundary_bounds(t, b, p + 1);
                assert(q == boundary_from(t, b, p + 1));
                lemma_boundary_reaches(t, b, p + 1);
                lemma_byte_len_take_mono(t, q, t.len() as int);
                assert(t.take(t.len() as int) =~= t);
                lemma_byte_len_take_mono(t, p, t.len() as int);
                assert(r.0[0] == token(kind, offset(t, p), offset(t, q)));
                let j = choose|j: int| 0 <= j < 7 && kind == kind_at(j)
                    && #[trigger] pattern_match(rules[j], s, rules[j].start()) == MatchResult::Matched(len)
                    && forall|i: int| 0 <= i < j ==> (#[trigger] pattern_match(rules[i], s, rules[i].start()) matches MatchResult::Matched(l) ==> l < len);
                assert(r.0[0].kind == kind_at(j));
            },
        }
    }
}

/// Every line state a parse gives can be parsed after.
pub proof fn lemma_parse_line_resumable(rules: Seq<Pattern>, t: Seq<char>, previous: LineParseState)
    requires
        resumable(previous),
    ensures
        resumable(spec_parse_line(rules, t, previous).1),
{
    lemma_parse_from_resumable(rules, t, 0);
    if let LineParseState::Unfinished(kind, state) = previous {
        if let MatchResult::Matched(len) = pattern_match(rules[rule_index(kind)], t, state.op_index as int) {
            lemma_parse_from_resumable(rules, t, boundary_from(t, len as int, 0));
        }
    }
}

#[derive(Clone, Copy, Default, PartialEq, Eq, Structural)]
pub struct SyntaxHandle(pub usize);

/// All known syntaxes; the first one is the plain one.
pub struct SyntaxCollection {
    syntaxes: Vec<Syntax>,
}

impl View for SyntaxCollection {
    type V = Seq<Syntax>;

    closed spec fn view(&self) -> Seq<Syntax> {
        self.syntaxes@
    }
}

impl SyntaxCollection {
    pub open spec fn wf(&self) -> bool {
        forall|i: int| 0 <= i < self@.len() ==> (#[trigger] self@[i]).wf()
    }

    pub fn new() -> (r: Self)
        ensures
            r.wf(),
            r@.len() == 1,
            forall|i: int| 0 <= i < 6 ==> (#[trigger] r@[0].rules()[i]).is_cleared(),
    {
        let mut syntaxes: Vec<Syntax> = Vec::new();
        syntaxes.push(Syntax::new());
        SyntaxCollection { syntaxes }
    }

    pub fn add(&mut self, syntax: Syntax)
        ensures
            final(self)@ == old(self)@.push(syntax),
    {
        self.syntaxes.push(syntax);
    }

    pub fn get(&self, handle: SyntaxHandle) -> (r: &Syntax)
        requires
            handle.0 < self@.len(),
        ensures
            *r == self@[handle.0 as int],
    {
        &self.syntaxes[handle.0]
    }
}

/// How one line was highlighted: how its parse ended and its tokens.
pub struct HighlightedLine {
    pub parse_state: LineParseState,
    pub tokens: Vec<Token>,
}

impl Default for HighlightedLine {
    fn default() -> (r: Self)
        ensures
            r.parse_state is Dirty,
            r.tokens@.len() == 0,
    {
        HighlightedLine { parse_state: LineParseState::Dirty, tokens: Vec::new() }
    }
}

/// A highlighted line as values: its state and its tokens.
pub open spec fn line_view(l: HighlightedLine) -> (LineParseState, Seq<Token>) {
    (l.parse_state, l.tokens@)
}

pub open spec fn lines_view(v: Seq<HighlightedLine>) -> Seq<(LineParseState, Seq<Token>)> {
    Seq::new(v.len(), |i: int| line_view(v[i]))
}

/// A line that was never highlighted.
pub open spec fn fresh_line() -> (LineParseState, Seq<Token>) {
    (LineParseState::Dirty, Seq::empty())
}

pub enum HighlightResult {
    Complete,
    Pending,
}

/// What a highlighted buffer holds: the number of lines in use, the lines
/// (more may be kept for reuse), and the lines where parsing has to resume.
pub struct HighlightedBufferView {
    pub len: int,
    pub lines: Seq<(LineParseState, Seq<Token>)>,
    pub dirty: Seq<usize>,
}

/// The highlighting of a buffer's lines, kept up to date as the text changes.
pub struct HighlightedBuffer {
    highlighted_len: usize,
    lines: Vec<HighlightedLine>,
    dirty_line_indexes: Vec<usize>,
}

impl View for HighlightedBuffer {
    type V = HighlightedBufferView;

    closed spec fn view(&self) -> HighlightedBufferView {
        HighlightedBufferView {
            len: self.highlighted_len as int,
            lines: lines_view(self.lines@),
            dirty: self.dirty_line_indexes@,
        }
    }
}

/// `s` with the last `c` items of `s[start..]` moved to its front.
pub open spec fn rotate_right<A>(s: Seq<A>, start: int, c: int) -> Seq<A> {
    s.take(start) + s.skip(s.len() - c) + s.subrange(start, s.len() - c)
}

/// `s` with the first `c` items of `s[start..]` moved to its end.
pub open spec fn rotate_left<A>(s: Seq<A>, start: int, c: int) -> Seq<A> {
    s.take(start) + s.skip(start + c) + s.subrange(start, start + c)
}

/// The lines after text from line `from` to line `to` was inserted: the
/// new lines follow `from`, and line `to` has to be parsed again.
pub open spec fn inserted_lines(lines: Seq<(LineParseState, Seq<Token>)>, len: int, from: int, to: int) -> Seq<(LineParseState, Seq<Token>)> {
    let c = to - from;
    let grown = if c > 0 && len + c > lines.len() {
        lines + Seq::new((len + c - lines.len()) as nat, |i: int| fresh_line())
    } else {
        lines
    };
    let rotated = if c > 0 {
        rotate_right(grown, from + 1, c)
    } else {
        grown
    };
    rotated.update(to, (LineParseState::Dirty, rotated[to].1))
}

/// A dirty line index after lines `from + 1 ..= to` were inserted.
pub open spec fn dirty_after_insert(d: usize, from: int, to: int) -> usize {
    if to > from && from + 1 <= d {
        (d + (to - from)) as usize
    } else {
        d
    }
}

/// The lines after the text from line `from` to line `to` was deleted:
/// those lines have to be parsed again, and lines `from + 1 ..= to` go.
pub open spec fn deleted_lines(lines: Seq<(LineParseState, Seq<Token>)>, from: int, to: int) -> Seq<(LineParseState, Seq<Token>)> {
    let marked = Seq::new(
        lines.len(),
        |i: int|
            if from <= i <= to {
                (LineParseState::Dirty, lines[i].1)
            } else {
                lines[i]
            },
    );
    if to > from {
        rotate_left(marked, from + 1, to - from)
    } else {
        marked
    }
}

/// A dirty line index after lines `from + 1 ..= to` were deleted.
pub open spec fn dirty_after_delete(d: usize, from: int, to: int) -> usize {
    if to > from && to <= d {
        (d - (to - from)) as usize
    } else if to > from && from + 1 <= d {
        from as usize
    } else {
        d
    }
}

/// Line `i` holds the parse of its text after the line before it, or after
/// a finished line.
pub open spec fn line_parsed(rules: Seq<Pattern>, buffer: Seq<String>, lines: Seq<(LineParseState, Seq<Token>)>, i: int) -> bool {
    ||| lines[i] == parsed_line(rules, buffer[i]@, LineParseState::Finished)
    ||| (i > 0 && lines[i] == parsed_line(rules, buffer[i]@, lines[i - 1].0))
}

/// A sorted list with the same items as `other` starts with their least.
proof fn lemma_sorted_least(ds: Seq<usize>, other: Seq<usize>)
    requires
        sorted_indexes(ds),
        other.len() > 0,
        ds.to_multiset() == other.to_multiset(),
    ensures
        ds.len() == other.len(),
        forall|x: usize| ds.contains(x) <==> other.contains(x),
        exists|j: int| is_least(other, j) && other[j] == ds[0],
{
    vstd::seq_lib::to_multiset_len(ds);
    vstd::seq_lib::to_multiset_len(other);
    assert forall|x: usize| ds.contains(x) <==> other.contains(x) by {
        vstd::seq_lib::to_multiset_contains(ds, x);
        vstd::seq_lib::to_multiset_contains(other, x);
    }
    assert(ds.contains(ds[0])) by {
        assert(0 <= 0 < ds.len() && ds[0] == ds[0]);
    }
    let j0 = choose|j: int| 0 <= j < other.len() && other[j] == ds[0];
    assert forall|k: int| 0 <= k < other.len() implies other[j0] <= #[trigger] other[k] by {
        assert(other.contains(other[k]));
        let m = choose|m: int| 0 <= m < ds.len() && ds[m] == other[k];
        if m > 0 {
            assert(ds[0] <= ds[m]);
        }
    }
    assert(is_least(other, j0));
}

/// The smallest index of a non-empty list.
pub open spec fn is_least(s: Seq<usize>, j: int) -> bool {
    0 <= j < s.len() && forall|k: int| 0 <= k < s.len() ==> s[j] <= #[trigger] s[k]
}

pub open spec fn sorted_indexes(s: Seq<usize>) -> bool {
    forall|a: int, b: int| 0 <= a < b < s.len() ==> (#[trigger] s[a]) <= (#[trigger] s[b])
}

/// Sorts line indexes in increasing order.
fn sort_indexes(v: &mut Vec<usize>)
    ensures
        sorted_indexes(final(v)@),
        final(v)@.to_multiset() == old(v)@.to_multiset(),
{
    broadcast use vstd::seq_lib::group_to_multiset_ensures;

    let mut r: Vec<usize> = Vec::new();
    let mut i: usize = 0;
    while i < v.len()
        invariant
            i <= v.len(),
            v@ == old(v)@,
            sorted_indexes(r@),
            r@.to_multiset() == v@.take(i as int).to_multiset(),
        decreases v.len() - i,
    {
        let e = v[i];
        let mut k: usize = 0;
        while k < r.len() && r[k] <= e
            invariant
                k <= r.len(),
                forall|j: int| 0 <= j < k ==> (#[trigger] r@[j]) <= e,
            decreases r.len() - k,
        {
            k = k + 1;
        }
        let ghost old_r = r@;
        r.insert(k, e);
        proof {
            assert(v@.take(i + 1) =~= v@.take(i as int).push(e));
            vstd::seq_lib::to_multiset_insert(old_r, k as int, e);
            vstd::seq_lib::to_multiset_build(v@.take(i as int), e);
            assert forall|a: int, b: int| 0 <= a < b < r@.len() implies (#[trigger] r@[a]) <= (#[trigger] r@[b]) by {
                if b < k {
                } else if b == k {
                    assert(r@[a] == old_r[a]);
                } else if a < k {
                    assert(r@[b] == old_r[b - 1]);
                    if k < old_r.len() {
                        assert(old_r[k as int] > e);
                    }
                } else if a == k {
                    assert(old_r[k as int] > e);
                    assert(r@[b] == old_r[b - 1]);
                } else {
                    assert(r@[a] == old_r[a - 1]);
                    assert(r@[b] == old_r[b - 1]);
                }
            }
        }
        i = i + 1;
    }
    assert(v@.take(v.len() as int) =~= v@);
    *v = r;
}

/// Moves the last `c` lines of `lines[start..]` to its front.
fn rotate_lines_right(lines: &mut Vec<HighlightedLine>, start: usize, c: usize)
    requires
        start + c <= old(lines).len(),
    ensures
        final(lines)@ == rotate_right(old(lines)@, start as int, c as int),
{
    let split = lines.len() - c;
    let mut tail = lines.split_off(split);
    let mut middle = lines.split_off(start);
    lines.append(&mut tail);
    lines.append(&mut middle);
    assert(lines@ =~= rotate_right(old(lines)@, start as int, c as int));
}

/// Moves the first `c` lines of `lines[start..]` to its end.
fn rotate_lines_left(lines: &mut Vec<HighlightedLine>, start: usize, c: usize)
    requires
        start + c <= old(lines).len(),
    ensures
        final(lines)@ == rotate_left(old(lines)@, start as int, c as int),
{
    let mut rest = lines.split_off(start + c);
    let mut middle = lines.split_off(start);
    lines.append(&mut rest);
    lines.append(&mut middle);
    assert(lines@ =~= rotate_left(old(lines)@, start as int, c as int));
}

/// Moves the first `c` indexes to the end.
fn rotate_indexes_left(v: &mut Vec<usize>, c: usize)
    requires
        c <= old(v).len(),
    ensures
        final(v)@ == rotate_left(old(v)@, 0, c as int),
{
    let mut rest = v.split_off(c);
    rest.append(v);
    *v = rest;
    assert(v@ =~= rotate_left(old(v)@, 0, c as int));
}

/// The lines' views of a rotation are the rotation of their views.
proof fn lemma_view_rotate_right(s: Seq<HighlightedLine>, start: int, c: int)
    requires
        0 <= start,
        0 <= c,
        start + c <= s.len(),
    ensures
        lines_view(rotate_right(s, start, c)) == rotate_right(lines_view(s), start, c),
{
    assert(lines_view(rotate_right(s, start, c)) =~= rotate_right(lines_view(s), start, c));
}

proof fn lemma_view_rotate_left(s: Seq<HighlightedLine>, start: int, c: int)
    requires
        0 <= start,
        0 <= c,
        start + c <= s.len(),
    ensures
        lines_view(rotate_left(s, start, c)) == rotate_left(lines_view(s), start, c),
{
    assert(lines_view(rotate_left(s, start, c)) =~= rotate_left(lines_view(s), start, c));
}

/// Sets the state of line `i`.
fn set_line_state(lines: &mut Vec<HighlightedLine>, i: usize, state: LineParseState)
    requires
        i < old(lines).len(),
    ensures
        lines_view(final(lines)@) == lines_view(old(lines)@).update(i as int, (state, old(lines)@[i as int].tokens@)),
        final(lines)@.len() == old(lines)@.len(),
{
    let line = &mut lines[i];
    line.parse_state = state;
    assert(lines_view(lines@) =~= lines_view(old(lines)@).update(i as int, (state, old(lines)@[i as int].tokens@)));
}


/// `ks` are distinct lines, in increasing order, below `len`, each parsed
/// after the line before it.
pub open spec fn parsed_lines(
    rules: Seq<Pattern>,
    buffer: Seq<String>,
    lines: Seq<(LineParseState, Seq<Token>)>,
    ks: Seq<int>,
    len: int,
) -> bool {
    &&& forall|a: int, b: int| 0 <= a < b < ks.len() ==> ks[a] < ks[b]
    &&& forall|m: int| 0 <= m < ks.len() ==> 0 <= #[trigger] ks[m] < len && line_parsed(rules, buffer, lines, ks[m])
}

impl HighlightedBuffer {
    /// Lines in use fit in the lines kept, and no line to resume lies past them.
    pub open spec fn wf(&self) -> bool {
        &&& self@.len <= self@.lines.len()
        &&& forall|i: int| 0 <= i < self@.dirty.len() ==> #[trigger] self@.dirty[i] <= self@.len
    }

    /// A buffer with no lines.
    pub fn empty() -> (r: Self)
        ensures
            r.wf(),
            r@.len == 0,
            r@.lines.len() == 0,
            r@.dirty.len() == 0,
    {
        HighlightedBuffer { highlighted_len: 0, lines: Vec::new(), dirty_line_indexes: Vec::new() }
    }

    /// A buffer of one line, not yet highlighted.
    pub fn new() -> (r: Self)
        ensures
            r.wf(),
            r@.len == 1,
            r@.lines == seq![fresh_line()],
            r@.dirty.len() == 0,
    {
        let mut lines: Vec<HighlightedLine> = Vec::new();
        lines.push(HighlightedLine::default());
        assert(lines@[0].tokens@ =~= Seq::<Token>::empty());
        let r = HighlightedBuffer { highlighted_len: 1, lines, dirty_line_indexes: Vec::new() };
        assert(r@.lines =~= seq![fresh_line()]);
        r
    }

    /// Back to one line in use, with nothing to resume.
    pub fn clear(&mut self)
        requires
            old(self).wf(),
            old(self)@.lines.len() >= 1,
        ensures
            final(self).wf(),
            final(self)@.len == 1,
            final(self)@.lines == old(self)@.lines,
            final(self)@.dirty.len() == 0,
    {
        self.highlighted_len = 1;
        self.dirty_line_indexes.clear();
    }

    /// Keeps the lines in step with text inserted over `range`.
    pub fn on_insert(&mut self, range: BufferRange)
        requires
            old(self).wf(),
            range.from.line_index <= range.to.line_index,
            range.from.line_index < old(self)@.len,
            old(self)@.len + (range.to.line_index - range.from.line_index) <= usize::MAX,
        ensures
            final(self).wf(),
            final(self)@.len == old(self)@.len + (range.to.line_index - range.from.line_index),
            final(self)@.lines == inserted_lines(
                old(self)@.lines,
                old(self)@.len,
                range.from.line_index as int,
                range.to.line_index as int,
            ),
            final(self)@.dirty == old(self)@.dirty.map_values(
                |d: usize| dirty_after_insert(d, range.from.line_index as int, range.to.line_index as int),
            ).push(range.from.line_index),
    {
        let from = range.from.line_index;
        let to = range.to.line_index;
        let c = to - from;
        let ghost old_lines = old(self)@.lines;
        let ghost grown = if c > 0 && old(self)@.len + c > old_lines.len() {
            old_lines + Seq::new((old(self)@.len + c - old_lines.len()) as nat, |i: int| fresh_line())
        } else {
            old_lines
        };
        if c > 0 {
            self.highlighted_len = self.highlighted_len + c;
            while self.lines.len() < self.highlighted_len
                invariant
                    self.highlighted_len == old(self)@.len + c,
                    self.dirty_line_indexes@ == old(self)@.dirty,
                    c > 0,
                    old_lines == old(self)@.lines,
                    grown == old_lines + Seq::new((old(self)@.len + c - old_lines.len()) as nat, |i: int| fresh_line()) || old_lines.len() >= self.highlighted_len,
                    old_lines.len() <= self.lines.len(),
                    self.lines.len() <= self.highlighted_len || self.lines.len() == old_lines.len(),
                forall|i: int| 0 <= i < self.lines.len() ==> #[trigger] lines_view(self.lines@)[i] == if i < old_lines.len() {
                    old_lines[i]
                } else {
                    fresh_line()
                },
                decreases self.highlighted_len - self.lines.len(),
            {
                let ghost before = lines_view(self.lines@);
                self.lines.push(HighlightedLine::default());
                assert(self.lines@[self.lines.len() - 1].tokens@ =~= Seq::<Token>::empty());
                assert forall|i: int| 0 <= i < self.lines.len() implies #[trigger] lines_view(self.lines@)[i] == if i < old_lines.len() {
                    old_lines[i]
                } else {
                    fresh_line()
                } by {
                    if i < self.lines.len() - 1 {
                        assert(lines_view(self.lines@)[i] == before[i]);
                    }
                }
            }
            proof {
                if old(self)@.len + c > old_lines.len() {
                    assert(lines_view(self.lines@) =~= grown);
                } else {
                    assert(lines_view(self.lines@) =~= old_lines);
                }
            }
            let ghost before_rotate = self.lines@;
            rotate_lines_right(&mut self.lines, from + 1, c);
            proof {
                lemma_view_rotate_right(before_rotate, from + 1, c as int);
            }
            let mut k: usize = 0;
            while k < self.dirty_line_indexes.len()
                invariant
                    k <= self.dirty_line_indexes.len(),
                    self.dirty_line_indexes.len() == old(self)@.dirty.len(),
                    c == to - from,
                    c > 0,
                    from < old(self)@.len,
                    old(self)@.len + c <= usize::MAX,
                    self.highlighted_len == old(self)@.len + c,
                    lines_view(self.lines@) == rotate_right(grown, from + 1, c as int),
                    self.lines.len() >= self.highlighted_len,
                    forall|j: int| 0 <= j < old(self)@.dirty.len() ==> #[trigger] old(self)@.dirty[j] <= old(self)@.len,
                    forall|j: int| 0 <= j < k ==> self.dirty_line_indexes@[j] == dirty_after_insert(#[trigger] old(self)@.dirty[j], from as int, to as int),
                    forall|j: int| k <= j < self.dirty_line_indexes.len() ==> self.dirty_line_indexes@[j] == #[trigger] old(self)@.dirty[j],
                decreases self.dirty_line_indexes.len() - k,
            {
                let d = self.dirty_line_indexes[k];
                assert(d == old(self)@.dirty[k as int]);
                if from + 1 <= d {
                    self.dirty_line_indexes.set(k, d + c);
                }
                k = k + 1;
            }
        }
        proof {
            assert(lines_view(self.lines@) == if c > 0 {
                rotate_right(grown, from + 1, c as int)
            } else {
                grown
            });
        }
        set_line_state(&mut self.lines, to, LineParseState::Dirty);
        self.dirty_line_indexes.push(from);
        assert(self@.dirty =~= old(self)@.dirty.map_values(
            |d: usize| dirty_after_insert(d, from as int, to as int),
        ).push(from));
    }

    /// Keeps the lines in step with text deleted over `range`.
    pub fn on_delete(&mut self, range: BufferRange)
        requires
            old(self).wf(),
            range.from.line_index <= range.to.line_index,
            range.to.line_index < old(self)@.len,
        ensures
            final(self).wf(),
            final(self)@.len == old(self)@.len - (range.to.line_index - range.from.line_index),
            final(self)@.lines == deleted_lines(
                old(self)@.lines,
                range.from.line_index as int,
                range.to.line_index as int,
            ),
            final(self)@.dirty == old(self)@.dirty.map_values(
                |d: usize| dirty_after_delete(d, range.from.line_index as int, range.to.line_index as int),
            ).push(range.from.line_index),
    {
        let from = range.from.line_index;
        let to = range.to.line_index;
        let ghost old_lines = old(self)@.lines;
        let ghost marked = Seq::new(
            old_lines.len(),
            |i: int|
                if from <= i <= to {
                    (LineParseState::Dirty, old_lines[i].1)
                } else {
                    old_lines[i]
                },
        );
        let mut k: usize = from;
        while k <= to
            invariant
                from <= k <= to + 1,
                to < old(self)@.len,
                old(self)@.len <= old_lines.len(),
                self.lines.len() == old_lines.len(),
                self.highlighted_len == old(self)@.len,
                self.dirty_line_indexes@ == old(self)@.dirty,
                forall|i: int| 0 <= i < old_lines.len() ==> #[trigger] lines_view(self.lines@)[i] == if from <= i < k {
                    (LineParseState::Dirty, old_lines[i].1)
                } else {
                    old_lines[i]
                },
            decreases to + 1 - k,
        {
            let ghost before = lines_view(self.lines@);
            let ghost pre = self.lines@;
            assert(before[k as int] == line_view(pre[k as int]));
            assert(before[k as int] == old_lines[k as int]);
            set_line_state(&mut self.lines, k, LineParseState::Dirty);
            assert forall|i: int| 0 <= i < old_lines.len() implies #[trigger] lines_view(self.lines@)[i] == if from <= i < k + 1 {
                (LineParseState::Dirty, old_lines[i].1)
            } else {
                old_lines[i]
            } by {
                if i == k {
                    assert(lines_view(self.lines@)[i] == (LineParseState::Dirty, pre[k as int].tokens@));
                } else {
                    assert(lines_view(self.lines@)[i] == before[i]);
                }
            }
            k = k + 1;
        }
        assert(lines_view(self.lines@) =~= marked);
        let c = to - from;
        if c > 0 {
            self.highlighted_len = self.highlighted_len - c;
            let ghost before_rotate = self.lines@;
            rotate_lines_left(&mut self.lines, from + 1, c);
            proof {
                lemma_view_rotate_left(before_rotate, from + 1, c as int);
            }
            let mut k: usize = 0;
            while k < self.dirty_line_indexes.len()
                invariant
                    k <= self.dirty_line_indexes.len(),
                    self.dirty_line_indexes.len() == old(self)@.dirty.len(),
                    c == to - from,
                    c > 0,
                    to < old(self)@.len,
                    self.highlighted_len == old(self)@.len - c,
                    self.lines.len() == old_lines.len(),
                    old(self)@.len <= old_lines.len(),
                    lines_view(self.lines@) == rotate_left(marked, from + 1, c as int),
                    forall|j: int| 0 <= j < old(self)@.dirty.len() ==> #[trigger] old(self)@.dirty[j] <= old(self)@.len,
                    forall|j: int| 0 <= j < k ==> self.dirty_line_indexes@[j] == dirty_after_delete(#[trigger] old(self)@.dirty[j], from as int, to as int),
                    forall|j: int| k <= j < self.dirty_line_indexes.len() ==> self.dirty_line_indexes@[j] == #[trigger] old(self)@.dirty[j],
                decreases self.dirty_line_indexes.len() - k,
            {
                let d = self.dirty_line_indexes[k];
                assert(d == old(self)@.dirty[k as int]);
                if to <= d {
                    self.dirty_line_indexes.set(k, d - c);
                } else if from + 1 <= d {
                    self.dirty_line_indexes.set(k, from);
                }
                k = k + 1;
            }
        }
        self.dirty_line_indexes.push(from);
        assert(self@.dirty =~= old(self)@.dirty.map_values(
            |d: usize| dirty_after_delete(d, from as int, to as int),
        ).push(from));
    }

    /// The lines in use.
    pub fn highlighted_len(&self) -> (r: usize)
        ensures
            r == self@.len,
    {
        self.highlighted_len
    }

    /// The lines kept, the first `highlighted_len` of them in use.
    pub fn lines(&self) -> (r: &Vec<HighlightedLine>)
        ensures
            lines_view(r@) == self@.lines,
    {
        &self.lines
    }

    /// Parses lines from `start` on, each after the line before it, until a
    /// line that was finished and stays finished, the end of the lines in
    /// use, or the end of the budget; gives where it stopped, the state of
    /// the last line parsed and the lines parsed so far.
    fn highlight_from(&mut self, syntax: &Syntax, buffer: &[String], start: usize, previous: LineParseState, count: usize) -> (r: (usize, LineParseState, usize))
        requires
            old(self)@.len <= old(self)@.lines.len(),
            syntax.wf(),
            buffer@.len() >= old(self)@.len,
            start < old(self)@.len,
            count < MAX_HIGHLIGHT_COUNT,
            resumable(previous),
            previous is Finished || (start > 0 && previous == old(self)@.lines[start - 1].0),
        ensures
            final(self)@.len == old(self)@.len,
            final(self)@.lines.len() == old(self)@.lines.len(),
            final(self)@.dirty == old(self)@.dirty,
            start < r.0 <= old(self)@.len,
            count < r.2 <= MAX_HIGHLIGHT_COUNT,
            r.0 - start == r.2 - count,
            resumable(r.1),
            r.1 is Finished || r.1 == final(self)@.lines[r.0 - 1].0,
            r.2 < MAX_HIGHLIGHT_COUNT ==> r.1 is Finished || r.0 == old(self)@.len,
            forall|k: int| start <= k < r.0 ==> line_parsed(syntax.rules(), buffer@, final(self)@.lines, k),
            forall|k: int|
                0 <= k < old(self)@.lines.len() && (k < start || r.0 <= k) ==> #[trigger] final(self)@.lines[k]
                    == old(self)@.lines[k],
    {
        let ghost rules = syntax.rules();
        let ghost old_lines = old(self)@.lines;
        let mut index = start;
        let mut prev = previous;
        let mut counted = count;
        loop
            invariant
                self.highlighted_len == old(self)@.len,
                self.lines.len() == old_lines.len(),
                self.dirty_line_indexes@ == old(self)@.dirty,
                old_lines == old(self)@.lines,
                self.highlighted_len <= old_lines.len(),
                syntax.wf(),
                rules == syntax.rules(),
                buffer@.len() >= self.highlighted_len,
                start <= index < self.highlighted_len,
                count <= counted < MAX_HIGHLIGHT_COUNT,
                index - start == counted - count,
                resumable(prev),
                prev is Finished || (index > 0 && prev == lines_view(self.lines@)[index - 1].0),
                forall|k: int| start <= k < index ==> line_parsed(rules, buffer@, lines_view(self.lines@), k),
                forall|k: int|
                    0 <= k < old_lines.len() && (k < start || index <= k) ==> #[trigger] lines_view(self.lines@)[k]
                        == old_lines[k],
            decreases self.highlighted_len - index,
        {
            let previous_state = self.lines[index].parse_state;
            let text = buffer[index].as_str();
            let ghost before = lines_view(self.lines@);
            let state = parse_into(&mut self.lines, index, syntax, text, prev);
            proof {
                lemma_parse_line_resumable(rules, text@, prev);
                let after = lines_view(self.lines@);
                assert(line_parsed(rules, buffer@, after, index as int));
                assert forall|k: int| start <= k < index + 1 implies line_parsed(rules, buffer@, after, k) by {
                    if k < index {
                        assert(line_parsed(rules, buffer@, before, k));
                        assert(after[k] == before[k]);
                        if k > 0 {
                            assert(after[k - 1] == before[k - 1]);
                        }
                    }
                }
                assert forall|k: int|
                    0 <= k < old_lines.len() && (k < start || index + 1 <= k) implies #[trigger] after[k]
                        == old_lines[k] by {
                    assert(after[k] == before[k]);
                }
            }
            prev = state;
            index = index + 1;
            counted = counted + 1;
            if counted == MAX_HIGHLIGHT_COUNT || (previous_state == LineParseState::Finished && prev
                == LineParseState::Finished) || index >= self.highlighted_len {
                return (index, prev, counted);
            }
        }
    }

    /// Parses the dirty lines again: from each dirty line on, each line is
    /// parsed after the line before it, until a line that was finished and
    /// stays finished. After `MAX_HIGHLIGHT_COUNT` lines it stops and keeps
    /// where to resume.
    pub fn highlight_dirty_lines(&mut self, syntax: &Syntax, buffer: &[String]) -> (r: HighlightResult)
        requires
            old(self).wf(),
            syntax.wf(),
            buffer@.len() >= old(self)@.len,
            forall|j: int|
                is_least(old(self)@.dirty, j) && old(self)@.dirty[j] > 0 ==> resumable(
                    old(self)@.lines[old(self)@.dirty[j] - 1].0,
                ),
        ensures
            final(self).wf(),
            final(self)@.len == old(self)@.len,
            final(self)@.lines.len() == old(self)@.lines.len(),
            forall|i: int|
                0 <= i < old(self)@.lines.len() ==> final(self)@.lines[i] == old(self)@.lines[i] || (i
                    < old(self)@.len && line_parsed(syntax.rules(), buffer@, final(self)@.lines, i)),
            old(self)@.dirty.len() == 0 ==> r is Complete && final(self)@ == old(self)@,
            r is Complete ==> final(self)@.dirty.len() == 0,
            r is Pending ==> final(self)@.dirty.len() == old(self)@.dirty.len(),
            forall|d: usize|
                old(self)@.dirty.contains(d) && d < old(self)@.len ==> line_parsed(
                    syntax.rules(),
                    buffer@,
                    final(self)@.lines,
                    d as int,
                ) || (r is Pending && final(self)@.dirty.contains(d)),
            r is Pending ==> exists|ks: Seq<int>| #[trigger] parsed_lines(syntax.rules(), buffer@, final(self)@.lines, ks, old(self)@.len as int)
                && ks.len() == MAX_HIGHLIGHT_COUNT,
    {
        if self.dirty_line_indexes.len() == 0 {
            return HighlightResult::Complete;
        }
        sort_indexes(&mut self.dirty_line_indexes);
        let ghost ds = self.dirty_line_indexes@;
        let ghost rules = syntax.rules();
        let ghost old_lines = old(self)@.lines;
        let len = self.highlighted_len;
        proof {
            lemma_sorted_least(ds, old(self)@.dirty);
            assert forall|m: int| 0 <= m < ds.len() implies #[trigger] ds[m] <= len by {
                assert(ds.contains(ds[m]));
                let j = choose|j: int| 0 <= j < old(self)@.dirty.len() && old(self)@.dirty[j] == ds[m];
                assert(old(self)@.dirty[j] <= len);
            }
        }
        let mut index = self.dirty_line_indexes[0];
        let mut last_dirty_index = usize::MAX;
        let mut previous_parse_state = if index > 0 {
            self.lines[index - 1].parse_state
        } else {
            LineParseState::Finished
        };
        let mut highlight_count: usize = 0;
        let ghost mut pk: Seq<int> = Seq::empty();
        let mut i: usize = 0;
        while i < self.dirty_line_indexes.len()
            invariant
                pk.len() == highlight_count,
                forall|a: int, b: int| 0 <= a < b < pk.len() ==> pk[a] < pk[b],
                forall|m: int| 0 <= m < pk.len() ==> #[trigger] pk[m] < index && 0 <= pk[m] < len && line_parsed(
                    rules,
                    buffer@,
                    lines_view(self.lines@),
                    pk[m],
                ),
                self.highlighted_len == len,
                len == old(self)@.len,
                self.lines.len() == old_lines.len(),
                old_lines == old(self)@.lines,
                len <= old_lines.len(),
                self.dirty_line_indexes@ == ds,
                ds.len() > 0,
                ds.len() == old(self)@.dirty.len(),
                sorted_indexes(ds),
                forall|x: usize| ds.contains(x) <==> old(self)@.dirty.contains(x),
                forall|m: int| 0 <= m < ds.len() ==> #[trigger] ds[m] <= len,
                syntax.wf(),
                rules == syntax.rules(),
                buffer@.len() >= len,
                i <= ds.len(),
                index <= len,
                highlight_count < MAX_HIGHLIGHT_COUNT,
                resumable(previous_parse_state),
                previous_parse_state is Finished || (index > 0 && previous_parse_state == lines_view(
                    self.lines@,
                )[index - 1].0),
                i == 0 ==> index == ds[0] && last_dirty_index == usize::MAX,
                i > 0 ==> previous_parse_state is Finished || index >= len,
                i > 0 ==> last_dirty_index <= ds[i - 1],
                i > 0 && last_dirty_index < len ==> last_dirty_index < index,
                forall|k: int| 0 <= k < index && last_dirty_index <= k ==> line_parsed(rules, buffer@, lines_view(self.lines@), k),
                forall|m: int| 0 <= m < i && #[trigger] ds[m] < len ==> line_parsed(rules, buffer@, lines_view(self.lines@), ds[m] as int),
                forall|k: int|
                    0 <= k < old_lines.len() ==> #[trigger] lines_view(self.lines@)[k] == old_lines[k] || (k
                        < index && k < len && line_parsed(rules, buffer@, lines_view(self.lines@), k)),
                forall|k: int| 0 <= k < old_lines.len() && index <= k ==> #[trigger] lines_view(self.lines@)[k] == old_lines[k],
            decreases ds.len() - i,
        {
            let dirty_index = self.dirty_line_indexes[i];
            i = i + 1;
            if dirty_index < index || dirty_index == last_dirty_index {
                proof {
                    assert(ds[i - 1] == dirty_index);
                    if i >= 2 {
                        assert(ds[i - 2] <= ds[i - 1]);
                    }
                }
                continue;
            }
            index = dirty_index;
            last_dirty_index = dirty_index;
            if index >= len {
                continue;
            }
            let ghost before = lines_view(self.lines@);
            let (next_index, state, count) = self.highlight_from(syntax, buffer, dirty_index, previous_parse_state, highlight_count);
            proof {
                let after = lines_view(self.lines@);
                assert forall|k: int| 0 <= k < dirty_index && line_parsed(rules, buffer@, before, k) implies line_parsed(rules, buffer@, after, k) by {
                    assert(after[k] == before[k]);
                    if k > 0 {
                        assert(after[k - 1] == before[k - 1]);
                    }
                }
                assert forall|k: int|
                    0 <= k < old_lines.len() implies #[trigger] after[k] == old_lines[k] || (k < next_index && k < len
                        && line_parsed(rules, buffer@, after, k)) by {
                    if k < dirty_index || next_index <= k {
                        assert(after[k] == before[k]);
                    }
                }
                assert forall|m: int| 0 <= m < i && #[trigger] ds[m] < len implies line_parsed(rules, buffer@, after, ds[m] as int) by {
                    if m < i - 1 {
                        assert(ds[m] <= ds[i - 1]);
                        if ds[m] < dirty_index {
                            assert(line_parsed(rules, buffer@, before, ds[m] as int));
                        }
                    }
                }
                assert forall|k: int| 0 <= k < old_lines.len() && next_index <= k implies #[trigger] after[k] == old_lines[k] by {
                    assert(after[k] == before[k]);
                }
                let added = Seq::new((next_index - dirty_index) as nat, |j: int| dirty_index + j);
                let pk2 = pk + added;
                assert forall|m: int| 0 <= m < pk2.len() implies #[trigger] pk2[m] < next_index && 0 <= pk2[m] < len
                    && line_parsed(rules, buffer@, after, pk2[m]) by {
                    if m < pk.len() {
                        assert(pk2[m] == pk[m]);
                        assert(line_parsed(rules, buffer@, before, pk[m]));
                    } else {
                        assert(pk2[m] == added[m - pk.len()]);
                    }
                }
                assert forall|a: int, b: int| 0 <= a < b < pk2.len() implies pk2[a] < pk2[b] by {
                    if b < pk.len() {
                        assert(pk2[a] == pk[a] && pk2[b] == pk[b]);
                    } else if a < pk.len() {
                        assert(pk2[a] == pk[a]);
                        assert(pk2[b] == added[b - pk.len()]);
                    } else {
                        assert(pk2[a] == added[a - pk.len()]);
                        assert(pk2[b] == added[b - pk.len()]);
                    }
                }
                pk = pk2;
            }
            index = next_index;
            previous_parse_state = state;
            highlight_count = count;
            if highlight_count == MAX_HIGHLIGHT_COUNT {
                i = i - 1;
                self.dirty_line_indexes.set(i, index);
                let ghost updated = self.dirty_line_indexes@;
                rotate_indexes_left(&mut self.dirty_line_indexes, i);
                proof {
                    let fin = self.dirty_line_indexes@;
                    assert forall|d: usize|
                        old(self)@.dirty.contains(d) && d < len implies line_parsed(
                            rules,
                            buffer@,
                            lines_view(self.lines@),
                            d as int,
                        ) || fin.contains(d) by {
                        assert(ds.contains(d));
                        let m = choose|m: int| 0 <= m < ds.len() && ds[m] == d;
                        if m > i {
                            assert(fin[m - i] == updated[m]);
                        }
                    }
                    assert forall|k: int| 0 <= k < fin.len() implies #[trigger] fin[k] <= len by {
                        if k < fin.len() - i {
                            assert(fin[k] == updated[k + i]);
                        } else {
                            assert(fin[k] == updated[k - (fin.len() - i)]);
                        }
                    }
                    assert(parsed_lines(rules, buffer@, lines_view(self.lines@), pk, len as int));
                }
                return HighlightResult::Pending;
            }
        }
        self.dirty_line_indexes.clear();
        proof {
            assert forall|d: usize| old(self)@.dirty.contains(d) && d < len implies line_parsed(
                rules,
                buffer@,
                lines_view(self.lines@),
                d as int,
            ) by {
                assert(ds.contains(d));
                let m = choose|m: int| 0 <= m < ds.len() && ds[m] == d;
            }
        }
        HighlightResult::Complete
    }

    /// The kind of the token under byte `char_index` of line `line_index`,
    /// `Text` where there is none.
    pub fn find_token_kind_at(&self, line_index: usize, char_index: usize) -> (r: TokenKind)
        requires
            self.wf(),
        ensures
            line_index >= self@.len ==> r == TokenKind::Text,
            line_index < self@.len && tokens_ordered(self@.lines[line_index as int].1) ==> r
                == kind_under(self@.lines[line_index as int].1, char_index as int),
    {
        if line_index >= self.highlighted_len {
            return TokenKind::Text;
        }
        let tokens = &self.lines[line_index].tokens;
        let ghost ts = tokens@;
        let mut lo: usize = 0;
        let mut hi: usize = tokens.len();
        while lo < hi
            invariant
                line_index < self@.len,
                ts == tokens@,
                ts == self@.lines[line_index as int].1,
                lo <= hi <= ts.len(),
                tokens_ordered(ts) ==> forall|k: int| 0 <= k < lo ==> (#[trigger] ts[k]).range.end <= char_index,
                tokens_ordered(ts) ==> forall|k: int| hi <= k < ts.len() ==> char_index < (#[trigger] ts[k]).range.start,
            decreases hi - lo,
        {
            let mid = lo + (hi - lo) / 2;
            let start = tokens[mid].range.start;
            let end = tokens[mid].range.end;
            if char_index < start {
                hi = mid;
            } else if char_index >= end {
                lo = mid + 1;
            } else {
                proof {
                    if tokens_ordered(ts) {
                        lemma_kind_under(ts, char_index as int, mid as int);
                    }
                }
                return tokens[mid].kind;
            }
        }
        proof {
            if tokens_ordered(ts) {
                assert forall|k: int| 0 <= k < ts.len() implies !((#[trigger] ts[k]).range.start <= char_index < ts[k].range.end) by {
                    if k < lo {
                        assert(ts[k].range.end <= char_index);
                    } else {
                        assert(char_index < ts[k].range.start);
                    }
                }
            }
        }
        TokenKind::Text
    }
}

/// Parses `text` into line `i`.
fn parse_into(lines: &mut Vec<HighlightedLine>, i: usize, syntax: &Syntax, text: &str, previous: LineParseState) -> (r: LineParseState)
    requires
        i < old(lines).len(),
        syntax.wf(),
        resumable(previous),
    ensures
        final(lines)@.len() == old(lines)@.len(),
        lines_view(final(lines)@) == lines_view(old(lines)@).update(i as int, parsed_line(syntax.rules(), text@, previous)),
        r == parsed_line(syntax.rules(), text@, previous).0,
{
    let line = &mut lines[i];
    let state = syntax.parse_line(text, previous, &mut line.tokens);
    line.parse_state = state;
    assert(lines_view(lines@) =~= lines_view(old(lines)@).update(i as int, parsed_line(syntax.rules(), text@, previous)));
    state
}

/// Token ranges do not run backwards and each token ends before the next starts.
pub open spec fn tokens_ordered(ts: Seq<Token>) -> bool {
    &&& forall|k: int| 0 <= k < ts.len() ==> (#[trigger] ts[k]).range.start <= ts[k].range.end
    &&& forall|a: int, b: int| 0 <= a < b < ts.len() ==> (#[trigger] ts[a]).range.end <= (#[trigger] ts[b]).range.start
}

/// In ordered tokens, the token that holds a byte is the only one.
proof fn lemma_kind_under(ts: Seq<Token>, i: int, m: int)
    requires
        tokens_ordered(ts),
        0 <= m < ts.len(),
        ts[m].range.start <= i < ts[m].range.end,
    ensures
        kind_under(ts, i) == ts[m].kind,
{
    let k = choose|k: int| 0 <= k < ts.len() && (#[trigger] ts[k]).range.start <= i < ts[k].range.end;
    if k < m {
        assert(ts[k].range.end <= ts[m].range.start);
    } else if k > m {
        assert(ts[m].range.end <= ts[k].range.start);
    }
}

/// The kind of the token whose range holds byte `i`, or `Text`.
pub open spec fn kind_under(ts: Seq<Token>, i: int) -> TokenKind {
    if exists|k: int| 0 <= k < ts.len() && (#[trigger] ts[k]).range.start <= i < ts[k].range.end {
        ts[choose|k: int| 0 <= k < ts.len() && (#[trigger] ts[k]).range.start <= i < ts[k].range.end].kind
    } else {
        TokenKind::Text
    }
}

/// A boundary search stops at the end or at a char whose offset reaches the target.
proof fn lemma_boundary_reaches(t: Seq<char>, b: int, q: int)
    requires
        0 <= q <= t.len(),
    ensures
        boundary_from(t, b, q) == t.len() || offset(t, boundary_from(t, b, q)) >= b,
    decreases t.len() - q,
{
    if q < t.len() && offset(t, q) < b {
        lemma_boundary_reaches(t, b, q + 1);
    }
}

/// The tokens parsed from char `p` on are in order and start at or after `p`.
proof fn lemma_parse_from_ordered(rules: Seq<Pattern>, t: Seq<char>, p: int)
    requires
        0 <= p <= t.len(),
        byte_len(t) <= usize::MAX,
    ensures
        tokens_ordered(parse_from(rules, t, p).0),
        forall|k: int| 0 <= k < parse_from(rules, t, p).0.len() ==> (#[trigger] parse_from(rules, t, p).0[k]).range.start >= offset(t, p),
    decreases t.len() - p,
{
    assert(t.take(t.len() as int) =~= t);
    if p < t.len() {
        lemma_byte_len_take_mono(t, p, t.len() as int);
        let w = space_run(t, p);
        match scan_rules(rules, t.skip(p + w), 0, TokenKind::Text, 0) {
            RuleScan::Pending(kind, state) => {},
            RuleScan::Best(kind, len) => {
                let len2: int = if len == 0 {
                    if alnum_run(t, p + w) == 0 {
                        1
                    } else {
                        alnum_run(t, p + w) as int
                    }
                } else {
                    len as int
                };
                let q = boundary_from(t, offset(t, p) + w + len2, p);
                if q > p && q <= t.len() {
                    lemma_parse_from_ordered(rules, t, q);
                    lemma_byte_len_take_mono(t, p, q);
                    lemma_byte_len_take_mono(t, q, t.len() as int);
                    let rest = parse_from(rules, t, q).0;
                    let all = parse_from(rules, t, p).0;
                    assert(all == seq![token(kind_or_text(kind, len), offset(t, p), offset(t, q))] + rest);
                    assert forall|k: int| 0 <= k < all.len() implies (#[trigger] all[k]).range.start <= all[k].range.end by {
                        if k > 0 {
                            assert(all[k] == rest[k - 1]);
                        }
                    }
                    assert forall|a: int, b: int| 0 <= a < b < all.len() implies (#[trigger] all[a]).range.end <= (#[trigger] all[b]).range.start by {
                        assert(all[b] == rest[b - 1]);
                        if a > 0 {
                            assert(all[a] == rest[a - 1]);
                        }
                    }
                    assert forall|k: int| 0 <= k < all.len() implies (#[trigger] all[k]).range.start >= offset(t, p) by {
                        if k > 0 {
                            assert(all[k] == rest[k - 1]);
                        }
                    }
                }
            },
        }
    }
}

/// The kind of a token of the longest match: text when nothing matched.
pub open spec fn kind_or_text(kind: TokenKind, len: usize) -> TokenKind {
    if len == 0 {
        TokenKind::Text
    } else {
        kind
    }
}

/// The tokens of a parsed line are in order, each ending at or before the
/// start of the next, so a token kind can be looked up by byte.
pub proof fn lemma_parse_line_ordered(rules: Seq<Pattern>, t: Seq<char>, previous: LineParseState)
    requires
        byte_len(t) <= usize::MAX,
    ensures
        tokens_ordered(spec_parse_line(rules, t, previous).0),
{
    lemma_parse_from_ordered(rules, t, 0);
    if let LineParseState::Unfinished(kind, state) = previous {
        match pattern_match(rules[rule_index(kind)], t, state.op_index as int) {
            MatchResult::Matched(len) => {
                let q = boundary_from(t, len as int, 0);
                lemma_boundary_bounds(t, len as int, 0);
                lemma_boundary_reaches(t, len as int, 0);
                lemma_parse_from_ordered(rules, t, q);
                let rest = parse_from(rules, t, q).0;
                let all = spec_parse_line(rules, t, previous).0;
                assert(all == seq![token(kind, 0, len as int)] + rest);
                if q == t.len() {
                    assert(rest.len() == 0);
                }
                assert forall|k: int| 0 <= k < all.len() implies (#[trigger] all[k]).range.start <= all[k].range.end by {
                    if k > 0 {
                        assert(all[k] == rest[k - 1]);
                    }
                }
                assert forall|a: int, b: int| 0 <= a < b < all.len() implies (#[trigger] all[a]).range.end <= (#[trigger] all[b]).range.start by {
                    assert(all[b] == rest[b - 1]);
                    if a > 0 {
                        assert(all[a] == rest[a - 1]);
                    }
                }
            },
            MatchResult::Failed => {},
            MatchResult::Pending(_) => {},
        }
    }
}

} // verus!
