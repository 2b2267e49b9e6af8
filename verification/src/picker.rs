//! The picker: a filtered, scored and scrollable list of entries, and the
//! fuzzy matcher that scores them.

use vstd::prelude::*;
use crate::text::{ascii_alphanumeric, ascii_lowercase, ascii_uppercase, chars_eq_ignore_case, fold_char, is_alnum, is_lower, is_upper, str_byte_len, str_to_chars, byte_len};
use crate::word_database::{live_entries, WordDatabase};

verus! {

pub const RECURSION_LIMIT: u8 = 8;
pub const BONUS_WORD_BOUNDARY: u32 = 2;
pub const BONUS_CONSECUTIVE: u32 = 3;

/// Longest text (in chars) the matcher scores: every score stays below this times 5.
pub const MAX_SCORED_LEN: usize = 0x3000_0000;

pub open spec fn finish_score(matched: bool, score: int, best: int) -> int {
    if matched {
        if score > best { score } else { best }
    } else {
        best
    }
}

/// Best score of matching `pat[pi..]`, whose current char is `pc`, against
/// the text from char `ti` on, `last` being the char before it. Zero when
/// there is no match.
pub open spec fn fuzzy_rec(
    text: Seq<char>,
    ti: int,
    last: char,
    pat: Seq<char>,
    pi: int,
    pc: char,
    depth: int,
) -> int
    decreases text.len() - ti, 0int,
{
    if ti < 0 || ti >= text.len() {
        0
    } else {
        fuzzy_loop(text, ti + 1, text[ti], last, pat, pi, pc, depth, false, 0, 0)
    }
}

/// One round of the matcher's loop: `tc` is the text char just read (at
/// `ti - 1`), `last` the one before it.
pub open spec fn fuzzy_loop(
    text: Seq<char>,
    ti: int,
    tc: char,
    last: char,
    pat: Seq<char>,
    pi: int,
    pc: char,
    depth: int,
    on_seq: bool,
    best: int,
    score: int,
) -> int
    decreases text.len() - ti, 1int,
{
    if ti < 1 || ti > text.len() {
        0
    } else if fold_char(tc) == fold_char(pc) {
        let alnum = is_alnum(tc);
        let wb = (!is_alnum(last) && alnum) || (is_lower(last) && is_upper(tc));
        let best2 = if depth < RECURSION_LIMIT {
            let rs = fuzzy_rec(text, ti, last, pat, pi, pc, depth + 1);
            if rs != 0 {
                if rs + score > best { rs + score } else { best }
            } else {
                best
            }
        } else {
            best
        };
        let score2 = score + if on_seq { BONUS_CONSECUTIVE as int } else { 0 };
        let score3 = score2 + if wb { BONUS_WORD_BOUNDARY as int } else { 0 };
        let on2 = on_seq || wb;
        if (on2 || !alnum) && pi >= pat.len() {
            finish_score(true, score3, best2)
        } else {
            let pc2 = if on2 || !alnum { pat[pi] } else { pc };
            let pi2 = if on2 || !alnum { pi + 1 } else { pi };
            if ti >= text.len() {
                finish_score(pi2 >= pat.len(), score3, best2)
            } else {
                fuzzy_loop(text, ti + 1, text[ti], tc, pat, pi2, pc2, depth, on2, best2, score3)
            }
        }
    } else {
        if ti >= text.len() {
            best
        } else {
            fuzzy_loop(text, ti + 1, text[ti], tc, pat, pi, pc, depth, false, best, score)
        }
    }
}

/// The score of `text` for `pattern`: zero when it does not match.
pub open spec fn fuzzy_score(text: Seq<char>, pattern: Seq<char>) -> int {
    if pattern.len() == 0 {
        1
    } else {
        let s = fuzzy_rec(text, 0, '\0', pattern, 1, pattern[0], 0);
        if s != 0 {
            s + if byte_len(text) == byte_len(pattern) { 1int } else { 0int }
        } else {
            0
        }
    }
}

/// A recursive score never exceeds five points per char left.
pub proof fn lemma_rec_bounds(
    text: Seq<char>,
    ti: int,
    last: char,
    pat: Seq<char>,
    pi: int,
    pc: char,
    depth: int,
)
    ensures
        0 <= fuzzy_rec(text, ti, last, pat, pi, pc, depth),
        0 <= ti <= text.len() ==> fuzzy_rec(text, ti, last, pat, pi, pc, depth) <= 5 * (text.len() - ti),
    decreases text.len() - ti, 0int,
{
    if 0 <= ti < text.len() {
        lemma_loop_bounds(text, ti + 1, text[ti], last, pat, pi, pc, depth, false, 0, 0);
    }
}

/// A round of the loop adds at most five points per char left.
pub proof fn lemma_loop_bounds(
    text: Seq<char>,
    ti: int,
    tc: char,
    last: char,
    pat: Seq<char>,
    pi: int,
    pc: char,
    depth: int,
    on_seq: bool,
    best: int,
    score: int,
)
    requires
        0 <= best,
        0 <= score,
    ensures
        0 <= fuzzy_loop(text, ti, tc, last, pat, pi, pc, depth, on_seq, best, score),
        1 <= ti <= text.len() ==> fuzzy_loop(text, ti, tc, last, pat, pi, pc, depth, on_seq, best, score)
            <= if best > score + 5 * (text.len() - ti + 1) { best } else { score + 5 * (text.len() - ti + 1) },
    decreases text.len() - ti, 1int,
{
    if 1 <= ti <= text.len() {
        lemma_rec_bounds(text, ti, last, pat, pi, pc, depth + 1);
        if ti < text.len() {
            let rs = fuzzy_rec(text, ti, last, pat, pi, pc, depth + 1);
            let alnum = is_alnum(tc);
            let wb = (!is_alnum(last) && alnum) || (is_lower(last) && is_upper(tc));
            let best2 = if depth < RECURSION_LIMIT {
                if rs != 0 {
                    if rs + score > best { rs + score } else { best }
                } else {
                    best
                }
            } else {
                best
            };
            let score3 = score + (if on_seq { 3int } else { 0 }) + (if wb { 2int } else { 0 });
            let on2 = on_seq || wb;
            let pc2 = if on2 || !alnum { pat[pi] } else { pc };
            let pi2 = if on2 || !alnum { pi + 1 } else { pi };
            lemma_loop_bounds(text, ti + 1, text[ti], tc, pat, pi2, pc2, depth, on2, best2, score3);
            lemma_loop_bounds(text, ti + 1, text[ti], tc, pat, pi, pc, depth, false, best, score);
        }
    }
}

fn fuzzy_recursive(
    text: &Vec<char>,
    ti: usize,
    last: char,
    pat: &Vec<char>,
    pi: usize,
    pc: char,
    depth: u8,
) -> (r: u32)
    requires
        ti <= text.len(),
        text.len() <= MAX_SCORED_LEN,
        pi <= pat.len(),
        depth <= RECURSION_LIMIT,
    ensures
        r == fuzzy_rec(text@, ti as int, last, pat@, pi as int, pc, depth as int),
    decreases text.len() - ti,
{
    if ti >= text.len() {
        return 0;
    }
    let mut pos = ti;
    let mut text_char = text[pos];
    pos = pos + 1;
    let mut last_text_char = last;
    let mut pattern_char = pc;
    let mut pat_i = pi;
    let mut on_word_boundary_sequence = false;
    let mut best_score: u32 = 0;
    let mut score: u32 = 0;
    loop
        invariant
            ti < pos <= text.len(),
            text.len() <= MAX_SCORED_LEN,
            pat_i <= pat.len(),
            depth <= RECURSION_LIMIT,
            score <= 5 * (pos - 1 - ti),
            best_score <= 5 * (text.len() - ti),
            fuzzy_rec(text@, ti as int, last, pat@, pi as int, pc, depth as int) == fuzzy_loop(
                text@,
                pos as int,
                text_char,
                last_text_char,
                pat@,
                pat_i as int,
                pattern_char,
                depth as int,
                on_word_boundary_sequence,
                best_score as int,
                score as int,
            ),
        decreases text.len() - pos,
    {
        let matched = chars_eq_ignore_case(text_char, pattern_char);
        if matched {
            let text_char_is_alphanumeric = ascii_alphanumeric(text_char);
            let is_word_boundary = (!ascii_alphanumeric(last_text_char) && text_char_is_alphanumeric)
                || (ascii_lowercase(last_text_char) && ascii_uppercase(text_char));
            if depth < RECURSION_LIMIT {
                let recursive_score = fuzzy_recursive(
                    text,
                    pos,
                    last_text_char,
                    pat,
                    pat_i,
                    pattern_char,
                    depth + 1,
                );
                proof {
                    lemma_rec_bounds(text@, pos as int, last_text_char, pat@, pat_i as int, pattern_char, depth + 1);
                }
                if recursive_score != 0 {
                    if recursive_score + score > best_score {
                        best_score = recursive_score + score;
                    }
                }
            }
            if on_word_boundary_sequence {
                score = score + BONUS_CONSECUTIVE;
            }
            if is_word_boundary {
                score = score + BONUS_WORD_BOUNDARY;
                on_word_boundary_sequence = true;
            }
            if on_word_boundary_sequence || !text_char_is_alphanumeric {
                if pat_i >= pat.len() {
                    return if score > best_score { score } else { best_score };
                }
                pattern_char = pat[pat_i];
                pat_i = pat_i + 1;
            }
            last_text_char = text_char;
            if pos >= text.len() {
                let m = pat_i >= pat.len();
                return if m && score > best_score { score } else { best_score };
            }
            text_char = text[pos];
            pos = pos + 1;
        } else {
            on_word_boundary_sequence = false;
            last_text_char = text_char;
            if pos >= text.len() {
                return best_score;
            }
            text_char = text[pos];
            pos = pos + 1;
        }
    }
}

/// Scores how well a text matches a pattern typed in a picker.
#[derive(Default)]
pub struct FuzzyMatcher;

impl FuzzyMatcher {
    /// The score of `text` for `pattern`, as `fuzzy_score` defines it: 0
    /// when there is no match (a matched char only moves the pattern on at a
    /// word boundary, in a run from one, or on a char that is not
    /// alphanumeric); word boundaries and runs score more.
    pub fn score(&mut self, text: &str, pattern: &str) -> (r: u32)
        requires
            text@.len() <= MAX_SCORED_LEN,
        ensures
            r == fuzzy_score(text@, pattern@),
    {
        let text_len = str_byte_len(text);
        let pattern_len = str_byte_len(pattern);
        let pat = str_to_chars(pattern);
        if pat.len() == 0 {
            return 1;
        }
        let chars = str_to_chars(text);
        let score = fuzzy_recursive(&chars, 0, '\0', &pat, 1, pat[0], 0);
        proof {
            lemma_rec_bounds(chars@, 0, '\0', pat@, 1, pat@[0], 0);
        }
        if score != 0 {
            score + if text_len == pattern_len { 1 } else { 0 }
        } else {
            0
        }
    }
}


/// Where a picker entry comes from: a custom entry or a word of the word database.
#[derive(Debug, Clone, Copy, PartialEq, Eq, Structural)]
pub enum EntrySource {
    Custom(usize),
    WordDatabase(usize),
}

/// An entry that matched the filter, with its score.
#[derive(Debug, Clone, Copy, PartialEq, Eq, Structural)]
pub struct FilteredEntry {
    pub source: EntrySource,
    pub score: u32,
}

/// Entries ordered from the highest score to the lowest.
pub open spec fn sorted_by_score(s: Seq<FilteredEntry>) -> bool {
    forall|i: int, j: int| 0 <= i < j < s.len() ==> (#[trigger] s[i]).score >= (#[trigger] s[j]).score
}

/// Sorts entries from the highest score to the lowest, keeping the order of equal scores.
fn sort_by_score(v: Vec<FilteredEntry>) -> (r: Vec<FilteredEntry>)
    ensures
        sorted_by_score(r@),
        r@.to_multiset() == v@.to_multiset(),
{
    broadcast use vstd::seq_lib::group_to_multiset_ensures;

    let mut r: Vec<FilteredEntry> = Vec::new();
    let mut i: usize = 0;
    while i < v.len()
        invariant
            i <= v.len(),
            sorted_by_score(r@),
            r@.to_multiset() == v@.take(i as int).to_multiset(),
        decreases v.len() - i,
    {
        let e = v[i];
        let mut k: usize = 0;
        while k < r.len() && r[k].score >= e.score
            invariant
                k <= r.len(),
                forall|j: int| 0 <= j < k ==> (#[trigger] r@[j]).score >= e.score,
            decreases r.len() - k,
        {
            k = k + 1;
        }
        let ghost old_r = r@;
        r.insert(k, e);
        proof {
            assert(v@.take(i + 1) =~= v@.take(i as int).push(e));
            assert(r@ == old_r.insert(k as int, e));
            vstd::seq_lib::to_multiset_insert(old_r, k as int, e);
            vstd::seq_lib::to_multiset_build(v@.take(i as int), e);
            assert forall|a: int, b: int| 0 <= a < b < r@.len() implies (#[trigger] r@[a]).score >= (#[trigger] r@[b]).score by {
                if b < k {
                } else if b == k {
                    assert(r@[a] == old_r[a]);
                } else if a < k {
                    assert(r@[b] == old_r[b - 1]);
                    if b - 1 < old_r.len() && k < old_r.len() {
                        assert(old_r[k as int].score < e.score);
                    }
                } else if a == k {
                    assert(old_r[k as int].score < e.score);
                    assert(r@[b] == old_r[b - 1]);
                    if b - 1 > k {
                        assert(old_r[k as int].score >= old_r[b - 1].score);
                    }
                } else {
                    assert(r@[a] == old_r[a - 1]);
                    assert(r@[b] == old_r[b - 1]);
                }
            }
        }
        i = i + 1;
    }
    assert(v@.take(v.len() as int) =~= v@);
    r
}

/// Scored entries of the words that match `pattern`.
pub open spec fn word_candidates(words: Seq<(usize, Seq<char>)>, pattern: Seq<char>) -> Seq<FilteredEntry>
    decreases words.len(),
{
    if words.len() == 0 {
        Seq::empty()
    } else {
        let rest = word_candidates(words.drop_last(), pattern);
        let score = fuzzy_score(words.last().1, pattern);
        if score != 0 {
            rest.push(FilteredEntry { source: EntrySource::WordDatabase(words.last().0), score: score as u32 })
        } else {
            rest
        }
    }
}

/// Scored entries of the custom entries that match `pattern`.
pub open spec fn custom_candidates(customs: Seq<Seq<char>>, pattern: Seq<char>) -> Seq<FilteredEntry>
    decreases customs.len(),
{
    if customs.len() == 0 {
        Seq::empty()
    } else {
        let rest = custom_candidates(customs.drop_last(), pattern);
        let score = fuzzy_score(customs.last(), pattern);
        if score != 0 {
            rest.push(FilteredEntry { source: EntrySource::Custom((customs.len() - 1) as usize), score: score as u32 })
        } else {
            rest
        }
    }
}

/// The candidates of custom entries come from those entries: each names one
/// of them, by its index.
proof fn lemma_custom_candidates_sources(customs: Seq<Seq<char>>, pattern: Seq<char>)
    ensures
        forall|k: int| 0 <= k < custom_candidates(customs, pattern).len() ==> ((#[trigger] custom_candidates(customs, pattern)[k]).source
            matches EntrySource::Custom(i) && i < customs.len()),
    decreases customs.len(),
{
    if customs.len() > 0 {
        lemma_custom_candidates_sources(customs.drop_last(), pattern);
    }
}

/// The candidates of words come from the word database.
proof fn lemma_word_candidates_sources(words: Seq<(usize, Seq<char>)>, pattern: Seq<char>)
    ensures
        forall|k: int| 0 <= k < word_candidates(words, pattern).len() ==> (#[trigger] word_candidates(words, pattern)[k]).source
            is WordDatabase,
    decreases words.len(),
{
    if words.len() > 0 {
        lemma_word_candidates_sources(words.drop_last(), pattern);
    }
}

/// A custom entry added after the others is among the candidates a filter
/// lists exactly when the pattern scores it above zero, and then with that
/// score.
pub proof fn lemma_custom_entry_listed(
    words: Seq<(usize, Seq<char>)>,
    customs: Seq<Seq<char>>,
    name: Seq<char>,
    pattern: Seq<char>,
)
    requires
        customs.len() < usize::MAX,
    ensures
        ({
            let cands = word_candidates(words, pattern) + custom_candidates(customs.push(name), pattern);
            &&& (exists|k: int| 0 <= k < cands.len() && (#[trigger] cands[k]).source == EntrySource::Custom(customs.len() as usize))
                <==> fuzzy_score(name, pattern) != 0
            &&& forall|k: int| 0 <= k < cands.len() && (#[trigger] cands[k]).source == EntrySource::Custom(customs.len() as usize)
                ==> cands[k].score == fuzzy_score(name, pattern) as u32
        }),
{
    let ws = word_candidates(words, pattern);
    let all = customs.push(name);
    let cs = custom_candidates(all, pattern);
    let rest = custom_candidates(customs, pattern);
    let cands = ws + cs;
    let src = EntrySource::Custom(customs.len() as usize);
    assert(all.drop_last() =~= customs);
    assert(all.last() == name);
    lemma_custom_candidates_sources(customs, pattern);
    lemma_word_candidates_sources(words, pattern);
    assert forall|k: int| 0 <= k < cands.len() && (#[trigger] cands[k]).source == src implies k == cands.len() - 1
        && fuzzy_score(name, pattern) != 0 && cands[k].score == fuzzy_score(name, pattern) as u32 by {
        if k < ws.len() {
            assert(cands[k] == ws[k]);
        } else {
            assert(cands[k] == cs[k - ws.len()]);
            if fuzzy_score(name, pattern) == 0 {
                assert(cs == rest);
                assert((rest[k - ws.len()].source matches EntrySource::Custom(i) && i < customs.len()));
            } else if k - ws.len() < rest.len() {
                assert(cs[k - ws.len()] == rest[k - ws.len()]);
                assert((rest[k - ws.len()].source matches EntrySource::Custom(i) && i < customs.len()));
            }
        }
    }
    if fuzzy_score(name, pattern) != 0 {
        let k = cands.len() - 1;
        assert(cands[k] == cs[cs.len() - 1]);
    }
}

/// Where the cursor goes when moved by `offset` in a list of `len` entries:
/// it wraps around at either end.
pub open spec fn moved_cursor(len: nat, cursor: Option<usize>, offset: int) -> Option<usize> {
    if len == 0 {
        cursor
    } else {
        let end = len - 1;
        match cursor {
            None => Some(0usize),
            Some(c) => if offset > 0 {
                let (off, c1) = if c == end { (offset - 1, 0int) } else { (offset, c as int) };
                Some((if off < end - c1 { c1 + off } else { end as int }) as usize)
            } else if offset < 0 {
                let (off, c1) = if c == 0 { (-offset - 1, end as int) } else { (-offset, c as int) };
                Some((if off < c1 { c1 - off } else { 0 }) as usize)
            } else {
                Some(c)
            },
        }
    }
}

/// Moving the cursor in a list of entries from first (0) to last (`end`):
/// with no cursor yet it goes to the first entry; moving down from an entry
/// above the last goes `offset` entries down and stops on the last one; moving
/// down from the last entry starts again at the first, with one step used;
/// moving up is the mirror image; an offset of zero keeps the cursor. The
/// cursor always lands on an entry.
pub proof fn lemma_moved_cursor_steps(len: nat, cursor: Option<usize>, offset: int)
    requires
        0 < len <= usize::MAX,
        cursor matches Some(c) ==> c < len,
    ensures
        moved_cursor(len, cursor, offset) matches Some(n) && n < len,
        cursor is None ==> moved_cursor(len, cursor, offset) == Some(0usize),
        cursor matches Some(c) ==> {
            let end = len - 1;
            &&& (offset > 0 && c < end && c + offset <= end) ==> moved_cursor(len, cursor, offset) == Some((c + offset) as usize)
            &&& (offset > 0 && c < end && c + offset > end) ==> moved_cursor(len, cursor, offset) == Some(end as usize)
            &&& (offset > 0 && c == end && offset - 1 <= end) ==> moved_cursor(len, cursor, offset) == Some((offset - 1) as usize)
            &&& (offset > 0 && c == end && offset - 1 > end) ==> moved_cursor(len, cursor, offset) == Some(end as usize)
            &&& (offset < 0 && c > 0 && c + offset >= 0) ==> moved_cursor(len, cursor, offset) == Some((c + offset) as usize)
            &&& (offset < 0 && c > 0 && c + offset < 0) ==> moved_cursor(len, cursor, offset) == Some(0usize)
            &&& (offset < 0 && c == 0 && end + offset + 1 >= 0) ==> moved_cursor(len, cursor, offset) == Some((end + offset + 1) as usize)
            &&& (offset < 0 && c == 0 && end + offset + 1 < 0) ==> moved_cursor(len, cursor, offset) == Some(0usize)
            &&& offset == 0 ==> moved_cursor(len, cursor, offset) == Some(c)
        },
{
}

/// The scroll that keeps the cursor in view, and the height of the view.
pub open spec fn updated_scroll(len: nat, cursor: Option<usize>, scroll: nat, max_height: nat) -> (nat, nat) {
    let height = if len < max_height { len } else { max_height };
    let c = match cursor {
        Some(c) => c as nat,
        None => 0nat,
    };
    let s1 = if c < scroll {
        c
    } else if c >= scroll + height {
        (c + 1 - height) as nat
    } else {
        scroll
    };
    let lim = if len >= height { (len - height) as nat } else { 0nat };
    (if s1 < lim { s1 } else { lim }, height)
}

/// A list of entries filtered and sorted by a fuzzy pattern, with a cursor and a scroll.
pub struct Picker {
    fuzzy_matcher: FuzzyMatcher,
    custom_entries_len: usize,
    custom_entries_buffer: Vec<String>,
    filtered_entries: Vec<FilteredEntry>,
    cursor: Option<usize>,
    scroll: usize,
}

impl Picker {
    /// The filtered entries, best first.
    pub closed spec fn entries_view(&self) -> Seq<FilteredEntry> {
        self.filtered_entries@
    }

    /// The custom entries added since the last clear.
    pub closed spec fn custom_view(&self) -> Seq<Seq<char>> {
        self.custom_entries_buffer@.take(self.custom_entries_len as int).map_values(|s: String| s@)
    }

    pub closed spec fn cursor_view(&self) -> Option<usize> {
        self.cursor
    }

    pub closed spec fn scroll_view(&self) -> usize {
        self.scroll
    }

    /// The cursor is on an entry, and custom entries are in the buffer.
    pub closed spec fn wf(&self) -> bool {
        &&& self.custom_entries_len <= self.custom_entries_buffer.len()
        &&& (self.cursor matches Some(c) ==> c < self.filtered_entries.len())
        &&& forall|k: int| 0 <= k < self.filtered_entries.len() ==> ((#[trigger] self.filtered_entries@[k]).source matches EntrySource::Custom(i) ==> i < self.custom_entries_len)
    }

    /// Every entry names an existing word of `words` or custom entry.
    pub closed spec fn sources_valid(&self, words: &WordDatabase) -> bool {
        forall|k: int| 0 <= k < self.filtered_entries.len() ==> match (#[trigger] self.filtered_entries@[k]).source {
            EntrySource::Custom(i) => i < self.custom_entries_len,
            EntrySource::WordDatabase(i) => i < words.table().len(),
        }
    }

    pub fn new() -> (r: Self)
        ensures
            r.wf(),
            r.entries_view().len() == 0,
            r.custom_view().len() == 0,
            r.cursor_view() is None,
            r.scroll_view() == 0,
    {
        let r = Self {
            fuzzy_matcher: FuzzyMatcher,
            custom_entries_len: 0,
            custom_entries_buffer: Vec::new(),
            filtered_entries: Vec::new(),
            cursor: None,
            scroll: 0,
        };
        assert(r.custom_view() =~= Seq::<Seq<char>>::empty());
        r
    }

    pub fn cursor(&self) -> (r: Option<usize>)
        ensures
            r == self.cursor_view(),
    {
        self.cursor
    }

    pub fn scroll(&self) -> (r: usize)
        ensures
            r == self.scroll_view(),
    {
        self.scroll
    }

    /// Number of filtered entries.
    pub fn len(&self) -> (r: usize)
        ensures
            r == self.entries_view().len(),
    {
        self.filtered_entries.len()
    }

    /// Moves the cursor by `offset` entries, wrapping around at the ends;
    /// with no cursor yet, the cursor goes to the first entry.
    pub fn move_cursor(&mut self, offset: isize)
        requires
            old(self).wf(),
        ensures
            final(self).wf(),
            final(self).cursor_view() == moved_cursor(
                old(self).entries_view().len(),
                old(self).cursor_view(),
                offset as int,
            ),
            old(self).entries_view().len() > 0 ==> (final(self).cursor_view() matches Some(n) && n < old(self).entries_view().len()),
            old(self).cursor_view() matches Some(c) ==> (offset > 0 && c + offset < old(self).entries_view().len()
                ==> final(self).cursor_view() == Some((c + offset) as usize)),
            old(self).cursor_view() matches Some(c) ==> (offset > 0 && c + 1 < old(self).entries_view().len()
                && c + offset >= old(self).entries_view().len()
                ==> final(self).cursor_view() == Some((old(self).entries_view().len() - 1) as usize)),
            old(self).cursor_view() matches Some(c) ==> (offset < 0 && c + offset >= 0
                ==> final(self).cursor_view() == Some((c + offset) as usize)),
            old(self).cursor_view() matches Some(c) ==> (offset < 0 && c > 0 && c + offset < 0
                ==> final(self).cursor_view() == Some(0usize)),
            final(self).entries_view() == old(self).entries_view(),
            final(self).custom_view() == old(self).custom_view(),
            final(self).scroll_view() == old(self).scroll_view(),
    {
        if self.filtered_entries.len() == 0 {
            return;
        }
        proof {
            lemma_moved_cursor_steps(self.filtered_entries.len() as nat, self.cursor, offset as int);
        }
        let end_index = self.filtered_entries.len() - 1;
        let mut cursor = match self.cursor {
            Some(c) => c,
            None => {
                self.cursor = Some(0);
                return;
            },
        };
        if offset > 0 {
            let mut offset = offset as usize;
            if cursor == end_index {
                offset = offset - 1;
                cursor = 0;
            }
            if offset < end_index - cursor {
                cursor = cursor + offset;
            } else {
                cursor = end_index;
            }
        } else if offset < 0 {
            let mut offset: usize = if offset == isize::MIN {
                (isize::MAX as usize) + 1
            } else {
                (-offset) as usize
            };
            if cursor == 0 {
                offset = offset - 1;
                cursor = end_index;
            }
            if offset < cursor {
                cursor = cursor - offset;
            } else {
                cursor = 0;
            }
        }
        self.cursor = Some(cursor);
    }

    /// Scrolls so that the cursor is in a view of at most `max_height`
    /// entries and returns the view's height.
    pub fn update_scroll(&mut self, max_height: usize) -> (r: usize)
        requires
            old(self).wf(),
        ensures
            final(self).wf(),
            (final(self).scroll_view() as nat, r as nat) == updated_scroll(
                old(self).entries_view().len(),
                old(self).cursor_view(),
                old(self).scroll_view() as nat,
                max_height as nat,
            ),
            final(self).entries_view() == old(self).entries_view(),
            final(self).custom_view() == old(self).custom_view(),
            final(self).cursor_view() == old(self).cursor_view(),
    {
        let len = self.filtered_entries.len();
        let height = if len < max_height { len } else { max_height };
        let cursor = match self.cursor {
            Some(c) => c,
            None => 0,
        };
        if cursor < self.scroll {
            self.scroll = cursor;
        } else if cursor - self.scroll >= height {
            self.scroll = cursor + 1 - height;
        }
        let lim = len - height;
        if lim < self.scroll {
            self.scroll = lim;
        }
        height
    }

    /// Removes all entries.
    pub fn clear(&mut self)
        requires
            old(self).wf(),
        ensures
            final(self).wf(),
            final(self).entries_view().len() == 0,
            final(self).custom_view().len() == 0,
            final(self).cursor_view() is None,
            final(self).scroll_view() == 0,
    {
        self.custom_entries_len = 0;
        self.filtered_entries.clear();
        self.cursor = None;
        self.scroll = 0;
        assert(self.custom_view() =~= Seq::<Seq<char>>::empty());
    }

    /// Adds a custom entry (not filtered yet).
    pub fn add_custom_entry(&mut self, name: &str)
        requires
            old(self).wf(),
            old(self).custom_view().len() < usize::MAX,
        ensures
            final(self).wf(),
            final(self).custom_view() == old(self).custom_view().push(name@),
            final(self).entries_view() == old(self).entries_view(),
            final(self).cursor_view() == old(self).cursor_view(),
            final(self).scroll_view() == old(self).scroll_view(),
    {
        let ghost old_custom = self.custom_view();
        let len = self.custom_entries_len;
        let entry = name.to_string();
        if len == self.custom_entries_buffer.len() {
            self.custom_entries_buffer.push(entry);
        } else {
            self.custom_entries_buffer.set(len, entry);
        }
        self.custom_entries_len = len + 1;
        assert(self.custom_view() =~= old_custom.push(name@));
    }

    /// Scores custom entry `index` and keeps it when it matches.
    fn filter_custom_entry(&mut self, index: usize, pattern: &str) -> (r: bool)
        requires
            old(self).wf(),
            index < old(self).custom_entries_len,
            old(self).custom_view()[index as int].len() <= MAX_SCORED_LEN,
        ensures
            final(self).wf(),
            final(self).custom_view() == old(self).custom_view(),
            final(self).cursor_view() == old(self).cursor_view(),
            final(self).scroll_view() == old(self).scroll_view(),
            final(self).custom_entries_len == old(self).custom_entries_len,
            r == (fuzzy_score(old(self).custom_view()[index as int], pattern@) != 0),
            r ==> final(self).entries_view() == old(self).entries_view().push(FilteredEntry {
                source: EntrySource::Custom(index),
                score: fuzzy_score(old(self).custom_view()[index as int], pattern@) as u32,
            }),
            !r ==> final(self).entries_view() == old(self).entries_view(),
    {
        assert(self.custom_view()[index as int] == self.custom_entries_buffer@[index as int]@);
        let score = self.fuzzy_matcher.score(self.custom_entries_buffer[index].as_str(), pattern);
        if score == 0 {
            return false;
        }
        self.filtered_entries.push(FilteredEntry { source: EntrySource::Custom(index), score });
        true
    }

    /// Adds a custom entry and, when it matches `pattern`, keeps it among
    /// the filtered entries.
    pub fn add_custom_entry_filtered(&mut self, name: &str, pattern: &str)
        requires
            old(self).wf(),
            old(self).custom_view().len() < usize::MAX,
            name@.len() <= MAX_SCORED_LEN,
        ensures
            final(self).wf(),
            final(self).custom_view() == old(self).custom_view().push(name@),
            fuzzy_score(name@, pattern@) != 0 ==> {
                &&& sorted_by_score(final(self).entries_view())
                &&& final(self).entries_view().to_multiset() == old(self).entries_view().push(FilteredEntry {
                    source: EntrySource::Custom(old(self).custom_view().len() as usize),
                    score: fuzzy_score(name@, pattern@) as u32,
                }).to_multiset()
            },
            fuzzy_score(name@, pattern@) == 0 ==> final(self).entries_view() == old(self).entries_view(),
            final(self).cursor_view() == old(self).cursor_view(),
            final(self).scroll_view() == old(self).scroll_view(),
    {
        self.add_custom_entry(name);
        assert(self.custom_view().len() == self.custom_entries_len);
        let index = self.custom_entries_len - 1;
        if self.filter_custom_entry(index, pattern) {
            let mut entries: Vec<FilteredEntry> = Vec::new();
            std::mem::swap(&mut entries, &mut self.filtered_entries);
            let sorted = sort_by_score(entries);
            proof {
                broadcast use vstd::seq_lib::group_to_multiset_ensures;
                vstd::seq_lib::to_multiset_len(sorted@);
                vstd::seq_lib::to_multiset_len(entries@);
                assert forall|k: int| 0 <= k < sorted@.len() implies ((#[trigger] sorted@[k]).source matches EntrySource::Custom(i) ==> i < self.custom_entries_len) by {
                    assert(sorted@.to_multiset().count(sorted@[k]) > 0);
                    assert(entries@.contains(sorted@[k]));
                }
            }
            self.filtered_entries = sorted;
        }
    }

    /// Keeps the words of `words` and the custom entries that match
    /// `pattern`, best first, and keeps the cursor on an entry.
    pub fn filter(&mut self, words: &WordDatabase, pattern: &str)
        requires
            old(self).wf(),
            forall|k: int| 0 <= k < live_entries(words.table()).len() ==> (#[trigger] live_entries(words.table())[k]).1.len() <= MAX_SCORED_LEN,
            forall|k: int| 0 <= k < old(self).custom_view().len() ==> (#[trigger] old(self).custom_view()[k]).len() <= MAX_SCORED_LEN,
        ensures
            final(self).wf(),
            final(self).sources_valid(words),
            sorted_by_score(final(self).entries_view()),
            final(self).entries_view().to_multiset() == (word_candidates(live_entries(words.table()), pattern@)
                + custom_candidates(old(self).custom_view(), pattern@)).to_multiset(),
            final(self).custom_view() == old(self).custom_view(),
            final(self).scroll_view() == old(self).scroll_view(),
            final(self).cursor_view() == (if final(self).entries_view().len() > 0 {
                match old(self).cursor_view() {
                    Some(c) => Some(if c < final(self).entries_view().len() - 1 { c } else { (final(self).entries_view().len() - 1) as usize }),
                    None => None,
                }
            } else {
                None
            }),
    {
        broadcast use vstd::seq_lib::group_to_multiset_ensures;
        self.filtered_entries.clear();
        let ghost customs = self.custom_view();
        let cursor0 = self.cursor;
        self.cursor = None;
        let indices = words.word_indices();
        let ghost le = live_entries(words.table());
        proof {
            crate::word_database::lemma_live_entries_bound(words.table());
            assert(customs == old(self).custom_view());
        }
        let mut i: usize = 0;
        while i < indices.len()
            invariant
                i <= indices.len(),
                indices@.len() == le.len(),
                le == live_entries(words.table()),
                forall|k: int| 0 <= k < indices@.len() ==> (#[trigger] indices@[k]).0 == le[k].0 && indices@[k].1@ == le[k].1,
                forall|k: int| 0 <= k < le.len() ==> (#[trigger] le[k]).1.len() <= MAX_SCORED_LEN,
                forall|k: int| 0 <= k < le.len() ==> (#[trigger] le[k]).0 < words.table().len(),
                self.filtered_entries@ == word_candidates(le.take(i as int), pattern@),
                self.custom_view() == customs,
                forall|k: int| 0 <= k < customs.len() ==> (#[trigger] customs[k]).len() <= MAX_SCORED_LEN,
                self.cursor == None::<usize>,
                self.scroll == old(self).scroll,
                self.custom_entries_len <= self.custom_entries_buffer.len(),
                forall|k: int| 0 <= k < self.filtered_entries.len() ==> ((#[trigger] self.filtered_entries@[k]).source matches EntrySource::WordDatabase(j) && j < words.table().len()),
            decreases indices.len() - i,
        {
            proof {
                assert(le.take(i + 1).drop_last() =~= le.take(i as int));
            }
            let (index, word) = indices[i];
            let score = self.fuzzy_matcher.score(word, pattern);
            if score != 0 {
                self.filtered_entries.push(FilteredEntry { source: EntrySource::WordDatabase(index), score });
            }
            i = i + 1;
        }
        assert(le.take(le.len() as int) =~= le);
        let ghost wc = word_candidates(le, pattern@);
        let mut i: usize = 0;
        while i < self.custom_entries_len
            invariant
                i <= self.custom_entries_len,
                customs.len() == self.custom_entries_len,
                self.custom_view() == customs,
                forall|k: int| 0 <= k < customs.len() ==> (#[trigger] customs[k]).len() <= MAX_SCORED_LEN,
                self.filtered_entries@ == wc + custom_candidates(customs.take(i as int), pattern@),
                self.wf(),
                self.cursor == None::<usize>,
                self.scroll == old(self).scroll,
                forall|k: int| 0 <= k < self.filtered_entries.len() ==> match (#[trigger] self.filtered_entries@[k]).source {
                    EntrySource::Custom(j) => j < self.custom_entries_len,
                    EntrySource::WordDatabase(j) => j < words.table().len(),
                },
            decreases self.custom_entries_len - i,
        {
            proof {
                assert(customs.take(i + 1).drop_last() =~= customs.take(i as int));
                assert(customs.take(i + 1).last() == customs[i as int]);
            }
            let ghost before = self.filtered_entries@;
            self.filter_custom_entry(i, pattern);
            proof {
                assert(self.filtered_entries@ =~= wc + custom_candidates(customs.take(i + 1), pattern@));
            }
            i = i + 1;
        }
        assert(customs.take(customs.len() as int) =~= customs);
        let mut entries: Vec<FilteredEntry> = Vec::new();
        std::mem::swap(&mut entries, &mut self.filtered_entries);
        let sorted = sort_by_score(entries);
        proof {
            vstd::seq_lib::to_multiset_len(sorted@);
            vstd::seq_lib::to_multiset_len(entries@);
            assert forall|k: int| 0 <= k < sorted@.len() implies match (#[trigger] sorted@[k]).source {
                EntrySource::Custom(j) => j < self.custom_entries_len,
                EntrySource::WordDatabase(j) => j < words.table().len(),
            } by {
                assert(sorted@.to_multiset().count(sorted@[k]) > 0);
                assert(entries@.contains(sorted@[k]));
            }
        }
        self.filtered_entries = sorted;
        let len = self.filtered_entries.len();
        if len > 0 {
            self.cursor = match cursor0 {
                Some(c) => Some(if c < len - 1 { c } else { len - 1 }),
                None => None,
            };
        } else {
            self.cursor = None;
        }
    }

    /// The text an entry shows.
    pub closed spec fn entry_text(&self, source: EntrySource, words: &WordDatabase) -> Seq<char> {
        match source {
            EntrySource::Custom(i) => self.custom_view()[i as int],
            EntrySource::WordDatabase(i) => words.table()[i as int].0,
        }
    }

    fn source_text<'a>(&'a self, source: EntrySource, words: &'a WordDatabase) -> (r: &'a str)
        requires
            self.wf(),
            match source {
                EntrySource::Custom(i) => i < self.custom_entries_len,
                EntrySource::WordDatabase(i) => i < words.table().len(),
            },
        ensures
            r@ == self.entry_text(source, words),
    {
        match source {
            EntrySource::Custom(i) => self.custom_entries_buffer[i].as_str(),
            EntrySource::WordDatabase(i) => words.word_at(i),
        }
    }

    /// The entry under the cursor, with its text.
    pub fn current_entry<'a>(&'a self, words: &'a WordDatabase) -> (r: Option<(EntrySource, &'a str)>)
        requires
            self.wf(),
            self.sources_valid(words),
        ensures
            r is None <==> self.cursor_view() is None,
            r is Some ==> {
                let c = self.cursor_view().unwrap();
                &&& r.unwrap().0 == self.entries_view()[c as int].source
                &&& r.unwrap().1@ == self.entry_text(r.unwrap().0, words)
            },
    {
        let c = match self.cursor {
            Some(c) => c,
            None => return None,
        };
        let source = self.filtered_entries[c].source;
        let text = self.source_text(source, words);
        Some((source, text))
    }

    /// The texts of the filtered entries, best first.
    pub fn entries<'a>(&'a self, words: &'a WordDatabase) -> (r: Vec<&'a str>)
        requires
            self.wf(),
            self.sources_valid(words),
        ensures
            r@.len() == self.entries_view().len(),
            forall|k: int| 0 <= k < r@.len() ==> (#[trigger] r@[k])@ == self.entry_text(self.entries_view()[k].source, words),
    {
        let mut r: Vec<&'a str> = Vec::new();
        let mut i: usize = 0;
        while i < self.filtered_entries.len()
            invariant
                self.wf(),
                self.sources_valid(words),
                i <= self.filtered_entries.len(),
                r@.len() == i,
                forall|k: int| 0 <= k < i ==> (#[trigger] r@[k])@ == self.entry_text(self.entries_view()[k].source, words),
            decreases self.filtered_entries.len() - i,
        {
            let text = self.source_text(self.filtered_entries[i].source, words);
            r.push(text);
            i = i + 1;
        }
        r
    }
}

impl Default for Picker {
    fn default() -> (r: Self)
        ensures
            r.wf(),
            r.entries_view().len() == 0,
            r.custom_view().len() == 0,
            r.cursor_view() is None,
            r.scroll_view() == 0,
    {
        Self::new()
    }
}

} // verus!
