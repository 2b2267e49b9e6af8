//! Selecting among named entries offered by several sources, filtered and
//! ordered by how well their names fuzzy match a pattern.

use vstd::prelude::*;
use fuzzy_matcher::skim::SkimMatcherV2;
use fuzzy_matcher::FuzzyMatcher;

verus! {

/// The score `SkimMatcherV2` with its default configuration (smart case)
/// gives `choice` for `pattern`, `None` when the pattern's chars cannot be
/// found in the choice.
pub uninterp spec fn skim_score(choice: Seq<char>, pattern: Seq<char>) -> Option<i64>;

/// `SkimMatcherV2::fuzzy_match` on a matcher of the default configuration:
/// the score is a function of the choice and the pattern; an empty pattern
/// matches with score 0 (the first lines of `SkimMatcherV2::fuzzy`).
#[verifier::external_body]
fn skim_fuzzy_match(choice: &str, pattern: &str) -> (r: Option<i64>)
    ensures
        r == skim_score(choice@, pattern@),
        pattern@.len() == 0 ==> r == Some(0i64),
{
    SkimMatcherV2::default().fuzzy_match(choice, pattern)
}

/// An entry to select: a name, and a description shown beside it.
#[derive(Default, Clone, Copy)]
pub struct SelectEntry<'a> {
    pub name: &'a str,
    pub description: &'a str,
}

impl<'a> SelectEntry<'a> {
    /// An entry with a name and no description.
    pub fn from_str(name: &'a str) -> (r: Self)
        ensures
            r.name == name,
            r.description@.len() == 0,
    {
        let description = "";
        proof {
            reveal_strlit("");
        }
        SelectEntry { name, description }
    }
}

/// Something that offers entries to select, by index.
pub trait SelectSource {
    /// The number of entries offered.
    spec fn entry_count(&self) -> nat;

    /// The entry offered at `index`.
    spec fn entry_at(&self, index: int) -> SelectEntry;

    fn len(&self) -> (r: usize)
        ensures
            r == self.entry_count(),
    ;

    fn entry(&self, index: usize) -> (r: SelectEntry)
        requires
            index < self.entry_count(),
        ensures
            r == self.entry_at(index as int),
    ;
}

impl<'a> SelectSource for SelectEntry<'a> {
    open spec fn entry_count(&self) -> nat {
        1
    }

    open spec fn entry_at(&self, index: int) -> SelectEntry {
        *self
    }

    fn len(&self) -> (r: usize) {
        1
    }

    fn entry(&self, _index: usize) -> SelectEntry {
        *self
    }
}

impl<'a, 'b> SelectSource for &'b [SelectEntry<'a>] {
    open spec fn entry_count(&self) -> nat {
        self@.len()
    }

    open spec fn entry_at(&self, index: int) -> SelectEntry {
        self@[index]
    }

    fn len(&self) -> (r: usize) {
        (**self).len()
    }

    fn entry(&self, index: usize) -> SelectEntry {
        self[index]
    }
}

/// What the sources offer at the time of a selection: the entries of each
/// source, in order.
pub struct SelectContext<'a> {
    pub sources: Vec<Vec<SelectEntry<'a>>>,
}

impl<'a> SelectContext<'a> {
    /// The entries of each source.
    pub open spec fn entries_of(&self) -> Seq<Seq<SelectEntry<'a>>> {
        self.sources@.map_values(|v: Vec<SelectEntry<'a>>| v@)
    }
}

/// A matching entry: which source and entry, and its score.
#[derive(Clone, Copy, PartialEq, Eq, Structural)]
pub struct SelectEntryInternal {
    pub source_index: usize,
    pub entry_index: usize,
    pub score: i64,
}

/// The first `e` entries of source `source` whose names match `pattern`.
pub open spec fn source_candidates(entries: Seq<SelectEntry>, source: int, pattern: Seq<char>, e: int) -> Seq<SelectEntryInternal>
    decreases e,
{
    if e <= 0 {
        Seq::empty()
    } else {
        let before = source_candidates(entries, source, pattern, e - 1);
        match skim_score(entries[e - 1].name@, pattern) {
            Some(score) => before.push(
                SelectEntryInternal { source_index: source as usize, entry_index: (e - 1) as usize, score },
            ),
            None => before,
        }
    }
}

/// The entries of the first `s` sources whose names match `pattern`, source by source.
pub open spec fn candidates(sources: Seq<Seq<SelectEntry>>, pattern: Seq<char>, s: int) -> Seq<SelectEntryInternal>
    decreases s,
{
    if s <= 0 {
        Seq::empty()
    } else {
        candidates(sources, pattern, s - 1) + source_candidates(sources[s - 1], s - 1, pattern, sources[s - 1].len() as int)
    }
}

/// From the highest score to the lowest.
pub open spec fn sorted_by_score(s: Seq<SelectEntryInternal>) -> bool {
    forall|i: int, j: int| 0 <= i < j < s.len() ==> (#[trigger] s[i]).score >= (#[trigger] s[j]).score
}

/// The entries of matching names, best first, with a cursor and a scroll.
pub struct SelectEntryCollection {
    entries: Vec<SelectEntryInternal>,
    cursor: usize,
    scroll: usize,
}

/// What a selection holds.
#[verifier::ext_equal]
pub struct SelectView {
    pub entries: Seq<SelectEntryInternal>,
    pub cursor: int,
    pub scroll: int,
}

impl View for SelectEntryCollection {
    type V = SelectView;

    closed spec fn view(&self) -> SelectView {
        SelectView { entries: self.entries@, cursor: self.cursor as int, scroll: self.scroll as int }
    }
}

/// Sorts entries from the highest score to the lowest.
fn sort_by_score(v: Vec<SelectEntryInternal>) -> (r: Vec<SelectEntryInternal>)
    ensures
        sorted_by_score(r@),
        r@.to_multiset() == v@.to_multiset(),
{
    broadcast use vstd::seq_lib::group_to_multiset_ensures;

    let mut r: Vec<SelectEntryInternal> = Vec::new();
    let mut i: usize = 0;
    while i < v.len()
        invariant
            i <= v.len(),
            sorted_by_score(r@),
            r@.to_multiset() == v@.take(i as int).to_multiset(),
        decreases v.len() - i,
    {
        let e = v[i];
        let mut k: usize = 0;
        while k < r.len() && r[k].score >= e.score
            invariant
                k <= r.len(),
                forall|j: int| 0 <= j < k ==> (#[trigger] r@[j]).score >= e.score,
            decreases r.len() - k,
        {
            k = k + 1;
        }
        let ghost old_r = r@;
        r.insert(k, e);
        proof {
            assert(v@.take(i + 1) =~= v@.take(i as int).push(e));
            vstd::seq_lib::to_multiset_insert(old_r, k as int, e);
            vstd::seq_lib::to_multiset_build(v@.take(i as int), e);
            assert forall|a: int, b: int| 0 <= a < b < r@.len() implies (#[trigger] r@[a]).score >= (#[trigger] r@[b]).score by {
                if b < k {
                } else if b == k {
                    assert(r@[a] == old_r[a]);
                } else if a < k {
                    assert(r@[b] == old_r[b - 1]);
                    if k < old_r.len() {
                        assert(old_r[k as int].score < e.score);
                    }
                } else if a == k {
                    assert(old_r[k as int].score < e.score);
                    assert(r@[b] == old_r[b - 1]);
                } else {
                    assert(r@[a] == old_r[a - 1]);
                    assert(r@[b] == old_r[b - 1]);
                }
            }
        }
        i = i + 1;
    }
    assert(v@.take(v.len() as int) =~= v@);
    r
}

impl SelectEntryCollection {
    /// The cursor stays within the entries and one past them.
    pub open spec fn wf(&self) -> bool {
        self@.cursor <= self@.entries.len()
    }

    pub fn new() -> (r: Self)
        ensures
            r.wf(),
            r@.entries.len() == 0,
            r@.cursor == 0,
            r@.scroll == 0,
    {
        SelectEntryCollection { entries: Vec::new(), cursor: 0, scroll: 0 }
    }

    pub fn cursor(&self) -> (r: usize)
        ensures
            r == self@.cursor,
    {
        self.cursor
    }

    pub fn scroll(&self) -> (r: usize)
        ensures
            r == self@.scroll,
    {
        self.scroll
    }

    /// The number of entries shown in at most `max_height` lines.
    pub fn height(&self, max_height: usize) -> (r: usize)
        ensures
            r == if self@.entries.len() < max_height {
                self@.entries.len() as int
            } else {
                max_height as int
            },
    {
        if self.entries.len() < max_height {
            self.entries.len()
        } else {
            max_height
        }
    }

    /// Moves the cursor by `offset`, wrapping around when it moves past
    /// the last entry from the last one, or past the first from the first.
    pub fn move_cursor(&mut self, offset: isize)
        requires
            old(self).wf(),
            offset > isize::MIN,
            old(self)@.entries.len() == 0 || offset <= 0 || old(self)@.cursor < old(self)@.entries.len(),
        ensures
            final(self).wf(),
            final(self)@.entries == old(self)@.entries,
            final(self)@.scroll == old(self)@.scroll,
            final(self)@.cursor == moved_cursor(old(self)@.entries.len() as int, old(self)@.cursor, offset as int),
    {
        if self.entries.len() == 0 {
            return;
        }
        let end_index = self.entries.len() - 1;
        if offset > 0 {
            let mut offset = offset as usize;
            if self.cursor == end_index {
                offset = offset - 1;
                self.cursor = 0;
            }
            if offset < end_index - self.cursor {
                self.cursor = self.cursor + offset;
            } else {
                self.cursor = end_index;
            }
        } else if offset < 0 {
            let mut offset = (-offset) as usize;
            if self.cursor == 0 {
                offset = offset - 1;
                self.cursor = end_index;
            }
            if offset < self.cursor {
                self.cursor = self.cursor - offset;
            } else {
                self.cursor = 0;
            }
        }
    }

    /// Scrolls so that the cursor shows among at most `max_height` lines.
    pub fn update_scroll(&mut self, max_height: usize)
        requires
            old(self).wf(),
            old(self)@.scroll + max_height <= usize::MAX,
            old(self)@.cursor < usize::MAX,
        ensures
            final(self).wf(),
            final(self)@.entries == old(self)@.entries,
            final(self)@.cursor == old(self)@.cursor,
            ({
                let height = if old(self)@.entries.len() < max_height {
                    old(self)@.entries.len() as int
                } else {
                    max_height as int
                };
                final(self)@.scroll == if old(self)@.cursor < old(self)@.scroll {
                    old(self)@.cursor
                } else if old(self)@.cursor >= old(self)@.scroll + height {
                    old(self)@.cursor + 1 - height
                } else {
                    old(self)@.scroll
                }
            }),
    {
        let height = self.height(max_height);
        if self.cursor < self.scroll {
            self.scroll = self.cursor;
        } else if self.cursor >= self.scroll + height {
            self.scroll = self.cursor + 1 - height;
        }
    }

    pub fn clear(&mut self)
        ensures
            final(self).wf(),
            final(self)@.entries.len() == 0,
            final(self)@.cursor == 0,
            final(self)@.scroll == 0,
    {
        self.entries.clear();
        self.cursor = 0;
        self.scroll = 0;
    }

    /// Keeps the entries of `ctx` whose names match `pattern`, best first;
    /// the cursor stays, but within the entries and one past them.
    pub fn filter(&mut self, ctx: &SelectContext, pattern: &str)
        ensures
            final(self).wf(),
            sorted_by_score(final(self)@.entries),
            final(self)@.entries.to_multiset() == candidates(ctx.entries_of(), pattern@, ctx.entries_of().len() as int).to_multiset(),
            final(self)@.cursor == if old(self)@.cursor < final(self)@.entries.len() {
                old(self)@.cursor
            } else {
                final(self)@.entries.len() as int
            },
            final(self)@.scroll == old(self)@.scroll,
    {
        let ghost sources = ctx.entries_of();
        let mut found: Vec<SelectEntryInternal> = Vec::new();
        let mut source_index: usize = 0;
        while source_index < ctx.sources.len()
            invariant
                source_index <= ctx.sources.len(),
                sources == ctx.entries_of(),
                found@ == candidates(sources, pattern@, source_index as int),
            decreases ctx.sources.len() - source_index,
        {
            let source = &ctx.sources[source_index];
            let ghost before = found@;
            let mut entry_index: usize = 0;
            while entry_index < source.len()
                invariant
                    entry_index <= source.len(),
                    sources == ctx.entries_of(),
                    source_index < ctx.sources.len(),
                    source@ == sources[source_index as int],
                    before == candidates(sources, pattern@, source_index as int),
                    found@ == before + source_candidates(source@, source_index as int, pattern@, entry_index as int),
                decreases source.len() - entry_index,
            {
                let entry = source[entry_index];
                match skim_fuzzy_match(entry.name, pattern) {
                    Some(score) => {
                        found.push(SelectEntryInternal { source_index, entry_index, score });
                    },
                    None => {},
                }
                entry_index = entry_index + 1;
                assert(found@ =~= before + source_candidates(source@, source_index as int, pattern@, entry_index as int));
            }
            source_index = source_index + 1;
        }
        self.entries = sort_by_score(found);
        if self.entries.len() < self.cursor {
            self.cursor = self.entries.len();
        }
    }

    /// The entry at `index`, read from `ctx`.
    pub fn entry<'a>(&self, ctx: &SelectContext<'a>, index: usize) -> (r: SelectEntry<'a>)
        requires
            index < self@.entries.len(),
            self@.entries[index as int].source_index < ctx.entries_of().len(),
            self@.entries[index as int].entry_index < ctx.entries_of()[self@.entries[index as int].source_index as int].len(),
        ensures
            r == ctx.entries_of()[self@.entries[index as int].source_index as int][self@.entries[index as int].entry_index as int],
    {
        let entry = self.entries[index];
        ctx.sources[entry.source_index][entry.entry_index]
    }

    /// The entries, best first, read from `ctx`.
    pub fn entries<'a>(&self, ctx: &SelectContext<'a>) -> (r: Vec<SelectEntry<'a>>)
        requires
            forall|k: int|
                0 <= k < self@.entries.len() ==> (#[trigger] self@.entries[k]).source_index < ctx.entries_of().len()
                    && self@.entries[k].entry_index < ctx.entries_of()[self@.entries[k].source_index as int].len(),
        ensures
            r@.len() == self@.entries.len(),
            forall|k: int|
                0 <= k < r@.len() ==> #[trigger] r@[k] == ctx.entries_of()[self@.entries[k].source_index as int][self@.entries[k].entry_index as int],
    {
        let mut r: Vec<SelectEntry<'a>> = Vec::new();
        let mut k: usize = 0;
        while k < self.entries.len()
            invariant
                k <= self.entries.len(),
                r@.len() == k,
                forall|j: int|
                    0 <= j < self@.entries.len() ==> (#[trigger] self@.entries[j]).source_index < ctx.entries_of().len()
                        && self@.entries[j].entry_index < ctx.entries_of()[self@.entries[j].source_index as int].len(),
                forall|j: int|
                    0 <= j < k ==> #[trigger] r@[j] == ctx.entries_of()[self@.entries[j].source_index as int][self@.entries[j].entry_index as int],
            decreases self.entries.len() - k,
        {
            let entry = self.entries[k];
            assert(self@.entries[k as int] == entry);
            r.push(ctx.sources[entry.source_index][entry.entry_index]);
            k = k + 1;
        }
        r
    }
}

/// Where the cursor of `len` entries goes from `cursor` after moving by
/// `offset`: past the end from the last entry it wraps to the first, and
/// the other way; otherwise it stops at the ends.
pub open spec fn moved_cursor(len: int, cursor: int, offset: int) -> int {
    if len == 0 {
        cursor
    } else if offset > 0 {
        let (c, o) = if cursor == len - 1 {
            (0, offset - 1)
        } else {
            (cursor, offset)
        };
        if o < len - 1 - c {
            c + o
        } else {
            len - 1
        }
    } else if offset < 0 {
        let (c, o) = if cursor == 0 {
            (len - 1, -offset - 1)
        } else {
            (cursor, -offset)
        };
        if o < c {
            c - o
        } else {
            0
        }
    } else {
        cursor
    }
}

} // verus!
