//! Words seen in the open buffers, kept in a hash table for completion.

use std::hash::{Hash, Hasher};
use vstd::prelude::*;
use crate::text::{split_at_char, str_to_chars, char_len_utf8, lemma_byte_len_take_next, lemma_byte_len_take_mono, byte_len, str_byte_len, is_alnum};

verus! {

/// The class a char belongs to when words are split.
#[derive(Debug, Clone, Copy, PartialEq, Eq, Structural)]
pub enum CharKind {
    Word,
    Symbol,
    Whitespace,
}

/// Whether `c` is alphabetic or numeric in the Unicode sense (`char::is_alphanumeric`).
pub uninterp spec fn unicode_alphanumeric(c: char) -> bool;

/// Whether `c` has the Unicode `White_Space` property (`char::is_whitespace`).
pub uninterp spec fn unicode_whitespace(c: char) -> bool;

/// `char::is_alphanumeric`: whether `c` is alphabetic or numeric in the
/// Unicode sense; among ASCII chars that is exactly the letters and digits.
#[verifier::external_body]
fn char_is_alphanumeric(c: char) -> (r: bool)
    ensures
        r == unicode_alphanumeric(c),
        (c as u32) < 0x80 ==> (r <==> is_alnum(c)),
{
    c.is_alphanumeric()
}

/// `char::is_whitespace`: whether `c` has the Unicode `White_Space`
/// property; among ASCII chars that is exactly tab, line feed, vertical
/// tab, form feed, carriage return and space.
#[verifier::external_body]
fn char_is_whitespace(c: char) -> (r: bool)
    ensures
        r == unicode_whitespace(c),
        (c as u32) < 0x80 ==> (r <==> (9 <= (c as u32) <= 13 || c == ' ')),
{
    c.is_whitespace()
}

/// The kind of `c`: `_` and alphanumerics form words, whitespace is
/// whitespace, and everything else is a symbol.
pub open spec fn char_kind(c: char) -> CharKind {
    if c == '_' || unicode_alphanumeric(c) {
        CharKind::Word
    } else if unicode_whitespace(c) {
        CharKind::Whitespace
    } else {
        CharKind::Symbol
    }
}

pub open spec fn is_word_char(c: char) -> bool {
    char_kind(c) == CharKind::Word
}

impl CharKind {
    pub fn new(c: char) -> (r: Self)
        ensures
            r == char_kind(c),
    {
        if c == '_' || char_is_alphanumeric(c) {
            Self::Word
        } else if char_is_whitespace(c) {
            Self::Whitespace
        } else {
            Self::Symbol
        }
    }
}

fn is_word(c: char) -> (r: bool)
    ensures
        r == is_word_char(c),
{
    match CharKind::new(c) {
        CharKind::Word => true,
        _ => false,
    }
}

/// The next word of `s` lies at chars `a..b`: the first maximal run of word chars.
pub open spec fn next_word_at(s: Seq<char>, a: int, b: int) -> bool {
    &&& 0 <= a < b <= s.len()
    &&& forall|i: int| 0 <= i < a ==> !is_word_char(#[trigger] s[i])
    &&& forall|i: int| a <= i < b ==> is_word_char(#[trigger] s[i])
    &&& (b == s.len() || !is_word_char(s[b]))
}

/// Splits a text into its words.
pub struct WordIter<'a>(pub &'a str);

impl<'a> WordIter<'a> {
    pub fn new(text: &'a str) -> (r: Self)
        ensures
            r.0 == text,
    {
        Self(text)
    }

    /// The next word; the iterator moves past it.
    pub fn next(&mut self) -> (r: Option<&'a str>)
        ensures
            r is None <==> forall|i: int| 0 <= i < old(self).0@.len() ==> !is_word_char(#[trigger] old(self).0@[i]),
            r is None ==> final(self).0@ == old(self).0@,
            r is Some ==> exists|a: int, b: int| #![trigger next_word_at(old(self).0@, a, b)]
                next_word_at(old(self).0@, a, b)
                && r.unwrap()@ == old(self).0@.subrange(a, b)
                && final(self).0@ == old(self).0@.skip(b),
    {
        let text = self.0;
        let chars = str_to_chars(text);
        let n = chars.len();
        let _total = str_byte_len(text);
        let mut a: usize = 0;
        let mut a_bytes: usize = 0;
        proof {
            assert(chars@.take(0) =~= Seq::<char>::empty());
            assert(chars@.take(n as int) =~= chars@);
        }
        while a < n && !is_word(chars[a])
            invariant
                n == chars.len(),
                chars@ == text@,
                a <= n,
                a_bytes == byte_len(chars@.take(a as int)),
                byte_len(chars@.take(n as int)) <= usize::MAX,
                forall|i: int| 0 <= i < a ==> !is_word_char(#[trigger] chars@[i]),
            decreases n - a,
        {
            proof {
                lemma_byte_len_take_next(chars@, a as int);
                lemma_byte_len_take_mono(chars@, a + 1, n as int);
            }
            a_bytes = a_bytes + char_len_utf8(chars[a]);
            a = a + 1;
        }
        if a == n {
            return None;
        }
        let mut b: usize = a;
        let mut b_bytes: usize = a_bytes;
        while b < n && is_word(chars[b])
            invariant
                n == chars.len(),
                chars@ == text@,
                a <= b <= n,
                b_bytes == byte_len(chars@.take(b as int)),
                byte_len(chars@.take(n as int)) <= usize::MAX,
                forall|i: int| a <= i < b ==> is_word_char(#[trigger] chars@[i]),
            decreases n - b,
        {
            proof {
                lemma_byte_len_take_next(chars@, b as int);
                lemma_byte_len_take_mono(chars@, b + 1, n as int);
            }
            b_bytes = b_bytes + char_len_utf8(chars[b]);
            b = b + 1;
        }
        let (_, from_a) = split_at_char(text, a, a_bytes);
        proof {
            assert(from_a@.take((b - a) as int) =~= chars@.subrange(a as int, b as int));
            lemma_byte_len_sub(chars@, a as int, b as int);
        }
        let (word, rest) = split_at_char(from_a, b - a, b_bytes - a_bytes);
        self.0 = rest;
        proof {
            assert(rest@ =~= text@.skip(b as int));
            assert(next_word_at(text@, a as int, b as int));
        }
        Some(word)
    }
}

/// The bytes of chars `a..b` are the bytes of the first `b` chars minus those of the first `a`.
proof fn lemma_byte_len_sub(s: Seq<char>, a: int, b: int)
    requires
        0 <= a <= b <= s.len(),
    ensures
        byte_len(s.skip(a).take(b - a)) == byte_len(s.take(b)) - byte_len(s.take(a)),
{
    crate::text::lemma_encode_concat(s.take(a), s.subrange(a, b));
    assert(s.take(a) + s.subrange(a, b) =~= s.take(b));
    assert(s.skip(a).take(b - a) =~= s.subrange(a, b));
}


/// The hash of a word that picks its bucket (what `DefaultHasher` computes for the `str`).
pub uninterp spec fn word_hash(word: Seq<char>) -> u64;

/// Hashes a word with a freshly made `std::collections::hash_map::DefaultHasher`
/// (`str::hash`, then `Hasher::finish`). Every hasher that `DefaultHasher::new`
/// makes starts from the same fixed keys, so the result is a function of the
/// word; what that function is (the algorithm) is left unsaid.
#[verifier::external_body]
fn hash_word(word: &str) -> (h: u64)
    ensures
        h == word_hash(word@),
{
    let mut hasher = std::collections::hash_map::DefaultHasher::new();
    word.hash(&mut hasher);
    hasher.finish()
}

/// One bucket: the text of its word and how many times it was added.
pub type Bucket = (Seq<char>, usize);

/// Number of buckets holding a word.
pub open spec fn live(t: Seq<Bucket>) -> nat
    decreases t.len(),
{
    if t.len() == 0 {
        0
    } else {
        live(t.drop_last()) + if t.last().1 > 0 {
            1nat
        } else {
            0nat
        }
    }
}

/// The bucket of `w` in a table of `n` buckets.
pub open spec fn bucket_of(w: Seq<char>, n: int) -> int {
    (word_hash(w) as usize) as int % n
}

/// Adds one occurrence of `w` to its bucket.
pub open spec fn insert_word(t: Seq<Bucket>, w: Seq<char>) -> Seq<Bucket> {
    let b = bucket_of(w, t.len() as int);
    if t[b].1 == 0 {
        t.update(b, (w, 1usize))
    } else {
        t.update(b, (t[b].0, (t[b].1 + 1) as usize))
    }
}

/// Removes one occurrence from the bucket of `w`.
pub open spec fn remove_word_spec(t: Seq<Bucket>, w: Seq<char>) -> Seq<Bucket> {
    let b = bucket_of(w, t.len() as int);
    if t[b].1 > 0 {
        t.update(b, (t[b].0, (t[b].1 - 1) as usize))
    } else {
        t
    }
}

pub open spec fn empty_table(n: nat) -> Seq<Bucket> {
    Seq::new(n, |i: int| (Seq::<char>::empty(), 0usize))
}

/// The words of `t` added once each, in order, to an empty table of `n` buckets.
pub open spec fn rehash(t: Seq<Bucket>, n: nat) -> Seq<Bucket>
    decreases t.len(),
{
    if t.len() == 0 {
        empty_table(n)
    } else {
        let acc = rehash(t.drop_last(), n);
        if t.last().1 > 0 {
            insert_word(acc, t.last().0)
        } else {
            acc
        }
    }
}

/// The table grows when 70% of its buckets hold a word.
pub open spec fn needs_growth(t: Seq<Bucket>) -> bool {
    live(t) * 100 >= t.len() * 70
}

/// Number of buckets after a growth.
pub open spec fn grown_len(n: nat) -> nat {
    if n <= usize::MAX / 2 {
        2 * n
    } else {
        n
    }
}

/// The table after adding `w`.
pub open spec fn add_word_spec(t: Seq<Bucket>, w: Seq<char>) -> Seq<Bucket> {
    insert_word(
        if needs_growth(t) {
            rehash(t, grown_len(t.len()))
        } else {
            t
        },
        w,
    )
}

/// Each bucket in use holds a word whose bucket it is.
pub open spec fn placed(t: Seq<Bucket>) -> bool {
    forall|i: int| 0 <= i < t.len() && (#[trigger] t[i]).1 > 0 ==> bucket_of(t[i].0, t.len() as int) == i
}

/// A word's bucket in a table whose size is a multiple of `m` lies, modulo
/// `m`, at its bucket in a table of `m` buckets.
proof fn lemma_bucket_refines(w: Seq<char>, m: int, n: int)
    requires
        m > 0,
        n > 0,
        (n as int) % m == 0,
    ensures
        0 <= bucket_of(w, n) < n,
        bucket_of(w, n) % m == bucket_of(w, m),
{
    let h = (word_hash(w) as usize) as int;
    let k = n / m;
    vstd::arithmetic::div_mod::lemma_fundamental_div_mod(n, m);
    assert(n == m * k);
    assert(k > 0) by (nonlinear_arith)
        requires
            n == m * k,
            n > 0,
            m > 0,
    ;
    vstd::arithmetic::div_mod::lemma_mod_mod(h, m, k);
}

/// Adding a word keeps each word in its own bucket.
pub proof fn lemma_insert_placed(t: Seq<Bucket>, w: Seq<char>)
    requires
        t.len() > 0,
        placed(t),
    ensures
        placed(insert_word(t, w)),
        insert_word(t, w).len() == t.len(),
{
    let b = bucket_of(w, t.len() as int);
    let u = insert_word(t, w);
    assert forall|i: int| 0 <= i < u.len() && (#[trigger] u[i]).1 > 0 implies bucket_of(u[i].0, u.len() as int) == i by {
        if i != b {
            assert(u[i] == t[i]);
        }
    }
}

/// Removing a word keeps each word in its own bucket.
pub proof fn lemma_remove_placed(t: Seq<Bucket>, w: Seq<char>)
    requires
        t.len() > 0,
        placed(t),
    ensures
        placed(remove_word_spec(t, w)),
        remove_word_spec(t, w).len() == t.len(),
{
    let b = bucket_of(w, t.len() as int);
    let u = remove_word_spec(t, w);
    assert forall|i: int| 0 <= i < u.len() && (#[trigger] u[i]).1 > 0 implies bucket_of(u[i].0, u.len() as int) == i by {
        assert(u[i].0 == t[i].0 && (u[i].1 > 0 ==> t[i].1 > 0));
    }
}

/// Re-adding the words of `s`, each of which sits at its bucket modulo `m`,
/// into a fresh table of `n` buckets (a multiple of `m`): each word lands,
/// once, in a bucket of its own, every bucket in use holds one of them, and
/// the number of buckets in use is unchanged.
proof fn lemma_rehash_keeps(s: Seq<Bucket>, m: int, n: nat)
    requires
        m > 0,
        n > 0,
        (n as int) % m == 0,
        forall|i: int| 0 <= i < s.len() && (#[trigger] s[i]).1 > 0 ==> bucket_of(s[i].0, m) == i,
    ensures
        rehash(s, n).len() == n,
        placed(rehash(s, n)),
        live(rehash(s, n)) == live(s),
        forall|i: int| 0 <= i < s.len() && (#[trigger] s[i]).1 > 0 ==> rehash(s, n)[bucket_of(s[i].0, n as int)] == (s[i].0, 1usize),
        forall|j: int| 0 <= j < n && (#[trigger] rehash(s, n)[j]).1 > 0 ==> j % m < s.len() && s[j % m].1 > 0
            && rehash(s, n)[j].0 == s[j % m].0,
    decreases s.len(),
{
    if s.len() == 0 {
        lemma_live_empty(n);
    } else {
        let s1 = s.drop_last();
        let k = s.len() - 1;
        let a = rehash(s1, n);
        assert forall|i: int| 0 <= i < s1.len() && (#[trigger] s1[i]).1 > 0 implies bucket_of(s1[i].0, m) == i by {
            assert(s1[i] == s[i]);
        }
        lemma_rehash_keeps(s1, m, n);
        if s[k].1 > 0 {
            let w = s[k].0;
            let b = bucket_of(w, n as int);
            lemma_bucket_refines(w, m, n as int);
            if a[b].1 > 0 {
                assert(s1[b % m].1 > 0);
                assert(b % m < k);
                assert(false);
            }
            let r = rehash(s, n);
            assert(r == a.update(b, (w, 1usize)));
            lemma_live_update(a, b, (w, 1usize));
            assert forall|i: int| 0 <= i < s.len() && (#[trigger] s[i]).1 > 0 implies r[bucket_of(s[i].0, n as int)] == (s[i].0, 1usize) by {
                if i < k {
                    assert(s1[i] == s[i]);
                    lemma_bucket_refines(s[i].0, m, n as int);
                }
            }
            assert forall|j: int| 0 <= j < n && (#[trigger] r[j]).1 > 0 implies j % m < s.len() && s[j % m].1 > 0
                && r[j].0 == s[j % m].0 by {
                if j != b {
                    assert(r[j] == a[j]);
                    assert(s1[j % m] == s[j % m]);
                }
            }
            assert forall|j: int| 0 <= j < r.len() && (#[trigger] r[j]).1 > 0 implies bucket_of(r[j].0, r.len() as int) == j by {
                if j != b {
                    assert(r[j] == a[j]);
                }
            }
        } else {
            assert(rehash(s, n) == a);
            assert forall|i: int| 0 <= i < s.len() && (#[trigger] s[i]).1 > 0 implies a[bucket_of(s[i].0, n as int)] == (s[i].0, 1usize) by {
                assert(s1[i] == s[i]);
            }
            assert forall|j: int| 0 <= j < n && (#[trigger] a[j]).1 > 0 implies j % m < s.len() && s[j % m].1 > 0
                && a[j].0 == s[j % m].0 by {
                assert(s1[j % m] == s[j % m]);
            }
        }
    }
}

/// Adding a word keeps every word the table held: when each word sits in its
/// own bucket (as in every database), after `add_word_spec` each word that was
/// in use is still in use, with the same text, in its bucket of the new
/// table; the added word's bucket is in use; no word is lost, so the number
/// of buckets in use does not go down; and each word still sits in its own
/// bucket. When the table grows, it grows to `grown_len` buckets and holds
/// each earlier word once.
pub proof fn lemma_add_word_keeps_words(t: Seq<Bucket>, w: Seq<char>)
    requires
        t.len() > 0,
        placed(t),
        forall|i: int| 0 <= i < t.len() ==> (#[trigger] t[i]).1 < usize::MAX,
    ensures
        ({
            let u = add_word_spec(t, w);
            &&& u.len() == if needs_growth(t) { grown_len(t.len()) } else { t.len() }
            &&& placed(u)
            &&& forall|i: int| 0 <= i < t.len() && (#[trigger] t[i]).1 > 0 ==> u[bucket_of(t[i].0, u.len() as int)].0 == t[i].0
                && u[bucket_of(t[i].0, u.len() as int)].1 > 0
            &&& u[bucket_of(w, u.len() as int)].1 > 0
            &&& live(u) >= live(t)
            &&& needs_growth(t) ==> forall|i: int| 0 <= i < t.len() && (#[trigger] t[i]).1 > 0 && bucket_of(t[i].0, u.len() as int)
                != bucket_of(w, u.len() as int) ==> u[bucket_of(t[i].0, u.len() as int)].1 == 1
        }),
{
    let n = if needs_growth(t) { grown_len(t.len()) } else { t.len() };
    let a = if needs_growth(t) { rehash(t, grown_len(t.len())) } else { t };
    if needs_growth(t) {
        assert((n as int) % (t.len() as int) == 0) by {
            if t.len() <= usize::MAX / 2 {
                vstd::arithmetic::div_mod::lemma_mod_multiples_basic(2, t.len() as int);
            } else {
                vstd::arithmetic::div_mod::lemma_mod_self_0(t.len() as int);
            }
        }
        lemma_rehash_keeps(t, t.len() as int, n);
        assert forall|i: int| 0 <= i < t.len() && (#[trigger] t[i]).1 > 0 implies a[bucket_of(t[i].0, n as int)].0 == t[i].0
            && a[bucket_of(t[i].0, n as int)].1 > 0 by {
            assert(a[bucket_of(t[i].0, n as int)] == (t[i].0, 1usize));
        }
    }
    lemma_live_bound(a);
    let b = bucket_of(w, n as int);
    let u = add_word_spec(t, w);
    assert(u == insert_word(a, w));
    let entry = if a[b].1 == 0 { (w, 1usize) } else { (a[b].0, (a[b].1 + 1) as usize) };
    assert(u == a.update(b, entry));
    lemma_live_update(a, b, entry);
    lemma_insert_placed(a, w);
    assert forall|i: int| 0 <= i < t.len() && (#[trigger] t[i]).1 > 0 implies u[bucket_of(t[i].0, u.len() as int)].0 == t[i].0
        && u[bucket_of(t[i].0, u.len() as int)].1 > 0 by {
        let bi = bucket_of(t[i].0, n as int);
        if !needs_growth(t) {
            assert(bi == i);
        }
        assert(a[bi].0 == t[i].0 && a[bi].1 > 0);
    }
}

/// Changing one bucket changes the number of live buckets by at most one.
pub proof fn lemma_live_update(t: Seq<Bucket>, i: int, e: Bucket)
    requires
        0 <= i < t.len(),
    ensures
        live(t.update(i, e)) == live(t) - (if t[i].1 > 0 { 1int } else { 0int }) + (if e.1 > 0 {
            1int
        } else {
            0int
        }),
        live(t) <= t.len(),
    decreases t.len(),
{
    let u = t.update(i, e);
    if i == t.len() - 1 {
        assert(u.drop_last() =~= t.drop_last());
        lemma_live_bound(t.drop_last());
    } else {
        assert(u.drop_last() =~= t.drop_last().update(i, e));
        lemma_live_update(t.drop_last(), i, e);
    }
}

pub proof fn lemma_live_bound(t: Seq<Bucket>)
    ensures
        live(t) <= t.len(),
    decreases t.len(),
{
    if t.len() > 0 {
        lemma_live_bound(t.drop_last());
    }
}

pub proof fn lemma_live_empty(n: nat)
    ensures
        live(empty_table(n)) == 0,
    decreases n,
{
    if n > 0 {
        assert(empty_table(n).drop_last() =~= empty_table((n - 1) as nat));
        lemma_live_empty((n - 1) as nat);
    }
}

struct Word {
    text: String,
    count: usize,
}

/// Every distinct word of the open buffers with the number of times it occurs.
pub struct WordDatabase {
    len: usize,
    words: Vec<Word>,
}

/// Buckets of a fresh database.
pub const INITIAL_BUCKETS: usize = 4096;

impl WordDatabase {
    /// The buckets: text and count of each.
    pub closed spec fn table(&self) -> Seq<Bucket> {
        self.words@.map_values(|w: Word| (w.text@, w.count))
    }

    /// The number of distinct words is the number of buckets in use, and
    /// each word sits in its own bucket.
    pub closed spec fn wf(&self) -> bool {
        &&& self.len == live(self.table())
        &&& placed(self.table())
    }

    /// In a database, each word sits in its own bucket.
    pub proof fn lemma_wf_placed(&self)
        requires
            self.wf(),
        ensures
            placed(self.table()),
    {
    }

    /// No count is about to overflow, so a word can be added.
    pub open spec fn can_add(&self) -> bool {
        &&& 0 < self.table().len() < usize::MAX
        &&& forall|i: int| 0 <= i < self.table().len() ==> (#[trigger] self.table()[i]).1 < usize::MAX
    }

    /// A database with no buckets at all.
    pub fn empty() -> (r: Self)
        ensures
            r.wf(),
            r.table().len() == 0,
    {
        let r = Self { len: 0, words: Vec::new() };
        assert(r.table() =~= Seq::<Bucket>::empty());
        r
    }

    pub fn new() -> (r: Self)
        ensures
            r.wf(),
            r.table() == empty_table(INITIAL_BUCKETS as nat),
    {
        let r = Self { len: 0, words: Self::fresh_words(INITIAL_BUCKETS) };
        proof { lemma_live_empty(INITIAL_BUCKETS as nat); }
        r
    }

    fn fresh_words(n: usize) -> (r: Vec<Word>)
        ensures
            r@.map_values(|w: Word| (w.text@, w.count)) == empty_table(n as nat),
    {
        let mut words: Vec<Word> = Vec::new();
        let mut i: usize = 0;
        while i < n
            invariant
                i <= n,
                words.len() == i,
                forall|j: int| 0 <= j < i ==> (#[trigger] words@[j]).text@ == Seq::<char>::empty() && words@[j].count == 0,
            decreases n - i,
        {
            let w = Word { text: String::new(), count: 0 };
            words.push(w);
            i = i + 1;
        }
        assert(words@.map_values(|w: Word| (w.text@, w.count)) =~= empty_table(n as nat));
        words
    }

    /// Number of distinct words.
    pub fn len(&self) -> (r: usize)
        requires
            self.wf(),
        ensures
            r == live(self.table()),
    {
        self.len
    }

    /// Adds one occurrence of `word`, in its bucket of `bucket`.
    fn insert(&mut self, word: &str)
        requires
            old(self).wf(),
            old(self).table().len() > 0,
            old(self).table()[bucket_of(word@, old(self).table().len() as int)].1 < usize::MAX,
        ensures
            final(self).wf(),
            final(self).table() == insert_word(old(self).table(), word@),
    {
        let ghost t = self.table();
        let h = hash_word(word);
        let b = (h as usize) % self.words.len();
        let count = self.words[b].count;
        proof {
            lemma_live_bound(t);
            lemma_insert_placed(t, word@);
        }
        if count == 0 {
            proof {
                lemma_live_update(t, b as int, (word@, 1usize));
                lemma_live_bound(t.update(b as int, (word@, 1usize)));
            }
            self.words.set(b, Word { text: word.to_string(), count: 1 });
            self.len = self.len + 1;
        } else {
            proof {
                lemma_live_update(t, b as int, (t[b as int].0, (count + 1) as usize));
            }
            let text = self.words[b].text.clone();
            self.words.set(b, Word { text, count: count + 1 });
        }
        assert(self.table() =~= insert_word(t, word@));
    }

    /// Adds one occurrence of `word`. When 70% of the buckets are in use the
    /// table first doubles, keeping each word once.
    pub fn add_word(&mut self, word: &str)
        requires
            old(self).wf(),
            old(self).can_add(),
        ensures
            final(self).wf(),
            final(self).table() == add_word_spec(old(self).table(), word@),
            forall|i: int| 0 <= i < old(self).table().len() && (#[trigger] old(self).table()[i]).1 > 0
                ==> final(self).table()[bucket_of(old(self).table()[i].0, final(self).table().len() as int)].0
                    == old(self).table()[i].0
                && final(self).table()[bucket_of(old(self).table()[i].0, final(self).table().len() as int)].1 > 0,
            final(self).table()[bucket_of(word@, final(self).table().len() as int)].1 > 0,
            live(final(self).table()) >= live(old(self).table()),
    {
        let ghost t = self.table();
        proof {
            lemma_add_word_keeps_words(t, word@);
        }
        if (self.len as u128) * 100 >= (self.words.len() as u128) * 70 {
            let n = if self.words.len() <= usize::MAX / 2 {
                self.words.len() * 2
            } else {
                self.words.len()
            };
            let mut words = Self::fresh_words(n);
            std::mem::swap(&mut words, &mut self.words);
            self.len = 0;
            proof { lemma_live_empty(n as nat); }
            let mut i: usize = 0;
            while i < words.len()
                invariant
                    self.wf(),
                    n > 0,
                    i <= words.len(),
                    t == words@.map_values(|w: Word| (w.text@, w.count)),
                    self.table() == rehash(t.take(i as int), n as nat),
                    self.table().len() == n,
                    forall|j: int| 0 <= j < n ==> (#[trigger] self.table()[j]).1 <= i,
                decreases words.len() - i,
            {
                proof {
                    assert(t.take(i + 1).drop_last() =~= t.take(i as int));
                }
                if words[i].count > 0 {
                    self.insert(words[i].text.as_str());
                }
                i = i + 1;
            }
            assert(t.take(words.len() as int) =~= t);
        }
        proof {
            let tb = self.table();
            let b = bucket_of(word@, tb.len() as int);
            assert(0 <= b < tb.len());
        }
        self.insert(word);
    }

    /// Removes one occurrence of `word` from its bucket.
    pub fn remove_word(&mut self, word: &str)
        requires
            old(self).wf(),
            old(self).table().len() > 0,
        ensures
            final(self).wf(),
            final(self).table() == remove_word_spec(old(self).table(), word@),
    {
        let ghost t = self.table();
        let h = hash_word(word);
        let b = (h as usize) % self.words.len();
        let count = self.words[b].count;
        proof {
            lemma_remove_placed(t, word@);
        }
        if count > 0 {
            proof {
                lemma_live_update(t, b as int, (t[b as int].0, (count - 1) as usize));
            }
            let text = self.words[b].text.clone();
            self.words.set(b, Word { text, count: count - 1 });
            if count == 1 {
                self.len = self.len - 1;
            }
        }
        assert(self.table() =~= remove_word_spec(t, word@));
    }

    /// The text of bucket `index`.
    pub fn word_at(&self, index: usize) -> (r: &str)
        requires
            index < self.table().len(),
        ensures
            r@ == self.table()[index as int].0,
    {
        self.words[index].text.as_str()
    }

    /// The buckets in use, in order, with their index.
    pub fn word_indices(&self) -> (r: Vec<(usize, &str)>)
        ensures
            r@.len() == live_entries(self.table()).len(),
            forall|k: int| 0 <= k < r@.len() ==> (#[trigger] r@[k]).0 == live_entries(self.table())[k].0
                && r@[k].1@ == live_entries(self.table())[k].1,
    {
        let mut r: Vec<(usize, &str)> = Vec::new();
        let mut i: usize = 0;
        let ghost t = self.table();
        while i < self.words.len()
            invariant
                i <= self.words.len(),
                t == self.table(),
                t.len() == self.words.len(),
                r@.len() == live_entries(t.take(i as int)).len(),
                forall|k: int| 0 <= k < r@.len() ==> (#[trigger] r@[k]).0 == live_entries(t.take(i as int))[k].0
                    && r@[k].1@ == live_entries(t.take(i as int))[k].1,
            decreases self.words.len() - i,
        {
            proof {
                assert(t.take(i + 1).drop_last() =~= t.take(i as int));
            }
            if self.words[i].count > 0 {
                r.push((i, self.words[i].text.as_str()));
            }
            i = i + 1;
        }
        assert(t.take(i as int) =~= t);
        r
    }
}

/// Index and text of each bucket in use, in order.
pub open spec fn live_entries(t: Seq<Bucket>) -> Seq<(usize, Seq<char>)>
    decreases t.len(),
{
    if t.len() == 0 {
        Seq::empty()
    } else {
        let rest = live_entries(t.drop_last());
        if t.last().1 > 0 {
            rest.push(((t.len() - 1) as usize, t.last().0))
        } else {
            rest
        }
    }
}

/// Buckets in use are listed by their index in the table.
pub proof fn lemma_live_entries_bound(t: Seq<Bucket>)
    ensures
        forall|k: int| 0 <= k < live_entries(t).len() ==> (#[trigger] live_entries(t)[k]).0 < t.len(),
        live_entries(t).len() <= t.len(),
    decreases t.len(),
{
    if t.len() > 0 {
        lemma_live_entries_bound(t.drop_last());
    }
}

/// Adding a word and then removing it leaves every bucket's count, and so
/// the number of distinct words, as it was, when the table does not grow in
/// between.
pub proof fn lemma_add_then_remove(t: Seq<Bucket>, w: Seq<char>)
    requires
        t.len() > 0,
        !needs_growth(t),
        t[bucket_of(w, t.len() as int)].1 < usize::MAX,
    ensures
        remove_word_spec(add_word_spec(t, w), w).len() == t.len(),
        forall|i: int| 0 <= i < t.len() ==> (#[trigger] remove_word_spec(add_word_spec(t, w), w)[i]).1 == t[i].1,
        live(remove_word_spec(add_word_spec(t, w), w)) == live(t),
{
    let b = bucket_of(w, t.len() as int);
    let added = add_word_spec(t, w);
    assert(added == insert_word(t, w));
    let entry = if t[b].1 == 0 {
        (w, 1usize)
    } else {
        (t[b].0, (t[b].1 + 1) as usize)
    };
    assert(added == t.update(b, entry));
    lemma_live_update(t, b, entry);
    let removed = remove_word_spec(added, w);
    assert(removed == added.update(b, (added[b].0, (added[b].1 - 1) as usize)));
    lemma_live_update(added, b, (added[b].0, (added[b].1 - 1) as usize));
}

} // verus!
