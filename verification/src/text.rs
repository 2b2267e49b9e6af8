//! Character level helpers shared by the other modules: UTF-8 widths and
//! encoding of single chars, ASCII classification, and turning a `&str`
//! into its sequence of chars.

use vstd::prelude::*;
use vstd::utf8::*;

verus! {

broadcast use vstd::utf8::char_is_scalar;

/// The UTF-8 encoding of a single char.
pub open spec fn char_bytes(c: char) -> Seq<u8> {
    encode_scalar(c as u32)
}

/// Number of bytes of the UTF-8 encoding of a char sequence.
pub open spec fn byte_len(s: Seq<char>) -> nat {
    encode_utf8(s).len()
}

/// The encoding of a concatenation is the concatenation of the encodings.
pub proof fn lemma_encode_concat(a: Seq<char>, b: Seq<char>)
    ensures
        encode_utf8(a + b) == encode_utf8(a) + encode_utf8(b),
    decreases a.len(),
{
    if a.len() == 0 {
        assert(a + b =~= b);
        assert(encode_utf8(a) =~= Seq::<u8>::empty());
        assert(encode_utf8(a) + encode_utf8(b) =~= encode_utf8(b));
    } else {
        lemma_encode_concat(a.drop_first(), b);
        assert((a + b).drop_first() =~= a.drop_first() + b);
        assert((a + b)[0] == a[0]);
        assert(encode_utf8(a + b) =~= encode_scalar(a[0] as u32) + encode_utf8(
            a.drop_first() + b,
        ));
        assert(encode_utf8(a) + encode_utf8(b) =~= encode_scalar(a[0] as u32) + (encode_utf8(
            a.drop_first(),
        ) + encode_utf8(b)));
    }
}

/// The encoding of one more char is the encoding so far, then that char's bytes.
pub proof fn lemma_encode_push(s: Seq<char>, c: char)
    ensures
        encode_utf8(s.push(c)) == encode_utf8(s) + char_bytes(c),
{
    lemma_encode_concat(s, seq![c]);
    assert(s.push(c) =~= s + seq![c]);
    assert(seq![c].drop_first() =~= Seq::<char>::empty());
    assert(encode_utf8(seq![c]) =~= encode_scalar(c as u32) + encode_utf8(Seq::<char>::empty()));
    assert(encode_utf8(seq![c]) =~= char_bytes(c));
}

/// Byte length of one more char.
pub proof fn lemma_byte_len_push(s: Seq<char>, c: char)
    ensures
        byte_len(s.push(c)) == byte_len(s) + char_bytes(c).len(),
{
    lemma_encode_concat(s, seq![c]);
    assert(s.push(c) =~= s + seq![c]);
    assert(seq![c].drop_first() =~= Seq::<char>::empty());
    assert(encode_utf8(seq![c]) =~= encode_scalar(c as u32) + encode_utf8(Seq::<char>::empty()));
}

/// Byte length of a prefix one char longer.
pub proof fn lemma_byte_len_take_next(s: Seq<char>, k: int)
    requires
        0 <= k < s.len(),
    ensures
        byte_len(s.take(k + 1)) == byte_len(s.take(k)) + char_bytes(s[k]).len(),
{
    assert(s.take(k + 1) =~= s.take(k).push(s[k]));
    lemma_byte_len_push(s.take(k), s[k]);
}

/// Byte length is monotone over prefixes.
pub proof fn lemma_byte_len_take_mono(s: Seq<char>, j: int, k: int)
    requires
        0 <= j <= k <= s.len(),
    ensures
        byte_len(s.take(j)) <= byte_len(s.take(k)),
    decreases k - j,
{
    if j < k {
        lemma_byte_len_take_mono(s, j, k - 1);
        lemma_byte_len_take_next(s, k - 1);
    }
}

/// Number of bytes of the UTF-8 encoding of `c` (what `char::len_utf8` returns).
pub fn char_len_utf8(c: char) -> (n: usize)
    ensures
        n == char_bytes(c).len(),
        1 <= n <= 4,
{
    let v = c as u32;
    if v <= 0x7f {
        1
    } else if v <= 0x7ff {
        2
    } else if v <= 0xffff {
        3
    } else {
        4
    }
}

/// The UTF-8 encoding of `c`: the first `len` bytes of the array.
pub fn encode_char(c: char) -> (r: ([u8; 4], usize))
    ensures
        r.1 == char_bytes(c).len(),
        1 <= r.1 <= 4,
        r.0@.take(r.1 as int) == char_bytes(c),
{
    let v = c as u32;
    let mut b: [u8; 4] = [0u8; 4];
    if v <= 0x7f {
        b[0] = #[verifier::truncate] ((v & 0x7F) as u8);
        assert(b@.take(1) =~= char_bytes(c));
        (b, 1)
    } else if v <= 0x7ff {
        b[0] = 0xC0 | #[verifier::truncate] (((v >> 6) & 0x1F) as u8);
        b[1] = 0x80 | #[verifier::truncate] ((v & 0x3F) as u8);
        assert(b@.take(2) =~= char_bytes(c));
        (b, 2)
    } else if v <= 0xffff {
        b[0] = 0xE0 | #[verifier::truncate] (((v >> 12) & 0x0F) as u8);
        b[1] = 0x80 | #[verifier::truncate] (((v >> 6) & 0x3F) as u8);
        b[2] = 0x80 | #[verifier::truncate] ((v & 0x3F) as u8);
        assert(b@.take(3) =~= char_bytes(c));
        (b, 3)
    } else {
        b[0] = 0xF0 | #[verifier::truncate] (((v >> 18) & 0x7) as u8);
        b[1] = 0x80 | #[verifier::truncate] (((v >> 12) & 0x3F) as u8);
        b[2] = 0x80 | #[verifier::truncate] (((v >> 6) & 0x3F) as u8);
        b[3] = 0x80 | #[verifier::truncate] ((v & 0x3F) as u8);
        assert(b@.take(4) =~= char_bytes(c));
        (b, 4)
    }
}

/// The chars of a string, in order.
pub fn str_to_chars(s: &str) -> (v: Vec<char>)
    ensures
        v@ == s@,
{
    let mut v: Vec<char> = Vec::new();
    for c in it: s.chars()
        invariant
            it.seq() == s@,
            v@ == it.seq().take(it.index() as int),
    {
        v.push(c);
    }
    v
}


/// `char::is_ascii_alphabetic`.
pub open spec fn is_alpha(c: char) -> bool {
    ('a' <= c && c <= 'z') || ('A' <= c && c <= 'Z')
}

/// `char::is_ascii_lowercase`.
pub open spec fn is_lower(c: char) -> bool {
    'a' <= c && c <= 'z'
}

/// `char::is_ascii_uppercase`.
pub open spec fn is_upper(c: char) -> bool {
    'A' <= c && c <= 'Z'
}

/// `char::is_ascii_digit`.
pub open spec fn is_digit(c: char) -> bool {
    '0' <= c && c <= '9'
}

/// `char::is_ascii_alphanumeric`.
pub open spec fn is_alnum(c: char) -> bool {
    is_alpha(c) || is_digit(c)
}

/// The code of `c` with ASCII upper case letters mapped to lower case.
pub open spec fn fold_char(c: char) -> u32 {
    if is_upper(c) {
        (c as u32 + 32) as u32
    } else {
        c as u32
    }
}

/// `u8::to_ascii_lowercase`.
pub open spec fn fold_byte(b: u8) -> u8 {
    if 65 <= b <= 90 {
        (b + 32) as u8
    } else {
        b
    }
}

pub fn ascii_alphabetic(c: char) -> (r: bool)
    ensures
        r == is_alpha(c),
{
    ('a' <= c && c <= 'z') || ('A' <= c && c <= 'Z')
}

pub fn ascii_lowercase(c: char) -> (r: bool)
    ensures
        r == is_lower(c),
{
    'a' <= c && c <= 'z'
}

pub fn ascii_uppercase(c: char) -> (r: bool)
    ensures
        r == is_upper(c),
{
    'A' <= c && c <= 'Z'
}

pub fn ascii_digit(c: char) -> (r: bool)
    ensures
        r == is_digit(c),
{
    '0' <= c && c <= '9'
}

pub fn ascii_alphanumeric(c: char) -> (r: bool)
    ensures
        r == is_alnum(c),
{
    ascii_alphabetic(c) || ascii_digit(c)
}

/// `char::eq_ignore_ascii_case`.
pub fn chars_eq_ignore_case(a: char, b: char) -> (r: bool)
    ensures
        r == (fold_char(a) == fold_char(b)),
{
    let fa: u32 = if ascii_uppercase(a) { a as u32 + 32 } else { a as u32 };
    let fb: u32 = if ascii_uppercase(b) { b as u32 + 32 } else { b as u32 };
    fa == fb
}

/// `u8::to_ascii_lowercase`.
pub fn byte_fold(b: u8) -> (r: u8)
    ensures
        r == fold_byte(b),
{
    if 65 <= b && b <= 90 {
        b + 32
    } else {
        b
    }
}


/// The first char encoded by `b`, if `b` starts with a well formed encoding.
pub open spec fn first_char(b: Seq<u8>) -> Option<char> {
    if b.len() > 0 && valid_first_scalar(b) {
        Some(decode_first_scalar(b) as char)
    } else {
        None
    }
}

/// `char::from_u32`: the char of a Unicode scalar value, `None` for any other value.
#[verifier::external_body]
pub fn char_from_u32(v: u32) -> (r: Option<char>)
    ensures
        is_scalar(v) ==> r == Some(v as char),
        !is_scalar(v) ==> r is None,
{
    char::from_u32(v)
}

/// Decodes the first char of the first `len` bytes of `b`.
pub fn decode_first_char(b: &[u8; 10], len: usize) -> (r: Option<char>)
    requires
        len <= 10,
    ensures
        r == first_char(b@.take(len as int)),
{
    let ghost s = b@.take(len as int);
    if len == 0 {
        return None;
    }
    let b0 = b[0];
    let (w, cp): (usize, u32) = if b0 <= 0x7f {
        (1, (b0 & 0x7F) as u32)
    } else if 0xc0 <= b0 && b0 <= 0xdf && len >= 2 && 0x80 <= b[1] && b[1] <= 0xbf {
        let b1 = b[1];
        let cp = (((b0 & 0x1F) as u32) << 6) | ((b1 & 0x3f) as u32);
        assert(cp <= 0x7FF) by (bit_vector)
            requires
                cp == (((b0 & 0x1F) as u32) << 6) | ((b1 & 0x3f) as u32),
        ;
        (2, cp)
    } else if 0xe0 <= b0 && b0 <= 0xef && len >= 3 && 0x80 <= b[1] && b[1] <= 0xbf && 0x80
        <= b[2] && b[2] <= 0xbf {
        let b1 = b[1];
        let b2 = b[2];
        let cp = (((b0 & 0x0F) as u32) << 12) | (((b1 & 0x3f) as u32) << 6) | ((b2 & 0x3f) as u32);
        assert(cp <= 0xFFFF) by (bit_vector)
            requires
                cp == (((b0 & 0x0F) as u32) << 12) | (((b1 & 0x3f) as u32) << 6) | ((b2
                    & 0x3f) as u32),
        ;
        (3, cp)
    } else if 0xf0 <= b0 && b0 <= 0xf7 && len >= 4 && 0x80 <= b[1] && b[1] <= 0xbf && 0x80
        <= b[2] && b[2] <= 0xbf && 0x80 <= b[3] && b[3] <= 0xbf {
        let b1 = b[1];
        let b2 = b[2];
        let b3 = b[3];
        let cp = (((b0 & 0x07) as u32) << 18) | (((b1 & 0x3f) as u32) << 12) | (((b2 & 0x3f) as u32)
            << 6) | ((b3 & 0x3f) as u32);
        (4, cp)
    } else {
        return None;
    };
    assert(s[0] == b0);
    assert(valid_leading_and_continuation_bytes_first_codepoint(s));
    assert(decode_first_codepoint(s) == cp);
    assert(length_of_first_codepoint(s) == w);
    if w == 2 && cp < 0x80 {
        return None;
    }
    if w == 3 && cp < 0x800 {
        return None;
    }
    if w == 4 && (cp < 0x10000 || cp > 0x10ffff) {
        return None;
    }
    if 0xD800 <= cp && cp <= 0xDFFF {
        return None;
    }
    assert(valid_first_scalar(s));
    assert(is_scalar(cp));
    char_from_u32(cp)
}

/// `str::strip_prefix` with a char pattern: the rest of `s` when it starts with `c`.
pub fn strip_char_prefix(s: &str, c: char) -> (r: Option<&str>)
    ensures
        r is Some <==> (s@.len() > 0 && s@[0] == c),
        r is Some ==> r.unwrap()@ == s@.drop_first(),
{
    let chars = str_to_chars(s);
    if chars.len() > 0 && chars[0] == c {
        proof {
            lemma_byte_len_take_next(s@, 0);
            assert(s@.take(0) =~= Seq::<char>::empty());
            assert(encode_utf8(Seq::<char>::empty()) =~= Seq::<u8>::empty());
        }
        let (_, rest) = split_at_char(s, 1, char_len_utf8(c));
        assert(rest@ =~= s@.drop_first());
        Some(rest)
    } else {
        None
    }
}

/// Whether `c` has the Unicode `Lowercase` property (what `char::is_lowercase` computes).
pub uninterp spec fn unicode_lowercase(c: char) -> bool;

/// `char::is_lowercase`: whether `c` has the Unicode `Lowercase` property;
/// among ASCII chars that is exactly `a` to `z`.
#[verifier::external_body]
pub fn char_is_lowercase(c: char) -> (r: bool)
    ensures
        r == unicode_lowercase(c),
        (c as u32) < 0x80 ==> (r <==> is_lower(c)),
{
    c.is_lowercase()
}


/// The end of the encoding of a prefix is a char boundary of the encoding of the whole.
pub proof fn lemma_prefix_boundary(a: Seq<char>, b: Seq<char>)
    ensures
        is_char_boundary(encode_utf8(a + b), encode_utf8(a).len() as int),
    decreases a.len(),
{
    broadcast use encode_utf8_valid_utf8;

    if a.len() > 0 {
        let ab = a + b;
        lemma_encode_concat(a, b);
        encode_utf8_first_scalar(ab);
        assert(ab.drop_first() =~= a.drop_first() + b);
        assert(ab[0] == a[0]);
        assert(pop_first_scalar(encode_utf8(ab)) =~= encode_utf8(ab.drop_first()));
        lemma_prefix_boundary(a.drop_first(), b);
        assert(encode_utf8(a).len() == encode_scalar(a[0] as u32).len() + encode_utf8(
            a.drop_first(),
        ).len());
    }
}

/// Two strings with the same encoding hold the same chars.
pub proof fn lemma_encode_injective(a: Seq<char>, b: Seq<char>)
    requires
        encode_utf8(a) == encode_utf8(b),
    ensures
        a == b,
{
    encode_utf8_decode_utf8(a);
    encode_utf8_decode_utf8(b);
}

/// Splits `s` after its first `k` chars, `mid` being their byte length.
pub fn split_at_char<'a>(s: &'a str, k: usize, mid: usize) -> (r: (&'a str, &'a str))
    requires
        k <= s@.len(),
        mid == byte_len(s@.take(k as int)),
    ensures
        r.0@ == s@.take(k as int),
        r.1@ == s@.skip(k as int),
{
    proof {
        let a = s@.take(k as int);
        let b = s@.skip(k as int);
        assert(a + b =~= s@);
        lemma_prefix_boundary(a, b);
        lemma_encode_concat(a, b);
    }
    let (x, y) = s.split_at(mid);
    proof {
        let a = s@.take(k as int);
        let b = s@.skip(k as int);
        let bytes = encode_utf8(s@);
        assert(bytes.subrange(0, mid as int) =~= encode_utf8(a));
        assert(bytes.subrange(mid as int, bytes.len() as int) =~= encode_utf8(b));
        lemma_encode_injective(x@, a);
        lemma_encode_injective(y@, b);
    }
    (x, y)
}


/// `str::len`: the number of bytes of the UTF-8 encoding of `s`.
pub fn str_byte_len(s: &str) -> (n: usize)
    ensures
        n == byte_len(s@),
{
    s.as_bytes().len()
}


/// Whether two strings hold the same chars.
pub fn str_eq(a: &str, b: &str) -> (r: bool)
    ensures
        r == (a@ == b@),
{
    let x = str_to_chars(a);
    let y = str_to_chars(b);
    if x.len() != y.len() {
        return false;
    }
    let mut i: usize = 0;
    while i < x.len()
        invariant
            x@ == a@,
            y@ == b@,
            x.len() == y.len(),
            i <= x.len(),
            forall|j: int| 0 <= j < i ==> x@[j] == y@[j],
        decreases x.len() - i,
    {
        if x[i] != y[i] {
            assert(x@[i as int] != y@[i as int]);
            assert(x@ != y@);
            return false;
        }
        i = i + 1;
    }
    assert(x@ =~= y@);
    true
}

/// Appends the char `c` to `s`.
pub fn push_char(s: &mut String, c: char)
    ensures
        final(s)@ == old(s)@.push(c),
{
    let (bytes, n) = encode_char(c);
    let (head, _) = bytes.as_slice().split_at(n);
    proof {
        assert(head@ =~= char_bytes(c));
        assert(seq![c].drop_first() =~= Seq::<char>::empty());
        assert(encode_utf8(seq![c]) =~= char_bytes(c) + encode_utf8(Seq::<char>::empty()));
        assert(encode_utf8(seq![c]) =~= char_bytes(c));
        encode_utf8_valid_utf8(seq![c]);
    }
    match str_from_utf8(head) {
        Some(t) => {
            proof {
                encode_utf8_decode_utf8(t@);
                encode_utf8_decode_utf8(seq![c]);
            }
            s.append(t);
        },
        None => {},
    }
}

/// `std::str::from_utf8`: the text the bytes encode, when they are valid
/// UTF-8 (the error, which tells where they are not, is dropped).
#[verifier::external_body]
pub fn str_from_utf8(bytes: &[u8]) -> (r: Option<&str>)
    ensures
        r is Some <==> valid_utf8(bytes@),
        r matches Some(s) ==> encode_utf8(s@) == bytes@,
{
    std::str::from_utf8(bytes).ok()
}

} // verus!
