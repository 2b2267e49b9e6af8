//! Decoding of the bytes a terminal sends into key presses.

use vstd::prelude::*;
use crate::platform::Key;
use crate::text::str_from_utf8;

verus! {

broadcast use vstd::utf8::encode_utf8_decode_utf8;

/// The escape byte that starts terminal control sequences.
pub const ESC: u8 = 0x1b;

/// `buf` begins with the bytes of `p`.
pub open spec fn starts_with(buf: Seq<u8>, p: Seq<u8>) -> bool {
    p.len() <= buf.len() && buf.take(p.len() as int) == p
}

/// `buf` begins with the escape byte followed by `tail`.
pub open spec fn starts_with_esc(buf: Seq<u8>, tail: Seq<u8>) -> bool {
    starts_with(buf, seq![ESC] + tail)
}

/// Index of the first ASCII byte of `buf` at or after `i`, or its length.
pub open spec fn first_ascii_from(buf: Seq<u8>, i: int) -> int
    decreases buf.len() - i,
{
    if i < 0 || i >= buf.len() || buf[i] < 0x80 {
        if i < 0 { 0 } else if i > buf.len() { buf.len() as int } else { i }
    } else {
        first_ascii_from(buf, i + 1)
    }
}

/// The key that the non-empty `buf` starts with, and how many bytes it takes.
pub open spec fn terminal_key(buf: Seq<u8>, backspace_code: u8) -> (Key, int) {
    let b = buf[0];
    if b == backspace_code {
        (Key::Backspace, 1)
    } else if starts_with_esc(buf, seq![0x5b, 0x35, 0x7e]) {  // ESC [ 5 ~
        (Key::PageUp, 4)
    } else if starts_with_esc(buf, seq![0x5b, 0x36, 0x7e]) {  // ESC [ 6 ~
        (Key::PageDown, 4)
    } else if starts_with_esc(buf, seq![0x5b, 0x41]) {  // ESC [ A
        (Key::Up, 3)
    } else if starts_with_esc(buf, seq![0x5b, 0x42]) {  // ESC [ B
        (Key::Down, 3)
    } else if starts_with_esc(buf, seq![0x5b, 0x43]) {  // ESC [ C
        (Key::Right, 3)
    } else if starts_with_esc(buf, seq![0x5b, 0x44]) {  // ESC [ D
        (Key::Left, 3)
    } else if starts_with_esc(buf, seq![0x5b, 0x31, 0x7e]) || starts_with_esc(buf, seq![0x5b, 0x37, 0x7e]) {  // ESC [ 1 ~, ESC [ 7 ~
        (Key::Home, 4)
    } else if starts_with_esc(buf, seq![0x5b, 0x48]) || starts_with_esc(buf, seq![0x4f, 0x48]) {  // ESC [ H, ESC O H
        (Key::Home, 3)
    } else if starts_with_esc(buf, seq![0x5b, 0x34, 0x7e]) || starts_with_esc(buf, seq![0x5b, 0x38, 0x7e]) {  // ESC [ 4 ~, ESC [ 8 ~
        (Key::End, 4)
    } else if starts_with_esc(buf, seq![0x5b, 0x46]) || starts_with_esc(buf, seq![0x4f, 0x46]) {  // ESC [ F, ESC O F
        (Key::End, 3)
    } else if starts_with_esc(buf, seq![0x5b, 0x33, 0x7e]) {  // ESC [ 3 ~
        (Key::Delete, 4)
    } else if b == ESC {
        (Key::Esc, 1)
    } else if b == 0x8 {
        (Key::Backspace, 1)
    } else if b == 0x0d {  // carriage return
        (Key::Enter, 1)
    } else if b == 0x09 {  // tab
        (Key::Tab, 1)
    } else if b == 0x7f {
        (Key::Delete, 1)
    } else if b <= 0x1f {
        (Key::Ctrl((b | 0x60u8) as char), 1)
    } else {
        let len = first_ascii_from(buf, 0);
        if len == 0 {
            (Key::Char(b as char), 1)
        } else if vstd::utf8::valid_utf8(buf.take(len)) {
            (Key::Char(vstd::utf8::decode_utf8(buf.take(len))[0]), len)
        } else {
            (Key::NoKey, len)
        }
    }
}

/// The keys that `buf` holds, in order.
pub open spec fn terminal_keys(buf: Seq<u8>, backspace_code: u8) -> Seq<Key>
    decreases buf.len(),
{
    if buf.len() == 0 {
        Seq::empty()
    } else {
        let (key, n) = terminal_key(buf, backspace_code);
        if 0 < n <= buf.len() {
            seq![key] + terminal_keys(buf.skip(n), backspace_code)
        } else {
            Seq::empty()
        }
    }
}

/// Whether `buf` begins with the escape byte followed by `a`, `b`.
fn esc_then2(buf: &[u8], a: u8, b: u8) -> (r: bool)
    ensures
        r == starts_with_esc(buf@, seq![a, b]),
{
    let ghost p = seq![ESC] + seq![a, b];
    if buf.len() >= 3 && buf[0] == ESC && buf[1] == a && buf[2] == b {
        assert(buf@.take(3) =~= p);
        true
    } else {
        proof {
            if buf@.len() >= 3 && buf@.take(3) == p {
                assert(buf@.take(3)[0] == p[0] && buf@.take(3)[1] == p[1] && buf@.take(3)[2] == p[2]);
            }
        }
        false
    }
}

/// Whether `buf` begins with the escape byte followed by `a`, `b`, `c`.
fn esc_then3(buf: &[u8], a: u8, b: u8, c: u8) -> (r: bool)
    ensures
        r == starts_with_esc(buf@, seq![a, b, c]),
{
    let ghost p = seq![ESC] + seq![a, b, c];
    if buf.len() >= 4 && buf[0] == ESC && buf[1] == a && buf[2] == b && buf[3] == c {
        assert(buf@.take(4) =~= p);
        true
    } else {
        proof {
            if buf@.len() >= 4 && buf@.take(4) == p {
                assert(buf@.take(4)[0] == p[0] && buf@.take(4)[1] == p[1] && buf@.take(4)[2] == p[2]
                    && buf@.take(4)[3] == p[3]);
            }
        }
        false
    }
}

/// Index of the first ASCII byte of `buf`, or its length.
fn first_ascii(buf: &[u8]) -> (r: usize)
    ensures
        r as int == first_ascii_from(buf@, 0),
{
    let mut i: usize = 0;
    while i < buf.len() && buf[i] >= 0x80
        invariant
            i <= buf.len(),
            first_ascii_from(buf@, i as int) == first_ascii_from(buf@, 0),
        decreases buf.len() - i,
    {
        i = i + 1;
    }
    i
}

/// The key that the non-empty `buf` starts with, and how many bytes it takes.
fn next_terminal_key(buf: &[u8], backspace_code: u8) -> (r: (Key, usize))
    requires
        buf@.len() > 0,
    ensures
        (r.0, r.1 as int) == terminal_key(buf@, backspace_code),
{
    let b = buf[0];
    if b == backspace_code {
        (Key::Backspace, 1)
    } else if esc_then3(buf, 0x5b, 0x35, 0x7e) {  // ESC [ 5 ~
        (Key::PageUp, 4)
    } else if esc_then3(buf, 0x5b, 0x36, 0x7e) {  // ESC [ 6 ~
        (Key::PageDown, 4)
    } else if esc_then2(buf, 0x5b, 0x41) {  // ESC [ A
        (Key::Up, 3)
    } else if esc_then2(buf, 0x5b, 0x42) {  // ESC [ B
        (Key::Down, 3)
    } else if esc_then2(buf, 0x5b, 0x43) {  // ESC [ C
        (Key::Right, 3)
    } else if esc_then2(buf, 0x5b, 0x44) {  // ESC [ D
        (Key::Left, 3)
    } else if esc_then3(buf, 0x5b, 0x31, 0x7e) || esc_then3(buf, 0x5b, 0x37, 0x7e) {  // ESC [ 1 ~, ESC [ 7 ~
        (Key::Home, 4)
    } else if esc_then2(buf, 0x5b, 0x48) || esc_then2(buf, 0x4f, 0x48) {  // ESC [ H, ESC O H
        (Key::Home, 3)
    } else if esc_then3(buf, 0x5b, 0x34, 0x7e) || esc_then3(buf, 0x5b, 0x38, 0x7e) {  // ESC [ 4 ~, ESC [ 8 ~
        (Key::End, 4)
    } else if esc_then2(buf, 0x5b, 0x46) || esc_then2(buf, 0x4f, 0x46) {  // ESC [ F, ESC O F
        (Key::End, 3)
    } else if esc_then3(buf, 0x5b, 0x33, 0x7e) {  // ESC [ 3 ~
        (Key::Delete, 4)
    } else if b == ESC {
        (Key::Esc, 1)
    } else if b == 0x8 {
        (Key::Backspace, 1)
    } else if b == 0x0d {  // carriage return
        (Key::Enter, 1)
    } else if b == 0x09 {  // tab
        (Key::Tab, 1)
    } else if b == 0x7f {
        (Key::Delete, 1)
    } else if b <= 0x1f {
        let byte = b | 0b01100000;
        (Key::Ctrl(byte as char), 1)
    } else {
        let len = first_ascii(buf);
        proof {
            lemma_first_ascii_bounds(buf@, 0);
        }
        if len == 0 {
            (Key::Char(b as char), 1)
        } else {
            let (c, _) = buf.split_at(len);
            assert(c@ =~= buf@.take(len as int));
            match str_from_utf8(c) {
                Some(s) => {
                    assert(s@.len() > 0) by {
                        if s@.len() == 0 {
                            assert(vstd::utf8::encode_utf8(s@) =~= Seq::<u8>::empty());
                        }
                    }
                    (Key::Char(s.get_char(0)), len)
                },
                None => (Key::NoKey, len),
            }
        }
    }
}

/// Every key takes at least one byte and no more than there are.
proof fn lemma_terminal_key_len(buf: Seq<u8>, backspace_code: u8)
    requires
        buf.len() > 0,
    ensures
        0 < terminal_key(buf, backspace_code).1 <= buf.len(),
{
    assert forall|t: Seq<u8>| #[trigger] starts_with_esc(buf, t) implies t.len() + 1 <= buf.len() by {
        assert((seq![ESC] + t).len() == t.len() + 1);
    }
    lemma_first_ascii_bounds(buf, 0);
}

/// The first ASCII byte from `i` lies between `i` and the end.
proof fn lemma_first_ascii_bounds(buf: Seq<u8>, i: int)
    requires
        0 <= i <= buf.len(),
    ensures
        i <= first_ascii_from(buf, i) <= buf.len(),
    decreases buf.len() - i,
{
    if i < buf.len() && buf[i] >= 0x80 {
        lemma_first_ascii_bounds(buf, i + 1);
    }
}

/// Decodes the bytes a terminal sent into the keys they stand for and
/// appends them to `keys`. Bytes that are not valid UTF-8 give `NoKey`.
pub fn parse_terminal_keys(buf: &[u8], backspace_code: u8, keys: &mut Vec<Key>)
    ensures
        final(keys)@ == old(keys)@ + terminal_keys(buf@, backspace_code),
{
    let mut rest: &[u8] = buf;
    while rest.len() > 0
        invariant
            keys@ + terminal_keys(rest@, backspace_code) == old(keys)@ + terminal_keys(buf@, backspace_code),
        decreases rest@.len(),
    {
        let (key, n) = next_terminal_key(rest, backspace_code);
        proof {
            lemma_terminal_key_len(rest@, backspace_code);
        }
        let (_, tail) = rest.split_at(n);
        assert(tail@ =~= rest@.skip(n as int));
        assert(keys@.push(key) + terminal_keys(tail@, backspace_code) =~= keys@ + terminal_keys(rest@, backspace_code));
        keys.push(key);
        rest = tail;
    }
    assert(terminal_keys(rest@, backspace_code) =~= Seq::<Key>::empty());
    assert(keys@ =~= keys@ + Seq::<Key>::empty());
}

/// Printable ASCII text, with no byte equal to the backspace code, comes
/// out as one `Char` key per byte.
pub proof fn lemma_printable_ascii_keys(buf: Seq<u8>, backspace_code: u8)
    requires
        forall|i: int| 0 <= i < buf.len() ==> 0x20 <= #[trigger] buf[i] < 0x7f && buf[i] != backspace_code,
    ensures
        terminal_keys(buf, backspace_code) == buf.map_values(|b: u8| Key::Char(b as char)),
    decreases buf.len(),
{
    let keys = buf.map_values(|b: u8| Key::Char(b as char));
    if buf.len() == 0 {
        assert(keys =~= Seq::<Key>::empty());
    } else {
        assert forall|t: Seq<u8>| #[trigger] starts_with_esc(buf, t) implies buf[0] == ESC by {
            assert(buf.take((t.len() + 1) as int)[0] == (seq![ESC] + t)[0]);
        }
        assert(0x20 <= buf[0] < 0x7f);
        assert(terminal_key(buf, backspace_code) == (Key::Char(buf[0] as char), 1int));
        let rest = buf.skip(1);
        assert forall|i: int| 0 <= i < rest.len() implies 0x20 <= #[trigger] rest[i] < 0x7f && rest[i] != backspace_code by {
            assert(rest[i] == buf[i + 1]);
        }
        lemma_printable_ascii_keys(rest, backspace_code);
        assert(keys =~= seq![Key::Char(buf[0] as char)] + rest.map_values(|b: u8| Key::Char(b as char)));
    }
}

} // verus!
