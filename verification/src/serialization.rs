//! A small binary format: numbers as little endian bytes, chars as their
//! code, strings as their byte length and bytes.

use vstd::prelude::*;
use vstd::utf8::{encode_utf8, is_scalar, valid_utf8};
use crate::text::{byte_len, char_from_u32, lemma_encode_injective, str_byte_len, str_from_utf8};

verus! {

/// Where serialized bytes go.
pub trait Serializer {
    /// The bytes written so far.
    spec fn written(&self) -> Seq<u8>;

    fn write(&mut self, bytes: &[u8])
        ensures
            final(self).written() == old(self).written() + bytes@,
    ;
}

pub struct DeserializeError;

/// Where serialized bytes are read from.
pub trait Deserializer<'de> {
    /// The bytes not read yet.
    spec fn remaining(&self) -> Seq<u8>;

    /// Reads the next `len` bytes, if there are that many.
    fn read(&mut self, len: usize) -> (r: Result<&'de [u8], DeserializeError>)
        ensures
            len <= old(self).remaining().len() ==> (r matches Ok(bytes) && bytes@ == old(self).remaining().take(
                len as int,
            ) && final(self).remaining() == old(self).remaining().skip(len as int)),
            len > old(self).remaining().len() ==> r is Err && final(self).remaining() == old(self).remaining(),
    ;
}

/// A value that can be written as bytes and read back.
pub trait Serialize<'de>: Sized {
    /// The bytes the value is written as.
    spec fn encoding(&self) -> Seq<u8>;

    fn serialize<S: Serializer>(&self, serializer: &mut S)
        ensures
            final(serializer).written() == old(serializer).written() + self.encoding(),
    ;

    fn deserialize<D: Deserializer<'de>>(deserializer: &mut D) -> (r: Result<Self, DeserializeError>);
}

/// The little endian bytes of the low `n` bytes of `x`.
pub open spec fn le_bytes(x: nat, n: nat) -> Seq<u8>
    decreases n,
{
    if n == 0 {
        Seq::empty()
    } else {
        seq![(x % 256) as u8] + le_bytes(x / 256, (n - 1) as nat)
    }
}

/// The number that little endian bytes stand for.
pub open spec fn le_value(b: Seq<u8>) -> nat
    decreases b.len(),
{
    if b.len() == 0 {
        0
    } else {
        (b[0] + 256 * le_value(b.drop_first())) as nat
    }
}

/// Little endian bytes read back give the number, when it fits in them.
pub proof fn lemma_le_roundtrip(x: nat, n: nat)
    requires
        x < pow256(n),
    ensures
        le_bytes(x, n).len() == n,
        le_value(le_bytes(x, n)) == x,
    decreases n,
{
    if n > 0 {
        assert(x / 256 < pow256((n - 1) as nat)) by (nonlinear_arith)
            requires
                x < pow256(n),
                pow256(n) == 256 * pow256((n - 1) as nat),
        ;
        lemma_le_roundtrip(x / 256, (n - 1) as nat);
        let b = le_bytes(x, n);
        assert(b.drop_first() =~= le_bytes(x / 256, (n - 1) as nat));
        assert(x == x % 256 + 256 * (x / 256)) by (nonlinear_arith);
    }
}

/// `256` to the power `n`.
pub open spec fn pow256(n: nat) -> nat
    decreases n,
{
    if n == 0 {
        1
    } else {
        256 * pow256((n - 1) as nat)
    }
}

/// What reading `n` little endian bytes from `b` gives: the number and the
/// rest, or nothing when `b` is too short.
pub open spec fn read_le(b: Seq<u8>, n: nat) -> Option<(nat, Seq<u8>)> {
    if b.len() < n {
        None
    } else {
        Some((le_value(b.take(n as int)), b.skip(n as int)))
    }
}

/// Writing a number and reading it back gives the number and what followed.
pub proof fn lemma_number_roundtrip(x: nat, n: nat, rest: Seq<u8>)
    requires
        x < pow256(n),
    ensures
        read_le(le_bytes(x, n) + rest, n) == Some((x, rest)),
{
    lemma_le_roundtrip(x, n);
    assert((le_bytes(x, n) + rest).take(n as int) =~= le_bytes(x, n));
    assert((le_bytes(x, n) + rest).skip(n as int) =~= rest);
}

fn le_bytes_exec(x: u32, n: usize) -> (r: Vec<u8>)
    requires
        n <= 4,
    ensures
        r@ == le_bytes(x as nat, n as nat),
{
    let mut r: Vec<u8> = Vec::new();
    let mut v = x;
    let mut i: usize = 0;
    while i < n
        invariant
            i <= n,
            n <= 4,
            r@ + le_bytes(v as nat, (n - i) as nat) == le_bytes(x as nat, n as nat),
        decreases n - i,
    {
        let ghost before = r@;
        r.push((v % 256) as u8);
        proof {
            assert(le_bytes(v as nat, (n - i) as nat) == seq![(v % 256) as u8] + le_bytes((v / 256) as nat, (n - i - 1) as nat));
            assert(r@ + le_bytes((v / 256) as nat, (n - i - 1) as nat) =~= before + le_bytes(v as nat, (n - i) as nat));
        }
        v = v / 256;
        i = i + 1;
    }
    assert(r@ + le_bytes(v as nat, 0) =~= r@);
    r
}

fn le_value_exec(b: &[u8]) -> (r: u32)
    requires
        b@.len() <= 4,
    ensures
        r == le_value(b@),
{
    let mut r: u32 = 0;
    let mut i: usize = b.len();
    proof {
        lemma_le_value_bound(b@);
    }
    while i > 0
        invariant
            i <= b@.len(),
            b@.len() <= 4,
            r == le_value(b@.skip(i as int)),
            le_value(b@.skip(i as int)) < pow256((b@.len() - i) as nat),
        decreases i,
    {
        proof {
            assert(b@.skip(i - 1).drop_first() =~= b@.skip(i as int));
            lemma_le_value_bound(b@.skip(i - 1));
            reveal_with_fuel(pow256, 5);
            assert(pow256(4) == 0x1_0000_0000);
            lemma_pow256_mono((b@.len() - (i - 1)) as nat, 4);
        }
        r = b[i - 1] as u32 + 256 * r;
        i = i - 1;
    }
    assert(b@.skip(0) =~= b@);
    r
}

/// The value of `n` bytes is below `256` to the power `n`.
proof fn lemma_le_value_bound(b: Seq<u8>)
    ensures
        le_value(b) < pow256(b.len()),
    decreases b.len(),
{
    if b.len() > 0 {
        lemma_le_value_bound(b.drop_first());
        assert(b[0] + 256 * le_value(b.drop_first()) < 256 * pow256(b.drop_first().len())) by (nonlinear_arith)
            requires
                b[0] < 256,
                le_value(b.drop_first()) < pow256(b.drop_first().len()),
        ;
    }
}

proof fn lemma_pow256_mono(a: nat, b: nat)
    requires
        a <= b,
    ensures
        pow256(a) <= pow256(b),
    decreases b,
{
    if a < b {
        lemma_pow256_mono(a, (b - 1) as nat);
    }
}

impl<'de> Serialize<'de> for u8 {
    open spec fn encoding(&self) -> Seq<u8> {
        le_bytes(*self as nat, 1)
    }

    fn serialize<S: Serializer>(&self, serializer: &mut S) {
        let bytes = le_bytes_exec(*self as u32, 1);
        serializer.write(bytes.as_slice());
    }

    fn deserialize<D: Deserializer<'de>>(deserializer: &mut D) -> (r: Result<Self, DeserializeError>)
        ensures
            match read_le(old(deserializer).remaining(), 1) {
                Some((v, rest)) => r == Ok::<u8, DeserializeError>(v as u8) && final(deserializer).remaining() == rest,
                None => r is Err && final(deserializer).remaining() == old(deserializer).remaining(),
            },
    {
        let bytes = match deserializer.read(1) {
            Ok(bytes) => bytes,
            Err(e) => return Err(e),
        };
        proof {
            lemma_le_value_bound(bytes@);
        }
        let v = le_value_exec(bytes);
        Ok(v as u8)
    }
}

impl<'de> Serialize<'de> for u16 {
    open spec fn encoding(&self) -> Seq<u8> {
        le_bytes(*self as nat, 2)
    }

    fn serialize<S: Serializer>(&self, serializer: &mut S) {
        let bytes = le_bytes_exec(*self as u32, 2);
        serializer.write(bytes.as_slice());
    }

    fn deserialize<D: Deserializer<'de>>(deserializer: &mut D) -> (r: Result<Self, DeserializeError>)
        ensures
            match read_le(old(deserializer).remaining(), 2) {
                Some((v, rest)) => r == Ok::<u16, DeserializeError>(v as u16) && final(deserializer).remaining() == rest,
                None => r is Err && final(deserializer).remaining() == old(deserializer).remaining(),
            },
    {
        let bytes = match deserializer.read(2) {
            Ok(bytes) => bytes,
            Err(e) => return Err(e),
        };
        proof {
            lemma_le_value_bound(bytes@);
        }
        let v = le_value_exec(bytes);
        Ok(v as u16)
    }
}

impl<'de> Serialize<'de> for u32 {
    open spec fn encoding(&self) -> Seq<u8> {
        le_bytes(*self as nat, 4)
    }

    fn serialize<S: Serializer>(&self, serializer: &mut S) {
        let bytes = le_bytes_exec(*self, 4);
        serializer.write(bytes.as_slice());
    }

    fn deserialize<D: Deserializer<'de>>(deserializer: &mut D) -> (r: Result<Self, DeserializeError>)
        ensures
            match read_le(old(deserializer).remaining(), 4) {
                Some((v, rest)) => r == Ok::<u32, DeserializeError>(v as u32) && final(deserializer).remaining() == rest,
                None => r is Err && final(deserializer).remaining() == old(deserializer).remaining(),
            },
    {
        let bytes = match deserializer.read(4) {
            Ok(bytes) => bytes,
            Err(e) => return Err(e),
        };
        let v = le_value_exec(bytes);
        Ok(v)
    }
}

impl<'de> Serialize<'de> for char {
    open spec fn encoding(&self) -> Seq<u8> {
        le_bytes((*self as u32) as nat, 4)
    }

    fn serialize<S: Serializer>(&self, serializer: &mut S) {
        let value = *self as u32;
        value.serialize(serializer);
    }

    fn deserialize<D: Deserializer<'de>>(deserializer: &mut D) -> (r: Result<Self, DeserializeError>)
        ensures
            match read_le(old(deserializer).remaining(), 4) {
                Some((v, rest)) => final(deserializer).remaining() == rest && if is_scalar(v as u32) {
                    r == Ok::<char, DeserializeError>((v as u32) as char)
                } else {
                    r is Err
                },
                None => r is Err && final(deserializer).remaining() == old(deserializer).remaining(),
            },
    {
        let value = match u32::deserialize(deserializer) {
            Ok(value) => value,
            Err(e) => return Err(e),
        };
        match char_from_u32(value) {
            Some(c) => Ok(c),
            None => Err(DeserializeError),
        }
    }
}

impl<'de> Serialize<'de> for &'de str {
    /// The byte length (as a `u32`, cut to its low bits) and then the bytes.
    open spec fn encoding(&self) -> Seq<u8> {
        le_bytes((byte_len(self@) as u32) as nat, 4) + encode_utf8(self@)
    }

    fn serialize<S: Serializer>(&self, serializer: &mut S) {
        let len = str_byte_len(*self) as u32;
        len.serialize(serializer);
        serializer.write(self.as_bytes());
    }

    /// Reads a string of the next ten bytes.
    fn deserialize<D: Deserializer<'de>>(deserializer: &mut D) -> (r: Result<Self, DeserializeError>)
        ensures
            old(deserializer).remaining().len() < 10 ==> r is Err && final(deserializer).remaining() == old(deserializer).remaining(),
            old(deserializer).remaining().len() >= 10 ==> final(deserializer).remaining() == old(deserializer).remaining().skip(10) && if valid_utf8(old(deserializer).remaining().take(10)) {
                (r matches Ok(s) && encode_utf8(s@) == old(deserializer).remaining().take(10))
            } else {
                r is Err
            },
    {
        let bytes = match deserializer.read(10) {
            Ok(bytes) => bytes,
            Err(e) => return Err(e),
        };
        match str_from_utf8(bytes) {
            Some(s) => Ok(s),
            None => Err(DeserializeError),
        }
    }
}

/// A growing buffer of serialized bytes.
pub struct SerializationBuf(Vec<u8>);

impl Default for SerializationBuf {
    fn default() -> (r: Self)
        ensures
            r.written() == Seq::<u8>::empty(),
    {
        SerializationBuf(Vec::new())
    }
}

impl SerializationBuf {
    pub fn as_slice(&self) -> (r: &[u8])
        ensures
            r@ == self.written(),
    {
        self.0.as_slice()
    }

    pub fn clear(&mut self)
        ensures
            final(self).written() == Seq::<u8>::empty(),
    {
        self.0.clear();
    }
}

impl Serializer for SerializationBuf {
    closed spec fn written(&self) -> Seq<u8> {
        self.0@
    }

    fn write(&mut self, bytes: &[u8]) {
        self.0.extend_from_slice(bytes);
        assert(self.0@ =~= old(self).0@ + bytes@);
    }
}

/// Serialized bytes being read from the front.
pub struct DeserializationSlice<'de>(&'de [u8]);

impl<'de> DeserializationSlice<'de> {
    pub fn from_slice(slice: &'de [u8]) -> (r: Self)
        ensures
            r.remaining() == slice@,
    {
        DeserializationSlice(slice)
    }

    pub fn as_slice(&self) -> (r: &[u8])
        ensures
            r@ == self.remaining(),
    {
        self.0
    }
}

impl<'de> Deserializer<'de> for DeserializationSlice<'de> {
    closed spec fn remaining(&self) -> Seq<u8> {
        self.0@
    }

    fn read(&mut self, len: usize) -> (r: Result<&'de [u8], DeserializeError>) {
        let n = self.0.len();
        if len <= n {
            let before = &self.0[0..len];
            let after = &self.0[len..n];
            self.0 = after;
            assert(before@ =~= old(self).0@.take(len as int));
            assert(after@ =~= old(self).0@.skip(len as int));
            Ok(before)
        } else {
            Err(DeserializeError)
        }
    }
}

/// A `u8`, `u16` or `u32` written and then read back is the same number,
/// and what followed it is left to read.
pub proof fn lemma_numbers_roundtrip(a: u8, b: u16, c: u32, rest: Seq<u8>)
    ensures
        read_le(a.encoding() + rest, 1) == Some((a as nat, rest)),
        read_le(b.encoding() + rest, 2) == Some((b as nat, rest)),
        read_le(c.encoding() + rest, 4) == Some((c as nat, rest)),
{
    reveal_with_fuel(pow256, 5);
    lemma_number_roundtrip(a as nat, 1, rest);
    lemma_number_roundtrip(b as nat, 2, rest);
    lemma_number_roundtrip(c as nat, 4, rest);
}

/// A char written and then read back is the same char.
pub proof fn lemma_char_roundtrip(c: char, rest: Seq<u8>)
    ensures
        read_le(c.encoding() + rest, 4) == Some(((c as u32) as nat, rest)),
        is_scalar(c as u32),
        ((c as u32) as nat) as u32 as char == c,
{
    reveal_with_fuel(pow256, 5);
    lemma_number_roundtrip((c as u32) as nat, 4, rest);
    vstd::utf8::char_is_scalar(c);
}

} // verus!
