//! The text listing of a compiled pattern: one line per op, with its index,
//! its name, the bytes or char it tests, and where it jumps.

use vstd::prelude::*;
use vstd::utf8::{decode_utf8, encode_utf8, valid_utf8};
use crate::pattern::{string_ops_valid, valid_string_op, Jump, Op};
use crate::text::{push_char, str_from_utf8};
use crate::ui::decimal;

verus! {

broadcast use vstd::utf8::encode_utf8_decode_utf8;

/// The decimal digits of `n`, as chars.
pub open spec fn decimal_chars(n: nat) -> Seq<char> {
    decimal(n).map_values(|b: u8| b as char)
}

/// `n` spaces.
pub open spec fn spaces(n: nat) -> Seq<char> {
    Seq::new(n, |i: int| ' ')
}

/// `s`, then spaces up to `width` chars.
pub open spec fn pad_end(s: Seq<char>, width: nat) -> Seq<char> {
    if s.len() < width {
        s + spaces((width - s.len()) as nat)
    } else {
        s
    }
}

/// Spaces up to `width` chars, then `s`.
pub open spec fn pad_start(s: Seq<char>, width: nat) -> Seq<char> {
    if s.len() < width {
        spaces((width - s.len()) as nat) + s
    } else {
        s
    }
}

/// Width of the name column of an op that tests and jumps.
pub const NAME_WIDTH: usize = 14;

/// A name in the column, then the two jumps.
pub open spec fn jumps_text(name: Seq<char>, okj: Jump, erj: Jump) -> Seq<char> {
    pad_end(name, NAME_WIDTH as nat) + decimal_chars(okj.0 as nat) + " "@ + decimal_chars(erj.0 as nat)
}

/// A name in the narrower column, then what it tests, then the two jumps.
pub open spec fn tested_text(name: Seq<char>, tested: Seq<char>, okj: Jump, erj: Jump) -> Seq<char> {
    pad_end(name, (NAME_WIDTH - 4) as nat) + "'"@ + tested + "' "@ + decimal_chars(okj.0 as nat) + " "@
        + decimal_chars(erj.0 as nat)
}

/// The text of one op.
pub open spec fn op_text(op: Op) -> Seq<char> {
    match op {
        Op::Accept => "Ok"@,
        Op::Error => "Error"@,
        Op::Reset(j) => pad_end("Reset"@, (NAME_WIDTH - 4) as nat) + " "@ + decimal_chars(j.0 as nat),
        Op::Unwind(j, l) => pad_end("Unwind"@, (NAME_WIDTH - 4) as nat) + "["@ + decimal_chars(l.0 as nat) + "] "@
            + decimal_chars(j.0 as nat),
        Op::EndAnchor(okj, erj) => jumps_text("EndAnchor"@, okj, erj),
        Op::SkipOne(okj, erj) => jumps_text("SkipOne"@, okj, erj),
        Op::SkipMany(okj, erj, l) => pad_end("SkipMany"@, (NAME_WIDTH - 4) as nat) + "["@ + decimal_chars(
            l.0 as nat,
        ) + "] "@ + decimal_chars(okj.0 as nat) + " "@ + decimal_chars(erj.0 as nat),
        Op::Alphabetic(okj, erj) => jumps_text("Alphabetic"@, okj, erj),
        Op::Lower(okj, erj) => jumps_text("Lower"@, okj, erj),
        Op::Upper(okj, erj) => jumps_text("Upper"@, okj, erj),
        Op::Digit(okj, erj) => jumps_text("Digit"@, okj, erj),
        Op::Alphanumeric(okj, erj) => jumps_text("Alphanumeric"@, okj, erj),
        Op::Char(okj, erj, c) => tested_text("Char"@, seq![c], okj, erj),
        Op::CharCaseInsensitive(okj, erj, c) => tested_text("CharCaseInsensitive"@, seq![c], okj, erj),
        Op::String(okj, erj, len, bytes) => tested_text(
            "String"@,
            decode_utf8(bytes@.take(len as int)),
            okj,
            erj,
        ),
        Op::StringCaseInsensitive(okj, erj, len, bytes) => tested_text(
            "StringCaseInsensitive"@,
            decode_utf8(bytes@.take(len as int)),
            okj,
            erj,
        ),
    }
}

/// Number of decimal digits of `n` (none for zero).
pub open spec fn digit_count(n: nat) -> nat
    decreases n,
{
    if n == 0 {
        0
    } else {
        1 + digit_count(n / 10)
    }
}

/// The line of op `i`: a marker on the starting op, the index right
/// aligned to `width`, and the op.
pub open spec fn listing_line(i: int, width: nat, start: int, op: Op) -> Seq<char> {
    (if i == start {
        "  > ["@
    } else {
        "    ["@
    }) + pad_start(decimal_chars(i as nat), width) + "] "@ + op_text(op) + "\n"@
}

/// The lines of the first `n` ops.
pub open spec fn listing_lines(ops: Seq<Op>, width: nat, start: int, n: int) -> Seq<char>
    decreases n,
{
    if n <= 0 {
        Seq::empty()
    } else {
        listing_lines(ops, width, start, n - 1) + listing_line(n - 1, width, start, ops[n - 1])
    }
}

/// The listing of a program that starts at op `start`.
pub open spec fn listing(ops: Seq<Op>, start: int) -> Seq<char> {
    "Pattern {\n"@ + listing_lines(ops, digit_count(ops.len()), start, ops.len() as int) + "}\n"@
}

/// Appends `n` spaces.
fn push_spaces(out: &mut String, n: usize)
    ensures
        final(out)@ == old(out)@ + spaces(n as nat),
{
    let mut i: usize = 0;
    while i < n
        invariant
            i <= n,
            out@ == old(out)@ + spaces(i as nat),
        decreases n - i,
    {
        out.append(" ");
        proof {
            reveal_strlit(" ");
        }
        assert(spaces((i + 1) as nat) =~= spaces(i as nat) + " "@);
        i = i + 1;
    }
}

/// Appends `s`, then spaces up to `width` chars.
fn push_padded_end(out: &mut String, s: &str, width: usize)
    ensures
        final(out)@ == old(out)@ + pad_end(s@, width as nat),
{
    let len = s.unicode_len();
    out.append(s);
    if len < width {
        push_spaces(out, width - len);
    }
    assert(out@ =~= old(out)@ + pad_end(s@, width as nat));
}

/// Appends the decimal digits of `n`.
fn push_decimal_chars(out: &mut String, n: usize)
    ensures
        final(out)@ == old(out)@ + decimal_chars(n as nat),
    decreases n,
{
    if n >= 10 {
        push_decimal_chars(out, n / 10);
    }
    let digit = (48 + n % 10) as u8;
    push_char(out, digit as char);
    assert(decimal_chars(n as nat) =~= if n >= 10 {
        decimal_chars((n / 10) as nat).push(digit as char)
    } else {
        seq![digit as char]
    });
    assert(out@ =~= old(out)@ + decimal_chars(n as nat));
}

/// Appends the two jumps of an op.
fn push_jumps(out: &mut String, okj: Jump, erj: Jump)
    ensures
        final(out)@ == old(out)@ + decimal_chars(okj.0 as nat) + " "@ + decimal_chars(erj.0 as nat),
{
    push_decimal_chars(out, okj.0 as usize);
    out.append(" ");
    push_decimal_chars(out, erj.0 as usize);
    assert(out@ =~= old(out)@ + decimal_chars(okj.0 as nat) + " "@ + decimal_chars(erj.0 as nat));
}

/// The text of an op that tests and jumps.
fn jumps_string(name: &str, okj: Jump, erj: Jump) -> (r: String)
    ensures
        r@ == jumps_text(name@, okj, erj),
{
    let mut out = String::new();
    push_padded_end(&mut out, name, NAME_WIDTH);
    push_jumps(&mut out, okj, erj);
    assert(out@ =~= jumps_text(name@, okj, erj));
    out
}

/// The text of an op that tests `tested`.
fn tested_string(name: &str, tested: &str, okj: Jump, erj: Jump) -> (r: String)
    ensures
        r@ == tested_text(name@, tested@, okj, erj),
{
    let mut out = String::new();
    push_padded_end(&mut out, name, NAME_WIDTH - 4);
    out.append("'");
    out.append(tested);
    out.append("' ");
    push_jumps(&mut out, okj, erj);
    assert(out@ =~= tested_text(name@, tested@, okj, erj));
    out
}

/// The text of an op that tests the char `c`.
fn char_string(name: &str, c: char, okj: Jump, erj: Jump) -> (r: String)
    ensures
        r@ == tested_text(name@, seq![c], okj, erj),
{
    let mut out = String::new();
    push_padded_end(&mut out, name, NAME_WIDTH - 4);
    out.append("'");
    push_char(&mut out, c);
    out.append("' ");
    push_jumps(&mut out, okj, erj);
    assert(out@ =~= tested_text(name@, seq![c], okj, erj));
    out
}

/// The text of an op that tests the first `len` of `bytes`.
fn bytes_string(name: &str, len: u8, bytes: &[u8; 10], okj: Jump, erj: Jump) -> (r: String)
    requires
        len <= 10,
        valid_utf8(bytes@.take(len as int)),
    ensures
        r@ == tested_text(name@, decode_utf8(bytes@.take(len as int)), okj, erj),
{
    let (head, _) = bytes.as_slice().split_at(len as usize);
    assert(head@ =~= bytes@.take(len as int));
    match str_from_utf8(head) {
        Some(tested) => tested_string(name, tested, okj, erj),
        None => String::new(),
    }
}

impl Op {
    /// The text of this op in a pattern listing.
    pub fn debug_string(&self) -> (r: String)
        requires
            valid_string_op(*self),
        ensures
            r@ == op_text(*self),
    {
        match *self {
            Op::Accept => String::from_str("Ok"),
            Op::Error => String::from_str("Error"),
            Op::Reset(j) => {
                let mut out = String::new();
                push_padded_end(&mut out, "Reset", NAME_WIDTH - 4);
                out.append(" ");
                push_decimal_chars(&mut out, j.0 as usize);
                assert(out@ =~= op_text(*self));
                out
            },
            Op::Unwind(j, l) => {
                let mut out = String::new();
                push_padded_end(&mut out, "Unwind", NAME_WIDTH - 4);
                out.append("[");
                push_decimal_chars(&mut out, l.0 as usize);
                out.append("] ");
                push_decimal_chars(&mut out, j.0 as usize);
                assert(out@ =~= op_text(*self));
                out
            },
            Op::EndAnchor(okj, erj) => jumps_string("EndAnchor", okj, erj),
            Op::SkipOne(okj, erj) => jumps_string("SkipOne", okj, erj),
            Op::SkipMany(okj, erj, l) => {
                let mut out = String::new();
                push_padded_end(&mut out, "SkipMany", NAME_WIDTH - 4);
                out.append("[");
                push_decimal_chars(&mut out, l.0 as usize);
                out.append("] ");
                push_jumps(&mut out, okj, erj);
                assert(out@ =~= op_text(*self));
                out
            },
            Op::Alphabetic(okj, erj) => jumps_string("Alphabetic", okj, erj),
            Op::Lower(okj, erj) => jumps_string("Lower", okj, erj),
            Op::Upper(okj, erj) => jumps_string("Upper", okj, erj),
            Op::Digit(okj, erj) => jumps_string("Digit", okj, erj),
            Op::Alphanumeric(okj, erj) => jumps_string("Alphanumeric", okj, erj),
            Op::Char(okj, erj, c) => char_string("Char", c, okj, erj),
            Op::CharCaseInsensitive(okj, erj, c) => char_string("CharCaseInsensitive", c, okj, erj),
            Op::String(okj, erj, len, bytes) => bytes_string("String", len, &bytes, okj, erj),
            Op::StringCaseInsensitive(okj, erj, len, bytes) => bytes_string(
                "StringCaseInsensitive",
                len,
                &bytes,
                okj,
                erj,
            ),
        }
    }
}

/// The listing of the program `ops` that starts at op `start`.
pub(crate) fn listing_string(ops: &Vec<Op>, start: usize) -> (r: String)
    requires
        string_ops_valid(ops@),
    ensures
        r@ == listing(ops@, start as int),
{
    let mut op_digit_count: usize = 0;
    let mut op_count = ops.len();
    while op_count > 0
        invariant
            op_digit_count + digit_count(op_count as nat) == digit_count(ops.len() as nat),
            op_digit_count <= ops.len() - op_count,
        decreases op_count,
    {
        op_count = op_count / 10;
        op_digit_count = op_digit_count + 1;
    }
    let mut out = String::from_str("Pattern {\n");
    let mut i: usize = 0;
    while i < ops.len()
        invariant
            i <= ops.len(),
            string_ops_valid(ops@),
            op_digit_count == digit_count(ops.len() as nat),
            out@ == "Pattern {\n"@ + listing_lines(ops@, op_digit_count as nat, start as int, i as int),
        decreases ops.len() - i,
    {
        let ghost before = out@;
        if i == start {
            out.append("  > [");
        } else {
            out.append("    [");
        }
        let mut digits = String::new();
        push_decimal_chars(&mut digits, i);
        let len = digits.as_str().unicode_len();
        if len < op_digit_count {
            push_spaces(&mut out, op_digit_count - len);
        }
        out.append(digits.as_str());
        out.append("] ");
        assert(valid_string_op(ops@[i as int]));
        let text = ops[i].debug_string();
        out.append(text.as_str());
        out.append("\n");
        assert(out@ =~= before + listing_line(i as int, op_digit_count as nat, start as int, ops@[i as int]));
        i = i + 1;
    }
    out.append("}\n");
    assert(out@ =~= listing(ops@, start as int));
    out
}

} // verus!
