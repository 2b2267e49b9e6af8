//! Terminal escape codes written into an output buffer.

pub mod none_ui;

use vstd::prelude::*;
use crate::theme::Color;

verus! {

/// The ASCII digits of `n` in base ten.
pub open spec fn decimal(n: nat) -> Seq<u8>
    decreases n,
{
    if n < 10 {
        seq![(48 + n) as u8]
    } else {
        decimal(n / 10).push((48 + n % 10) as u8)
    }
}

/// Writes the decimal digits of `n`.
fn push_decimal(buf: &mut Vec<u8>, n: usize)
    ensures
        final(buf)@ == old(buf)@ + decimal(n as nat),
    decreases n,
{
    if n >= 10 {
        push_decimal(buf, n / 10);
    }
    let digit = (n % 10) as u8;
    buf.push(48 + digit);
    assert(buf@ =~= old(buf)@ + decimal(n as nat));
}

/// Writes `bytes`.
fn push_bytes(buf: &mut Vec<u8>, bytes: &[u8])
    ensures
        final(buf)@ == old(buf)@ + bytes@,
{
    let mut i: usize = 0;
    while i < bytes.len()
        invariant
            i <= bytes.len(),
            buf@ == old(buf)@ + bytes@.take(i as int),
        decreases bytes.len() - i,
    {
        buf.push(bytes[i]);
        i = i + 1;
        assert(buf@ =~= old(buf)@ + bytes@.take(i as int));
    }
    assert(bytes@.take(bytes.len() as int) =~= bytes@);
}

/// `ESC [`, the start of every control sequence.
pub open spec fn csi() -> Seq<u8> {
    seq![0x1bu8, 0x5bu8]
}

/// Erases the whole line (`ESC [ 2 K`).
pub fn clear_line(buf: &mut Vec<u8>)
    ensures
        final(buf)@ == old(buf)@ + csi() + seq![0x32u8, 0x4bu8],
{
    let code: [u8; 4] = [0x1b, 0x5b, 0x32, 0x4b];
    push_bytes(buf, &code);
    assert(code@ =~= csi() + seq![0x32u8, 0x4bu8]);
    assert(buf@ =~= old(buf)@ + csi() + seq![0x32u8, 0x4bu8]);
}

/// Erases to the end of the line (`ESC [ 0 K`).
pub fn clear_until_new_line(buf: &mut Vec<u8>)
    ensures
        final(buf)@ == old(buf)@ + csi() + seq![0x30u8, 0x4bu8],
{
    let code: [u8; 4] = [0x1b, 0x5b, 0x30, 0x4b];
    push_bytes(buf, &code);
    assert(code@ =~= csi() + seq![0x30u8, 0x4bu8]);
    assert(buf@ =~= old(buf)@ + csi() + seq![0x30u8, 0x4bu8]);
}

/// Moves the cursor to row `x`, column `y` (`ESC [ x ; y H`).
pub fn move_cursor_to(buf: &mut Vec<u8>, x: usize, y: usize)
    ensures
        final(buf)@ == old(buf)@ + csi() + decimal(x as nat) + seq![0x3bu8] + decimal(y as nat) + seq![0x48u8],
{
    buf.push(0x1b);
    buf.push(0x5b);
    push_decimal(buf, x);
    buf.push(0x3b);
    push_decimal(buf, y);
    buf.push(0x48);
    assert(buf@ =~= old(buf)@ + csi() + decimal(x as nat) + seq![0x3bu8] + decimal(y as nat) + seq![0x48u8]);
}

/// Moves the cursor to the start of the next line (`ESC [ 1 E`).
pub fn move_cursor_to_next_line(buf: &mut Vec<u8>)
    ensures
        final(buf)@ == old(buf)@ + csi() + seq![0x31u8, 0x45u8],
{
    let code: [u8; 4] = [0x1b, 0x5b, 0x31, 0x45];
    push_bytes(buf, &code);
    assert(code@ =~= csi() + seq![0x31u8, 0x45u8]);
    assert(buf@ =~= old(buf)@ + csi() + seq![0x31u8, 0x45u8]);
}

/// Moves the cursor `count` lines up (`ESC [ count A`).
pub fn move_cursor_up(buf: &mut Vec<u8>, count: usize)
    ensures
        final(buf)@ == old(buf)@ + csi() + decimal(count as nat) + seq![0x41u8],
{
    buf.push(0x1b);
    buf.push(0x5b);
    push_decimal(buf, count);
    buf.push(0x41);
    assert(buf@ =~= old(buf)@ + csi() + decimal(count as nat) + seq![0x41u8]);
}

/// The parameters of a true color: `r ; g ; b m`.
pub open spec fn color_parameters(color: Color) -> Seq<u8> {
    decimal(color.0 as nat) + seq![0x3bu8] + decimal(color.1 as nat) + seq![0x3bu8] + decimal(color.2 as nat) + seq![0x6du8]
}

fn push_color_parameters(buf: &mut Vec<u8>, color: Color)
    ensures
        final(buf)@ == old(buf)@ + color_parameters(color),
{
    push_decimal(buf, color.0 as usize);
    buf.push(0x3b);
    push_decimal(buf, color.1 as usize);
    buf.push(0x3b);
    push_decimal(buf, color.2 as usize);
    buf.push(0x6d);
    assert(buf@ =~= old(buf)@ + color_parameters(color));
}

/// Sets the background color (`ESC [ 48 ; 2 ; r ; g ; b m`).
pub fn set_background_color(buf: &mut Vec<u8>, color: Color)
    ensures
        final(buf)@ == old(buf)@ + csi() + seq![0x34u8, 0x38u8, 0x3bu8, 0x32u8, 0x3bu8] + color_parameters(color),
{
    let code: [u8; 7] = [0x1b, 0x5b, 0x34, 0x38, 0x3b, 0x32, 0x3b];
    push_bytes(buf, &code);
    push_color_parameters(buf, color);
    assert(code@ =~= csi() + seq![0x34u8, 0x38u8, 0x3bu8, 0x32u8, 0x3bu8]);
    assert(buf@ =~= old(buf)@ + csi() + seq![0x34u8, 0x38u8, 0x3bu8, 0x32u8, 0x3bu8] + color_parameters(color));
}

/// Sets the foreground color (`ESC [ 38 ; 2 ; r ; g ; b m`).
pub fn set_foreground_color(buf: &mut Vec<u8>, color: Color)
    ensures
        final(buf)@ == old(buf)@ + csi() + seq![0x33u8, 0x38u8, 0x3bu8, 0x32u8, 0x3bu8] + color_parameters(color),
{
    let code: [u8; 7] = [0x1b, 0x5b, 0x33, 0x38, 0x3b, 0x32, 0x3b];
    push_bytes(buf, &code);
    push_color_parameters(buf, color);
    assert(code@ =~= csi() + seq![0x33u8, 0x38u8, 0x3bu8, 0x32u8, 0x3bu8]);
    assert(buf@ =~= old(buf)@ + csi() + seq![0x33u8, 0x38u8, 0x3bu8, 0x32u8, 0x3bu8] + color_parameters(color));
}

/// Underlines what follows (`ESC [ 4 m`).
pub fn set_underlined(buf: &mut Vec<u8>)
    ensures
        final(buf)@ == old(buf)@ + csi() + seq![0x34u8, 0x6du8],
{
    let code: [u8; 4] = [0x1b, 0x5b, 0x34, 0x6d];
    push_bytes(buf, &code);
    assert(code@ =~= csi() + seq![0x34u8, 0x6du8]);
    assert(buf@ =~= old(buf)@ + csi() + seq![0x34u8, 0x6du8]);
}

/// Stops underlining (`ESC [ 24 m`).
pub fn set_not_underlined(buf: &mut Vec<u8>)
    ensures
        final(buf)@ == old(buf)@ + csi() + seq![0x32u8, 0x34u8, 0x6du8],
{
    let code: [u8; 5] = [0x1b, 0x5b, 0x32, 0x34, 0x6d];
    push_bytes(buf, &code);
    assert(code@ =~= csi() + seq![0x32u8, 0x34u8, 0x6du8]);
    assert(buf@ =~= old(buf)@ + csi() + seq![0x32u8, 0x34u8, 0x6du8]);
}

} // verus!
