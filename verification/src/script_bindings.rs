//! Text helpers of the script bindings.

use vstd::prelude::*;
use vstd::utf8::{decode_utf8, encode_utf8, is_char_boundary};

verus! {

broadcast use {vstd::utf8::encode_utf8_decode_utf8, vstd::utf8::encode_utf8_valid_utf8};

/// The report of an error found at byte `error_index` of `text`: the
/// message, then the text around that place.
pub open spec fn parsing_error_text(message: Seq<char>, text: Seq<char>, error_index: int) -> Seq<char> {
    let bytes = encode_utf8(text);
    let before = decode_utf8(bytes.take(error_index));
    let after = decode_utf8(bytes.skip(error_index));
    message + if before.len() == 0 && after.len() == 0 {
        " at ''"@
    } else if after.len() == 0 {
        " at '"@ + before + "' <- here"@
    } else if before.len() == 0 {
        " at here -> '"@ + after + "'"@
    } else {
        " at '"@ + before + "' <- here '"@ + after + "'"@
    }
}

/// Reports an error found at byte `error_index` of `text` (which must fall
/// between two chars), showing the text on each side of that place.
pub fn parsing_error(message: &str, text: &str, error_index: usize) -> (r: String)
    requires
        is_char_boundary(encode_utf8(text@), error_index as int),
    ensures
        r@ == parsing_error_text(message@, text@, error_index as int),
{
    let (before, after) = text.split_at(error_index);
    proof {
        assert(error_index <= encode_utf8(text@).len());
        assert(encode_utf8(text@).take(error_index as int) =~= encode_utf8(before@));
        assert(encode_utf8(text@).skip(error_index as int) =~= encode_utf8(after@));
        assert(decode_utf8(encode_utf8(before@)) == before@);
        assert(decode_utf8(encode_utf8(after@)) == after@);
    }
    let mut r = String::from_str(message);
    if before.is_empty() && after.is_empty() {
        r.append(" at ''");
    } else if after.is_empty() {
        r.append(" at '");
        r.append(before);
        r.append("' <- here");
    } else if before.is_empty() {
        r.append(" at here -> '");
        r.append(after);
        r.append("'");
    } else {
        r.append(" at '");
        r.append(before);
        r.append("' <- here '");
        r.append(after);
        r.append("'");
    }
    assert(r@ =~= parsing_error_text(message@, text@, error_index as int));
    r
}

} // verus!
