//! What the writer puts out, as functions from a value to its bytes.

use vstd::prelude::*;
use vstd::utf8::encode_utf8;
use crate::grammar::{false_word, null_word, true_word};
use crate::number::decimal_digits;
use crate::parse::escape_text;

verus! {

/// A boolean: one of the literals `true` and `false`.
pub open spec fn bool_text(v: bool) -> Seq<u8> {
    if v {
        true_word()
    } else {
        false_word()
    }
}

/// A string: a quote, the text with each character escaped, a quote.
pub open spec fn quoted(text: Seq<char>) -> Seq<u8> {
    seq![0x22u8] + encode_utf8(escape_text(text)) + seq![0x22u8]
}

/// The items of a byte buffer from the `i`-th on, each in decimal digits,
/// with a comma before every item but the one that comes first of all.
pub open spec fn byte_items_text(bytes: Seq<u8>, i: int) -> Seq<u8>
    decreases bytes.len() - i,
{
    if i < 0 || i >= bytes.len() {
        Seq::empty()
    } else {
        (if i == 0 {
            Seq::empty()
        } else {
            seq![0x2cu8]
        }) + decimal_digits(bytes[i] as nat) + byte_items_text(bytes, i + 1)
    }
}

/// A byte buffer: an array of the bytes as numbers.
pub open spec fn byte_buffer_text(bytes: Seq<u8>) -> Seq<u8> {
    seq![0x5bu8] + byte_items_text(bytes, 0) + seq![0x5du8]
}

/// The start of a variant with a payload: a brace, the name as a string,
/// a colon.
pub open spec fn variant_head(name: Seq<char>) -> Seq<u8> {
    seq![0x7bu8] + quoted(name) + seq![0x3au8]
}

/// The separator in front of an item: nothing for the first item of an
/// aggregate, a comma for every other.
pub open spec fn separator(first: bool) -> Seq<u8> {
    if first {
        Seq::empty()
    } else {
        seq![0x2cu8]
    }
}

/// The literal `null`, which stands for a unit and for an absent value.
pub open spec fn null_text() -> Seq<u8> {
    null_word()
}

} // verus!
