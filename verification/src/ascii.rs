//! The ASCII bytes that the bencode grammar and the announce URL are made of.

use vstd::prelude::*;
use vstd::string::{is_ascii, is_ascii_spec_bytes, StringSliceAdditionalSpecFns};

verus! {

/// `0`
pub const DIGIT_ZERO: u8 = 0x30;

/// `9`
pub const DIGIT_NINE: u8 = 0x39;

/// `:`, between the length of a byte string and its bytes.
pub const COLON: u8 = 0x3a;

/// `-`, the sign of a negative integer.
pub const MINUS: u8 = 0x2d;

/// `i`, the first byte of an integer.
pub const INT_START: u8 = 0x69;

/// `l`, the first byte of a list.
pub const LIST_START: u8 = 0x6c;

/// `d`, the first byte of a dictionary.
pub const DICT_START: u8 = 0x64;

/// `e`, the last byte of an integer, a list or a dictionary.
pub const END: u8 = 0x65;

/// The bytes of a text that is ASCII: one byte per character.
pub open spec fn ascii_bytes(text: Seq<char>) -> Seq<u8> {
    Seq::new(text.len(), |i: int| text[i] as u8)
}

/// The bytes of an ASCII text.
pub(crate) fn key_bytes(text: &str) -> (bytes: &[u8])
    requires
        is_ascii(text),
    ensures
        bytes@ == ascii_bytes(text@),
{
    proof {
        is_ascii_spec_bytes(text);
    }
    text.as_bytes()
}

} // verus!
