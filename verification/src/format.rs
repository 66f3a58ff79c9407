//! The PackStream format: which bytes stand for a value, and which value
//! a buffer holds.

use vstd::prelude::*;
use vstd::utf8::{decode_utf8, encode_utf8, valid_utf8};
use crate::error::{DecodeError, EncodeError};
use crate::value::{inserted, ValueView};
use crate::wire::{be_bytes, be_value, twos, untwos};

verus! {


pub const NULL: u8 = 0xC0;

pub const FLOAT: u8 = 0xC1;

pub const FALSE: u8 = 0xC2;

pub const TRUE: u8 = 0xC3;

/// The marker of an integer of one byte; those of two, four and eight bytes follow it.
pub const INT_8: u8 = 0xC8;

/// The marker of a byte string with a size of one byte; two and four bytes follow it.
pub const BYTES_8: u8 = 0xCC;

pub const TINY_TEXT: u8 = 0x80;

pub const TEXT_8: u8 = 0xD0;

pub const TINY_LIST: u8 = 0x90;

pub const LIST_8: u8 = 0xD4;

pub const TINY_DICT: u8 = 0xA0;

pub const DICT_8: u8 = 0xD8;

pub const TINY_STRUCT: u8 = 0xB0;

/// The largest size that the format can state.
pub const MAX_SIZE: usize = 0xFFFF_FFFF;

/// The largest number of fields that a structure marker can state.
pub const MAX_FIELDS: usize = 15;

/// The header of a size that the marker alone cannot say: the marker for
/// the smallest of one, two and four bytes that hold `n`, then `n`.
pub open spec fn sized_header(sized: u8, n: nat) -> Seq<u8> {
    if n < 0x100 {
        seq![sized] + be_bytes(n, 1)
    } else if n < 0x1_0000 {
        seq![(sized + 1) as u8] + be_bytes(n, 2)
    } else {
        seq![(sized + 2) as u8] + be_bytes(n, 4)
    }
}

/// The header of a text, list or map of `n` items: up to 15 the marker alone
/// says it, above that the size follows the marker.
pub open spec fn size_header(tiny: u8, sized: u8, n: nat) -> Seq<u8> {
    if n <= 15 {
        seq![(tiny + n) as u8]
    } else {
        sized_header(sized, n)
    }
}

/// The header of a byte string of `n` bytes, which has no short form.
pub open spec fn bytes_header(n: nat) -> Seq<u8> {
    sized_header(BYTES_8, n)
}

/// The fewest bytes, of one, two, four and eight, that hold `i` in two's complement.
pub open spec fn int_width(i: i64) -> nat {
    if -0x80 <= i < 0x80 {
        1
    } else if -0x8000 <= i < 0x8000 {
        2
    } else if -0x8000_0000 <= i < 0x8000_0000 {
        4
    } else {
        8
    }
}

/// The marker of an integer of `width` bytes.
pub open spec fn int_marker(width: nat) -> u8 {
    if width == 1 {
        INT_8
    } else if width == 2 {
        (INT_8 + 1) as u8
    } else if width == 4 {
        (INT_8 + 2) as u8
    } else {
        (INT_8 + 3) as u8
    }
}

/// The number of bytes that follow an integer marker.
pub open spec fn marked_width(marker: u8) -> nat {
    if marker == INT_8 {
        1
    } else if marker == INT_8 + 1 {
        2
    } else if marker == INT_8 + 2 {
        4
    } else {
        8
    }
}

/// The number of bytes of the size that follows the marker `marker` of the
/// family whose one-byte marker is `sized`.
pub open spec fn size_width(marker: u8, sized: u8) -> nat {
    if marker == sized {
        1
    } else if marker == sized + 1 {
        2
    } else {
        4
    }
}

/// An integer from -16 to 127 is its own single byte; any other takes a
/// marker and the fewest bytes that hold it.
pub open spec fn int_encoding(i: i64) -> Seq<u8> {
    if -16 <= i < 128 {
        seq![twos(i as int, 1) as u8]
    } else {
        seq![int_marker(int_width(i))] + be_bytes(twos(i as int, int_width(i)), int_width(i))
    }
}

/// The bytes of a text: the header for its length in UTF-8, then the UTF-8.
pub open spec fn encoded_text(text: Seq<char>) -> Result<Seq<u8>, EncodeError> {
    if encode_utf8(text).len() > MAX_SIZE {
        Err(EncodeError::ValueTooLarge)
    } else {
        Ok(size_header(TINY_TEXT, TEXT_8, encode_utf8(text).len()) + encode_utf8(text))
    }
}

/// The bytes that stand for a value, or why it has none.
pub open spec fn encoded(v: ValueView) -> Result<Seq<u8>, EncodeError>
    decreases v,
{
    match v {
        ValueView::Null => Ok(seq![NULL]),
        ValueView::Bool(b) => Ok(
            seq![if b {
                TRUE
            } else {
                FALSE
            }],
        ),
        ValueView::Int(i) => Ok(int_encoding(i)),
        ValueView::Float(bits) => Ok(seq![FLOAT] + be_bytes(bits as nat, 8)),
        ValueView::Bytes(bytes) => if bytes.len() > MAX_SIZE {
            Err(EncodeError::ValueTooLarge)
        } else {
            Ok(bytes_header(bytes.len()) + bytes)
        },
        ValueView::Text(text) => encoded_text(text),
        ValueView::List(items) => if items.len() > MAX_SIZE {
            Err(EncodeError::ValueTooLarge)
        } else {
            match encoded_seq(items) {
                Ok(body) => Ok(size_header(TINY_LIST, LIST_8, items.len()) + body),
                Err(e) => Err(e),
            }
        },
        ValueView::Dict(entries) => if entries.len() > MAX_SIZE {
            Err(EncodeError::ValueTooLarge)
        } else {
            match encoded_entries(entries) {
                Ok(body) => Ok(size_header(TINY_DICT, DICT_8, entries.len()) + body),
                Err(e) => Err(e),
            }
        },
        ValueView::Structure { marker, signature, fields } => if fields.len() > MAX_FIELDS {
            Err(EncodeError::ValueTooLarge)
        } else if marker != TINY_STRUCT + fields.len() {
            Err(EncodeError::ArityMismatch)
        } else {
            match encoded_seq(fields) {
                Ok(body) => Ok(seq![marker, signature] + body),
                Err(e) => Err(e),
            }
        },
    }
}

/// The encodings of the items one after another, or the first failure among them.
pub open spec fn encoded_seq(items: Seq<ValueView>) -> Result<Seq<u8>, EncodeError>
    decreases items,
{
    if items.len() == 0 {
        Ok(Seq::empty())
    } else {
        match encoded_seq(items.drop_last()) {
            Err(e) => Err(e),
            Ok(head) => match encoded(items.last()) {
                Err(e) => Err(e),
                Ok(tail) => Ok(head + tail),
            },
        }
    }
}

/// Each entry as its key, a text, then its value; or the first failure among them.
pub open spec fn encoded_entries(entries: Seq<(Seq<char>, ValueView)>) -> Result<
    Seq<u8>,
    EncodeError,
>
    decreases entries,
{
    if entries.len() == 0 {
        Ok(Seq::empty())
    } else {
        match encoded_entries(entries.drop_last()) {
            Err(e) => Err(e),
            Ok(head) => match encoded_text(entries.last().0) {
                Err(e) => Err(e),
                Ok(key) => match encoded(entries.last().1) {
                    Err(e) => Err(e),
                    Ok(value) => Ok(head + key + value),
                },
            },
        }
    }
}

/// The size of `width` bytes that follows the marker at `pos`, and where the payload begins.
pub open spec fn parse_sized(bytes: Seq<u8>, pos: int, width: nat) -> Result<
    (nat, int),
    DecodeError,
> {
    if pos + 1 + width > bytes.len() {
        Err(DecodeError::Incomplete)
    } else {
        Ok((be_value(bytes.subrange(pos + 1, pos + 1 + width)), pos + 1 + width))
    }
}

/// The size that the header at `pos` states, for the family with the markers
/// `tiny` and `sized`, and where the payload begins.
pub open spec fn parse_size(bytes: Seq<u8>, pos: int, tiny: u8, sized: u8) -> Result<
    (nat, int),
    DecodeError,
> {
    let marker = bytes[pos];
    if tiny <= marker <= tiny + 15 {
        Ok(((marker - tiny) as nat, pos + 1))
    } else if sized <= marker <= sized + 2 {
        parse_sized(bytes, pos, size_width(marker, sized))
    } else {
        Err(DecodeError::UnknownMarker)
    }
}

/// The `n` bytes at `pos`, and where they end.
pub open spec fn parse_blob(bytes: Seq<u8>, pos: int, n: nat) -> Result<
    (Seq<u8>, int),
    DecodeError,
> {
    if pos + n > bytes.len() {
        Err(DecodeError::Incomplete)
    } else {
        Ok((bytes.subrange(pos, pos + n), pos + n))
    }
}

/// The text that begins at `pos`, and where it ends.
pub open spec fn parse_text(bytes: Seq<u8>, pos: int) -> Result<(Seq<char>, int), DecodeError> {
    if !(0 <= pos < bytes.len()) {
        Err(DecodeError::Incomplete)
    } else {
        match parse_size(bytes, pos, TINY_TEXT, TEXT_8) {
            Err(e) => Err(e),
            Ok((n, at)) => match parse_blob(bytes, at, n) {
                Err(e) => Err(e),
                Ok((data, next)) => if valid_utf8(data) {
                    Ok((decode_utf8(data), next))
                } else {
                    Err(DecodeError::InvalidUtf8)
                },
            },
        }
    }
}

/// The map that holds the entries read: each in the order in which its key
/// first came, with the value that came last for that key.
pub open spec fn collected(raw: Seq<(Seq<char>, ValueView)>) -> Seq<(Seq<char>, ValueView)>
    decreases raw.len(),
{
    if raw.len() == 0 {
        Seq::empty()
    } else {
        inserted(collected(raw.drop_last()), raw.last().0, raw.last().1)
    }
}

/// The value that begins at `pos`, and where it ends; or why there is none.
///
/// Sizes and integers are accepted in any width, not only the smallest.
pub open spec fn parse(bytes: Seq<u8>, pos: int) -> Result<(ValueView, int), DecodeError>
    decreases bytes.len() - pos, 0nat,
{
    if !(0 <= pos < bytes.len()) {
        Err(DecodeError::Incomplete)
    } else {
        let marker = bytes[pos];
        if marker < TINY_TEXT {
            Ok((ValueView::Int(marker as i64), pos + 1))
        } else if marker < TINY_LIST || TEXT_8 <= marker <= TEXT_8 + 2 {
            match parse_text(bytes, pos) {
                Err(e) => Err(e),
                Ok((text, next)) => Ok((ValueView::Text(text), next)),
            }
        } else if marker < TINY_DICT || LIST_8 <= marker <= LIST_8 + 2 {
            match parse_size(bytes, pos, TINY_LIST, LIST_8) {
                Err(e) => Err(e),
                Ok((n, at)) => match parse_seq(bytes, at, n) {
                    Err(e) => Err(e),
                    Ok((items, next)) => Ok((ValueView::List(items), next)),
                },
            }
        } else if marker < TINY_STRUCT || DICT_8 <= marker <= DICT_8 + 2 {
            match parse_size(bytes, pos, TINY_DICT, DICT_8) {
                Err(e) => Err(e),
                Ok((n, at)) => match parse_entries(bytes, at, n) {
                    Err(e) => Err(e),
                    Ok((raw, next)) => Ok((ValueView::Dict(collected(raw)), next)),
                },
            }
        } else if marker < NULL {
            if pos + 2 > bytes.len() {
                Err(DecodeError::Incomplete)
            } else {
                match parse_seq(bytes, pos + 2, (marker - TINY_STRUCT) as nat) {
                    Err(e) => Err(e),
                    Ok((fields, next)) => Ok(
                        (ValueView::Structure { marker, signature: bytes[pos + 1], fields }, next),
                    ),
                }
            }
        } else if marker == NULL {
            Ok((ValueView::Null, pos + 1))
        } else if marker == FLOAT {
            match parse_sized(bytes, pos, 8) {
                Err(e) => Err(e),
                Ok((bits, next)) => Ok((ValueView::Float(bits as u64), next)),
            }
        } else if marker == FALSE {
            Ok((ValueView::Bool(false), pos + 1))
        } else if marker == TRUE {
            Ok((ValueView::Bool(true), pos + 1))
        } else if INT_8 <= marker <= INT_8 + 3 {
            match parse_sized(bytes, pos, marked_width(marker)) {
                Err(e) => Err(e),
                Ok((n, next)) => Ok(
                    (ValueView::Int(untwos(n, marked_width(marker)) as i64), next),
                ),
            }
        } else if BYTES_8 <= marker <= BYTES_8 + 2 {
            match parse_sized(bytes, pos, size_width(marker, BYTES_8)) {
                Err(e) => Err(e),
                Ok((n, at)) => match parse_blob(bytes, at, n) {
                    Err(e) => Err(e),
                    Ok((data, next)) => Ok((ValueView::Bytes(data), next)),
                },
            }
        } else if marker >= 0xF0 {
            Ok((ValueView::Int((marker - 0x100) as i64), pos + 1))
        } else {
            Err(DecodeError::UnknownMarker)
        }
    }
}

/// The `n` values that follow one another from `pos`, and where the last ends.
///
/// Every value takes at least one byte and ends inside the buffer
/// ([`crate::parsed::lemma_parse_advances`]), so the test on `next` never fails.
pub open spec fn parse_seq(bytes: Seq<u8>, pos: int, n: nat) -> Result<
    (Seq<ValueView>, int),
    DecodeError,
>
    decreases bytes.len() - pos, n + 1,
{
    if n == 0 {
        Ok((Seq::empty(), pos))
    } else {
        match parse(bytes, pos) {
            Err(e) => Err(e),
            Ok((first, next)) => if pos < next <= bytes.len() {
                match parse_seq(bytes, next, (n - 1) as nat) {
                    Err(e) => Err(e),
                    Ok((rest, end)) => Ok((seq![first] + rest, end)),
                }
            } else {
                Err(DecodeError::Incomplete)
            },
        }
    }
}

/// The `n` entries that follow one another from `pos`, each a text and a
/// value, and where the last ends.
pub open spec fn parse_entries(bytes: Seq<u8>, pos: int, n: nat) -> Result<
    (Seq<(Seq<char>, ValueView)>, int),
    DecodeError,
>
    decreases bytes.len() - pos, n + 1,
{
    if n == 0 {
        Ok((Seq::empty(), pos))
    } else {
        match parse_text(bytes, pos) {
            Err(e) => Err(e),
            Ok((key, at)) => match parse(bytes, at) {
                Err(e) => Err(e),
                Ok((value, next)) => if at < next <= bytes.len() {
                    match parse_entries(bytes, next, (n - 1) as nat) {
                        Err(e) => Err(e),
                        Ok((rest, end)) => Ok((seq![(key, value)] + rest, end)),
                    }
                } else {
                    Err(DecodeError::Incomplete)
                },
            },
        }
    }
}

} // verus!
