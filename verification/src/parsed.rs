//! What holds of everything that is read from a buffer.

use vstd::prelude::*;
use crate::format::{
    collected, encoded, encoded_entries, encoded_seq, encoded_text, marked_width, parse, parse_blob, parse_entries, parse_seq, parse_size, parse_sized,
    parse_text, size_width, BYTES_8, DICT_8, FLOAT, INT_8, LIST_8, NULL, TEXT_8, TINY_DICT,
    TINY_LIST, TINY_STRUCT, TINY_TEXT, MAX_SIZE,
};
use crate::error::DecodeError;
use crate::wire::{lemma_be_value_bound, lemma_span_values};
use vstd::utf8::decode_utf8_encode_utf8;
use crate::value::{
    absent, distinct_keys, first_at, inserted, lemma_first_exists, lemma_inserted_distinct,
    ValueView,
};

verus! {

/// Every value of every entry is well formed.
pub open spec fn values_wf(entries: Seq<(Seq<char>, ValueView)>) -> bool {
    forall|i: int| 0 <= i < entries.len() ==> (#[trigger] entries[i]).1.wf()
}

/// Values that are read one after another are as many as were asked for,
/// and end inside the buffer.
pub proof fn lemma_parse_seq_advances(bytes: Seq<u8>, pos: int, n: nat)
    requires
        parse_seq(bytes, pos, n) is Ok,
        0 <= pos <= bytes.len(),
    ensures
        parse_seq(bytes, pos, n)->Ok_0.0.len() == n,
        pos <= parse_seq(bytes, pos, n)->Ok_0.1 <= bytes.len(),
    decreases n,
{
    if n > 0 {
        let next = parse(bytes, pos)->Ok_0.1;
        lemma_parse_seq_advances(bytes, next, (n - 1) as nat);
    }
}

/// Entries that are read one after another are as many as were asked for,
/// and end inside the buffer.
pub proof fn lemma_parse_entries_advance(bytes: Seq<u8>, pos: int, n: nat)
    requires
        parse_entries(bytes, pos, n) is Ok,
        0 <= pos <= bytes.len(),
    ensures
        parse_entries(bytes, pos, n)->Ok_0.0.len() == n,
        pos <= parse_entries(bytes, pos, n)->Ok_0.1 <= bytes.len(),
    decreases n,
{
    if n > 0 {
        let at = parse_text(bytes, pos)->Ok_0.1;
        let next = parse(bytes, at)->Ok_0.1;
        lemma_parse_entries_advance(bytes, next, (n - 1) as nat);
    }
}

/// A value that is read takes at least one byte and ends inside the buffer.
pub proof fn lemma_parse_advances(bytes: Seq<u8>, pos: int)
    requires
        parse(bytes, pos) is Ok,
    ensures
        0 <= pos < parse(bytes, pos)->Ok_0.1 <= bytes.len(),
{
    let marker = bytes[pos];
    if TINY_LIST <= marker < TINY_DICT || LIST_8
        <= marker <= LIST_8 + 2 {
        let (n, at) = parse_size(
            bytes,
            pos,
            TINY_LIST,
            LIST_8,
        )->Ok_0;
        lemma_parse_seq_advances(bytes, at, n);
    } else if TINY_DICT <= marker < TINY_STRUCT
        || DICT_8 <= marker <= DICT_8 + 2 {
        let (n, at) = parse_size(
            bytes,
            pos,
            TINY_DICT,
            DICT_8,
        )->Ok_0;
        lemma_parse_entries_advance(bytes, at, n);
    } else if TINY_STRUCT <= marker < NULL {
        lemma_parse_seq_advances(bytes, pos + 2, (marker - TINY_STRUCT) as nat);
    }
}

/// Giving a key a well-formed value keeps the values well formed.
pub proof fn lemma_inserted_values_wf(
    entries: Seq<(Seq<char>, ValueView)>,
    key: Seq<char>,
    value: ValueView,
)
    requires
        values_wf(entries),
        value.wf(),
    ensures
        values_wf(inserted(entries, key, value)),
{
    let after = inserted(entries, key, value);
    if !absent(entries, key) {
        let w = choose|w: int| 0 <= w < entries.len() && (#[trigger] entries[w]).0 == key;
        lemma_first_exists(entries, key, w);
        let k = choose|k: int| first_at(entries, key, k);
        assert forall|i: int| 0 <= i < after.len() implies (#[trigger] after[i]).1.wf() by {
            if i != k {
                assert(entries[i].1.wf());
            }
        }
    } else {
        assert forall|i: int| 0 <= i < after.len() implies (#[trigger] after[i]).1.wf() by {
            if i < entries.len() {
                assert(entries[i].1.wf());
            }
        }
    }
}

/// The entries that are collected into a map have distinct keys, and
/// well-formed values where those that were read are well formed.
pub proof fn lemma_collected_wf(raw: Seq<(Seq<char>, ValueView)>)
    requires
        values_wf(raw),
    ensures
        distinct_keys(collected(raw)),
        values_wf(collected(raw)),
    decreases raw.len(),
{
    if raw.len() > 0 {
        let front = raw.drop_last();
        assert forall|i: int| 0 <= i < front.len() implies (#[trigger] front[i]).1.wf() by {
            assert(raw[i].1.wf());
        }
        lemma_collected_wf(front);
        assert(raw[raw.len() - 1].1.wf());
        lemma_inserted_distinct(collected(front), raw.last().0, raw.last().1);
        lemma_inserted_values_wf(collected(front), raw.last().0, raw.last().1);
    }
}

/// Every value that is read is well formed.
pub proof fn lemma_parse_wf(bytes: Seq<u8>, pos: int)
    requires
        parse(bytes, pos) is Ok,
    ensures
        parse(bytes, pos)->Ok_0.0.wf(),
    decreases bytes.len() - pos, 0nat,
{
    let marker = bytes[pos];
    if TINY_LIST <= marker < TINY_DICT || LIST_8
        <= marker <= LIST_8 + 2 {
        let (n, at) = parse_size(
            bytes,
            pos,
            TINY_LIST,
            LIST_8,
        )->Ok_0;
        lemma_parse_seq_wf(bytes, at, n);
    } else if TINY_DICT <= marker < TINY_STRUCT
        || DICT_8 <= marker <= DICT_8 + 2 {
        let (n, at) = parse_size(
            bytes,
            pos,
            TINY_DICT,
            DICT_8,
        )->Ok_0;
        lemma_parse_entries_wf(bytes, at, n);
        lemma_collected_wf(parse_entries(bytes, at, n)->Ok_0.0);
    } else if TINY_STRUCT <= marker < NULL {
        let n = (marker - TINY_STRUCT) as nat;
        lemma_parse_seq_wf(bytes, pos + 2, n);
        lemma_parse_seq_advances(bytes, pos + 2, n);
    }
}

/// Every value that is read in a sequence is well formed.
pub proof fn lemma_parse_seq_wf(bytes: Seq<u8>, pos: int, n: nat)
    requires
        parse_seq(bytes, pos, n) is Ok,
    ensures
        forall|i: int|
            0 <= i < parse_seq(bytes, pos, n)->Ok_0.0.len() ==> (#[trigger] parse_seq(
                bytes,
                pos,
                n,
            )->Ok_0.0[i]).wf(),
    decreases bytes.len() - pos, n + 1,
{
    if n > 0 {
        let (first, next) = parse(bytes, pos)->Ok_0;
        lemma_parse_wf(bytes, pos);
        lemma_parse_seq_wf(bytes, next, (n - 1) as nat);
        let rest = parse_seq(bytes, next, (n - 1) as nat)->Ok_0.0;
        let all = parse_seq(bytes, pos, n)->Ok_0.0;
        assert(all == seq![first] + rest);
        assert forall|i: int| 0 <= i < all.len() implies (#[trigger] all[i]).wf() by {
            if i > 0 {
                assert(all[i] == rest[i - 1]);
            }
        }
    }
}

/// Every value that is read in an entry is well formed.
pub proof fn lemma_parse_entries_wf(bytes: Seq<u8>, pos: int, n: nat)
    requires
        parse_entries(bytes, pos, n) is Ok,
    ensures
        values_wf(parse_entries(bytes, pos, n)->Ok_0.0),
    decreases bytes.len() - pos, n + 1,
{
    if n > 0 {
        let (key, at) = parse_text(bytes, pos)->Ok_0;
        let (value, next) = parse(bytes, at)->Ok_0;
        lemma_parse_wf(bytes, at);
        lemma_parse_entries_wf(bytes, next, (n - 1) as nat);
        let rest = parse_entries(bytes, next, (n - 1) as nat)->Ok_0.0;
        let all = parse_entries(bytes, pos, n)->Ok_0.0;
        assert(all == seq![(key, value)] + rest);
        assert forall|i: int| 0 <= i < all.len() implies (#[trigger] all[i]).1.wf() by {
            if i > 0 {
                assert(all[i] == rest[i - 1]);
            }
        }
    }
}

/// Whether a result is final: more bytes at the end of the buffer cannot
/// change it.
pub open spec fn is_final<T>(r: Result<T, DecodeError>) -> bool {
    r != Err::<T, DecodeError>(DecodeError::Incomplete)
}

proof fn lemma_subrange_extends(bytes: Seq<u8>, more: Seq<u8>, from: int, to: int)
    requires
        0 <= from <= to <= bytes.len(),
    ensures
        (bytes + more).subrange(from, to) == bytes.subrange(from, to),
{
    assert((bytes + more).subrange(from, to) =~= bytes.subrange(from, to));
}

proof fn lemma_sized_extends(bytes: Seq<u8>, more: Seq<u8>, pos: int, width: nat)
    requires
        0 <= pos,
        is_final(parse_sized(bytes, pos, width)),
    ensures
        parse_sized(bytes + more, pos, width) == parse_sized(bytes, pos, width),
{
    lemma_subrange_extends(bytes, more, pos + 1, pos + 1 + width);
}

proof fn lemma_size_extends(bytes: Seq<u8>, more: Seq<u8>, pos: int, tiny: u8, sized: u8)
    requires
        0 <= pos < bytes.len(),
        is_final(parse_size(bytes, pos, tiny, sized)),
    ensures
        parse_size(bytes + more, pos, tiny, sized) == parse_size(bytes, pos, tiny, sized),
{
    let marker = bytes[pos];
    assert((bytes + more)[pos] == marker);
    if !(tiny <= marker <= tiny + 15) && sized <= marker <= sized + 2 {
        lemma_sized_extends(bytes, more, pos, size_width(marker, sized));
    }
}

proof fn lemma_blob_extends(bytes: Seq<u8>, more: Seq<u8>, pos: int, n: nat)
    requires
        0 <= pos,
        is_final(parse_blob(bytes, pos, n)),
    ensures
        parse_blob(bytes + more, pos, n) == parse_blob(bytes, pos, n),
{
    lemma_subrange_extends(bytes, more, pos, pos + n);
}

/// A text that was read, or refused for good, is the same in a longer buffer.
pub proof fn lemma_text_extends(bytes: Seq<u8>, more: Seq<u8>, pos: int)
    requires
        is_final(parse_text(bytes, pos)),
    ensures
        parse_text(bytes + more, pos) == parse_text(bytes, pos),
{
    lemma_size_extends(bytes, more, pos, TINY_TEXT, TEXT_8);
    if let Ok((n, at)) = parse_size(bytes, pos, TINY_TEXT, TEXT_8) {
        lemma_blob_extends(bytes, more, at, n);
    }
}

/// What was read from a buffer, and every failure but
/// [`DecodeError::Incomplete`], is the same once more bytes have arrived:
/// only an incomplete value is worth a second try.
pub proof fn lemma_parse_extends(bytes: Seq<u8>, more: Seq<u8>, pos: int)
    requires
        is_final(parse(bytes, pos)),
    ensures
        parse(bytes + more, pos) == parse(bytes, pos),
    decreases bytes.len() - pos, 0nat,
{
    let longer = bytes + more;
    let marker = bytes[pos];
    assert(longer[pos] == marker);
    if marker < TINY_TEXT {
    } else if marker < TINY_LIST || TEXT_8 <= marker <= TEXT_8 + 2 {
        lemma_text_extends(bytes, more, pos);
    } else if marker < TINY_DICT || LIST_8 <= marker <= LIST_8 + 2 {
        lemma_size_extends(bytes, more, pos, TINY_LIST, LIST_8);
        if let Ok((n, at)) = parse_size(bytes, pos, TINY_LIST, LIST_8) {
            lemma_parse_seq_extends(bytes, more, at, n);
        }
    } else if marker < TINY_STRUCT || DICT_8 <= marker <= DICT_8 + 2 {
        lemma_size_extends(bytes, more, pos, TINY_DICT, DICT_8);
        if let Ok((n, at)) = parse_size(bytes, pos, TINY_DICT, DICT_8) {
            lemma_parse_entries_extend(bytes, more, at, n);
        }
    } else if marker < NULL {
        assert(longer[pos + 1] == bytes[pos + 1]);
        lemma_parse_seq_extends(bytes, more, pos + 2, (marker - TINY_STRUCT) as nat);
    } else if marker == FLOAT {
        lemma_sized_extends(bytes, more, pos, 8);
    } else if INT_8 <= marker <= INT_8 + 3 {
        lemma_sized_extends(bytes, more, pos, marked_width(marker));
    } else if BYTES_8 <= marker <= BYTES_8 + 2 {
        lemma_sized_extends(bytes, more, pos, size_width(marker, BYTES_8));
        if let Ok((n, at)) = parse_sized(bytes, pos, size_width(marker, BYTES_8)) {
            lemma_blob_extends(bytes, more, at, n);
        }
    }
}

/// Values that were read one after another, or refused for good, are the
/// same in a longer buffer.
pub proof fn lemma_parse_seq_extends(bytes: Seq<u8>, more: Seq<u8>, pos: int, n: nat)
    requires
        is_final(parse_seq(bytes, pos, n)),
    ensures
        parse_seq(bytes + more, pos, n) == parse_seq(bytes, pos, n),
    decreases bytes.len() - pos, n + 1,
{
    if n > 0 {
        lemma_parse_extends(bytes, more, pos);
        if let Ok((first, next)) = parse(bytes, pos) {
            lemma_parse_seq_extends(bytes, more, next, (n - 1) as nat);
        }
    }
}

/// Entries that were read one after another, or refused for good, are the
/// same in a longer buffer.
pub proof fn lemma_parse_entries_extend(bytes: Seq<u8>, more: Seq<u8>, pos: int, n: nat)
    requires
        is_final(parse_entries(bytes, pos, n)),
    ensures
        parse_entries(bytes + more, pos, n) == parse_entries(bytes, pos, n),
    decreases bytes.len() - pos, n + 1,
{
    if n > 0 {
        lemma_text_extends(bytes, more, pos);
        if let Ok((key, at)) = parse_text(bytes, pos) {
            lemma_parse_extends(bytes, more, at);
            if let Ok((value, next)) = parse(bytes, at) {
                lemma_parse_entries_extend(bytes, more, next, (n - 1) as nat);
            }
        }
    }
}

/// Every key and every value of the entries has an encoding.
pub open spec fn entries_encodable(entries: Seq<(Seq<char>, ValueView)>) -> bool {
    forall|i: int|
        0 <= i < entries.len() ==> encoded_text((#[trigger] entries[i]).0) is Ok && encoded(
            entries[i].1,
        ) is Ok
}

/// A sequence has an encoding where each of its items has one.
pub proof fn lemma_encoded_seq_ok(items: Seq<ValueView>)
    requires
        forall|i: int| 0 <= i < items.len() ==> encoded(#[trigger] items[i]) is Ok,
    ensures
        encoded_seq(items) is Ok,
    decreases items.len(),
{
    if items.len() > 0 {
        let front = items.drop_last();
        assert forall|i: int| 0 <= i < front.len() implies encoded(#[trigger] front[i]) is Ok by {
            assert(front[i] == items[i]);
        }
        lemma_encoded_seq_ok(front);
        assert(encoded(items[items.len() - 1]) is Ok);
    }
}

/// Entries have an encoding where each key and each value has one.
pub proof fn lemma_encoded_entries_ok(entries: Seq<(Seq<char>, ValueView)>)
    requires
        entries_encodable(entries),
    ensures
        encoded_entries(entries) is Ok,
    decreases entries.len(),
{
    if entries.len() > 0 {
        let front = entries.drop_last();
        assert forall|i: int| 0 <= i < front.len() implies encoded_text(
            (#[trigger] front[i]).0,
        ) is Ok && encoded(front[i].1) is Ok by {
            assert(front[i] == entries[i]);
        }
        lemma_encoded_entries_ok(front);
        let last = entries[entries.len() - 1];
        assert(encoded_text(last.0) is Ok && encoded(last.1) is Ok);
    }
}

/// Giving a key a value adds at most one entry, and keeps the entries encodable.
pub proof fn lemma_inserted_encodable(
    entries: Seq<(Seq<char>, ValueView)>,
    key: Seq<char>,
    value: ValueView,
)
    requires
        entries_encodable(entries),
        encoded_text(key) is Ok,
        encoded(value) is Ok,
    ensures
        entries_encodable(inserted(entries, key, value)),
        inserted(entries, key, value).len() <= entries.len() + 1,
{
    let after = inserted(entries, key, value);
    if !absent(entries, key) {
        let w = choose|w: int| 0 <= w < entries.len() && (#[trigger] entries[w]).0 == key;
        lemma_first_exists(entries, key, w);
        let k = choose|k: int| first_at(entries, key, k);
        assert forall|i: int| 0 <= i < after.len() implies encoded_text(
            (#[trigger] after[i]).0,
        ) is Ok && encoded(after[i].1) is Ok by {
            if i != k {
                assert(after[i] == entries[i]);
            }
        }
    } else {
        assert forall|i: int| 0 <= i < after.len() implies encoded_text(
            (#[trigger] after[i]).0,
        ) is Ok && encoded(after[i].1) is Ok by {
            if i < entries.len() {
                assert(after[i] == entries[i]);
            }
        }
    }
}

/// The entries that are collected into a map are no more than those that
/// were read, and encodable where those are.
pub proof fn lemma_collected_encodable(raw: Seq<(Seq<char>, ValueView)>)
    requires
        entries_encodable(raw),
    ensures
        entries_encodable(collected(raw)),
        collected(raw).len() <= raw.len(),
    decreases raw.len(),
{
    if raw.len() > 0 {
        let front = raw.drop_last();
        assert forall|i: int| 0 <= i < front.len() implies encoded_text(
            (#[trigger] front[i]).0,
        ) is Ok && encoded(front[i].1) is Ok by {
            assert(front[i] == raw[i]);
        }
        lemma_collected_encodable(front);
        let last = raw[raw.len() - 1];
        assert(encoded_text(last.0) is Ok && encoded(last.1) is Ok);
        lemma_inserted_encodable(collected(front), last.0, last.1);
    }
}

proof fn lemma_sized_bound(bytes: Seq<u8>, pos: int, width: nat)
    requires
        parse_sized(bytes, pos, width) is Ok,
        0 <= pos,
        width <= 4,
    ensures
        parse_sized(bytes, pos, width)->Ok_0.0 <= MAX_SIZE,
{
    lemma_span_values();
    lemma_be_value_bound(bytes.subrange(pos + 1, pos + 1 + width));
}

proof fn lemma_size_bound(bytes: Seq<u8>, pos: int, tiny: u8, sized: u8)
    requires
        parse_size(bytes, pos, tiny, sized) is Ok,
        0 <= pos < bytes.len(),
    ensures
        parse_size(bytes, pos, tiny, sized)->Ok_0.0 <= MAX_SIZE,
{
    let marker = bytes[pos];
    if !(tiny <= marker <= tiny + 15) {
        lemma_sized_bound(bytes, pos, size_width(marker, sized));
    }
}

/// A text that is read has an encoding.
pub proof fn lemma_parsed_text_encodable(bytes: Seq<u8>, pos: int)
    requires
        parse_text(bytes, pos) is Ok,
    ensures
        encoded_text(parse_text(bytes, pos)->Ok_0.0) is Ok,
{
    lemma_size_bound(bytes, pos, TINY_TEXT, TEXT_8);
    let (n, at) = parse_size(bytes, pos, TINY_TEXT, TEXT_8)->Ok_0;
    let data = parse_blob(bytes, at, n)->Ok_0.0;
    decode_utf8_encode_utf8(data);
}

/// Every value that is read has an encoding: what comes in can go out again.
pub proof fn lemma_parsed_encodable(bytes: Seq<u8>, pos: int)
    requires
        parse(bytes, pos) is Ok,
    ensures
        encoded(parse(bytes, pos)->Ok_0.0) is Ok,
    decreases bytes.len() - pos, 0nat,
{
    let marker = bytes[pos];
    if marker < TINY_TEXT {
    } else if marker < TINY_LIST || TEXT_8 <= marker <= TEXT_8 + 2 {
        lemma_parsed_text_encodable(bytes, pos);
    } else if marker < TINY_DICT || LIST_8 <= marker <= LIST_8 + 2 {
        lemma_size_bound(bytes, pos, TINY_LIST, LIST_8);
        let (n, at) = parse_size(bytes, pos, TINY_LIST, LIST_8)->Ok_0;
        lemma_parsed_seq_encodable(bytes, at, n);
        lemma_parse_seq_advances(bytes, at, n);
        lemma_encoded_seq_ok(parse_seq(bytes, at, n)->Ok_0.0);
    } else if marker < TINY_STRUCT || DICT_8 <= marker <= DICT_8 + 2 {
        lemma_size_bound(bytes, pos, TINY_DICT, DICT_8);
        let (n, at) = parse_size(bytes, pos, TINY_DICT, DICT_8)->Ok_0;
        lemma_parsed_entries_encodable(bytes, at, n);
        lemma_parse_entries_advance(bytes, at, n);
        let raw = parse_entries(bytes, at, n)->Ok_0.0;
        lemma_collected_encodable(raw);
        lemma_encoded_entries_ok(collected(raw));
    } else if marker < NULL {
        let n = (marker - TINY_STRUCT) as nat;
        lemma_parsed_seq_encodable(bytes, pos + 2, n);
        lemma_parse_seq_advances(bytes, pos + 2, n);
        lemma_encoded_seq_ok(parse_seq(bytes, pos + 2, n)->Ok_0.0);
    } else if BYTES_8 <= marker <= BYTES_8 + 2 {
        lemma_sized_bound(bytes, pos, size_width(marker, BYTES_8));
    }
}

/// Every value that is read in a sequence has an encoding.
pub proof fn lemma_parsed_seq_encodable(bytes: Seq<u8>, pos: int, n: nat)
    requires
        parse_seq(bytes, pos, n) is Ok,
    ensures
        forall|i: int|
            0 <= i < parse_seq(bytes, pos, n)->Ok_0.0.len() ==> encoded(
                #[trigger] parse_seq(bytes, pos, n)->Ok_0.0[i],
            ) is Ok,
    decreases bytes.len() - pos, n + 1,
{
    if n > 0 {
        let (first, next) = parse(bytes, pos)->Ok_0;
        lemma_parsed_encodable(bytes, pos);
        lemma_parsed_seq_encodable(bytes, next, (n - 1) as nat);
        let rest = parse_seq(bytes, next, (n - 1) as nat)->Ok_0.0;
        let all = parse_seq(bytes, pos, n)->Ok_0.0;
        assert(all == seq![first] + rest);
        assert forall|i: int| 0 <= i < all.len() implies encoded(#[trigger] all[i]) is Ok by {
            if i > 0 {
                assert(all[i] == rest[i - 1]);
            }
        }
    }
}

/// Every key and every value that is read in an entry has an encoding.
pub proof fn lemma_parsed_entries_encodable(bytes: Seq<u8>, pos: int, n: nat)
    requires
        parse_entries(bytes, pos, n) is Ok,
    ensures
        entries_encodable(parse_entries(bytes, pos, n)->Ok_0.0),
    decreases bytes.len() - pos, n + 1,
{
    if n > 0 {
        let (key, at) = parse_text(bytes, pos)->Ok_0;
        let (value, next) = parse(bytes, at)->Ok_0;
        lemma_parsed_text_encodable(bytes, pos);
        lemma_parsed_encodable(bytes, at);
        lemma_parsed_entries_encodable(bytes, next, (n - 1) as nat);
        let rest = parse_entries(bytes, next, (n - 1) as nat)->Ok_0.0;
        let all = parse_entries(bytes, pos, n)->Ok_0.0;
        assert(all == seq![(key, value)] + rest);
        assert forall|i: int| 0 <= i < all.len() implies encoded_text((#[trigger] all[i]).0) is Ok
            && encoded(all[i].1) is Ok by {
            if i > 0 {
                assert(all[i] == rest[i - 1]);
            }
        }
    }
}

} // verus!
