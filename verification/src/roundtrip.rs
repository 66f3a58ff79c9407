//! Reading back what was written gives the value that was written.

use vstd::prelude::*;
use vstd::utf8::{encode_utf8, encode_utf8_decode_utf8, encode_utf8_valid_utf8};
use crate::format::{
    bytes_header, collected, encoded, encoded_entries, encoded_seq, encoded_text, int_encoding,
    int_marker, int_width, marked_width, parse, parse_entries, parse_seq, parse_size, parse_sized,
    parse_text, size_header, size_width, sized_header, BYTES_8, DICT_8, FLOAT, LIST_8, MAX_SIZE,
    TEXT_8, TINY_DICT, TINY_LIST, TINY_TEXT,
};
use crate::error::{DecodeError, EncodeError};
use crate::parsed::{lemma_parse_advances, lemma_parse_extends};
use crate::value::{absent, distinct_keys, ValueView};
use crate::wire::{
    be_bytes, fits_signed, lemma_be_bytes_len, lemma_be_round_trip, lemma_span_values,
    lemma_twos_round_trip, twos,
};

verus! {

/// The bytes `piece` stand in `bytes` from `pos` on.
pub open spec fn holds_at(bytes: Seq<u8>, pos: int, piece: Seq<u8>) -> bool {
    &&& 0 <= pos
    &&& pos + piece.len() <= bytes.len()
    &&& bytes.subrange(pos, pos + piece.len()) == piece
}

pub proof fn lemma_holds_index(bytes: Seq<u8>, pos: int, piece: Seq<u8>, i: int)
    requires
        holds_at(bytes, pos, piece),
        0 <= i < piece.len(),
    ensures
        bytes[pos + i] == piece[i],
{
    assert(bytes.subrange(pos, pos + piece.len())[i] == bytes[pos + i]);
}

pub proof fn lemma_holds_split(bytes: Seq<u8>, pos: int, a: Seq<u8>, b: Seq<u8>)
    requires
        holds_at(bytes, pos, a + b),
    ensures
        holds_at(bytes, pos, a),
        holds_at(bytes, pos + a.len(), b),
{
    let whole = a + b;
    assert forall|i: int| 0 <= i < a.len() implies bytes.subrange(pos, pos + a.len())[i]
        == a[i] by {
        lemma_holds_index(bytes, pos, whole, i);
    }
    assert(bytes.subrange(pos, pos + a.len()) =~= a);
    assert forall|i: int| 0 <= i < b.len() implies bytes.subrange(
        pos + a.len(),
        pos + a.len() + b.len(),
    )[i] == b[i] by {
        lemma_holds_index(bytes, pos, whole, a.len() + i);
    }
    assert(bytes.subrange(pos + a.len(), pos + a.len() + b.len()) =~= b);
}

/// A size written after its marker is read back.
pub proof fn lemma_sized_parses(bytes: Seq<u8>, pos: int, sized: u8, n: nat)
    requires
        n <= MAX_SIZE,
        sized <= 0xFD,
        holds_at(bytes, pos, sized_header(sized, n)),
    ensures
        pos < bytes.len(),
        sized <= bytes[pos] <= sized + 2,
        parse_sized(bytes, pos, size_width(bytes[pos], sized)) == Ok::<(nat, int), DecodeError>(
            (n, pos + sized_header(sized, n).len()),
        ),
{
    lemma_span_values();
    let width: nat = if n < 0x100 {
        1
    } else if n < 0x1_0000 {
        2
    } else {
        4
    };
    let marker: u8 = if n < 0x100 {
        sized
    } else if n < 0x1_0000 {
        (sized + 1) as u8
    } else {
        (sized + 2) as u8
    };
    let header = sized_header(sized, n);
    assert(header == seq![marker] + be_bytes(n, width));
    lemma_be_bytes_len(n, width);
    lemma_be_round_trip(n, width);
    lemma_holds_split(bytes, pos, seq![marker], be_bytes(n, width));
    lemma_holds_index(bytes, pos, seq![marker], 0);
}

/// The header of a text, list or map is read back.
pub proof fn lemma_size_parses(bytes: Seq<u8>, pos: int, tiny: u8, sized: u8, n: nat)
    requires
        n <= MAX_SIZE,
        tiny + 15 < sized,
        sized <= 0xFD,
        holds_at(bytes, pos, size_header(tiny, sized, n)),
    ensures
        pos < bytes.len(),
        tiny <= bytes[pos] <= tiny + 15 || sized <= bytes[pos] <= sized + 2,
        parse_size(bytes, pos, tiny, sized) == Ok::<(nat, int), DecodeError>(
            (n, pos + size_header(tiny, sized, n).len()),
        ),
{
    if n <= 15 {
        lemma_holds_index(bytes, pos, size_header(tiny, sized, n), 0);
    } else {
        lemma_sized_parses(bytes, pos, sized, n);
    }
}

/// An integer is read back, whatever its width.
pub proof fn lemma_int_parses(i: i64, bytes: Seq<u8>, pos: int)
    requires
        holds_at(bytes, pos, int_encoding(i)),
    ensures
        parse(bytes, pos) == Ok::<(ValueView, int), DecodeError>(
            (ValueView::Int(i), pos + int_encoding(i).len()),
        ),
        int_encoding(i).len() > 0,
{
    lemma_span_values();
    if -16 <= i < 128 {
        lemma_holds_index(bytes, pos, int_encoding(i), 0);
    } else {
        let width = int_width(i);
        let n = twos(i as int, width);
        assert(fits_signed(i as int, width));
        lemma_twos_round_trip(i as int, width);
        lemma_be_bytes_len(n, width);
        lemma_be_round_trip(n, width);
        lemma_holds_split(bytes, pos, seq![int_marker(width)], be_bytes(n, width));
        lemma_holds_index(bytes, pos, seq![int_marker(width)], 0);
        assert(marked_width(bytes[pos]) == width);
    }
}

/// Up to fifteen bytes of UTF-8 the marker alone says the length of a text,
/// and no length follows; from sixteen to 255 the marker is `0xD0` and one
/// byte of length follows it.
pub proof fn lemma_text_boundary(text: Seq<char>)
    ensures
        encode_utf8(text).len() <= 15 ==> encoded_text(text) == Ok::<Seq<u8>, EncodeError>(
            seq![(TINY_TEXT + encode_utf8(text).len()) as u8] + encode_utf8(text),
        ),
        16 <= encode_utf8(text).len() <= 255 ==> encoded_text(text) == Ok::<
            Seq<u8>,
            EncodeError,
        >(seq![TEXT_8, encode_utf8(text).len() as u8] + encode_utf8(text)),
{
    let n = encode_utf8(text).len();
    if 16 <= n <= 255 {
        reveal_with_fuel(be_bytes, 2);
        assert(be_bytes(n, 1) =~= seq![n as u8]);
        assert(seq![TEXT_8] + be_bytes(n, 1) =~= seq![TEXT_8, n as u8]);
    }
}

/// A text is read back.
pub proof fn lemma_text_parses(text: Seq<char>, bytes: Seq<u8>, pos: int)
    requires
        encoded_text(text) is Ok,
        holds_at(bytes, pos, encoded_text(text)->Ok_0),
    ensures
        parse_text(bytes, pos) == Ok::<(Seq<char>, int), DecodeError>(
            (text, pos + encoded_text(text)->Ok_0.len()),
        ),
        pos < bytes.len(),
        TINY_TEXT <= bytes[pos] <= TINY_TEXT + 15 || TEXT_8 <= bytes[pos] <= TEXT_8 + 2,
{
    let data = encode_utf8(text);
    let header = size_header(TINY_TEXT, TEXT_8, data.len());
    lemma_holds_split(bytes, pos, header, data);
    lemma_size_parses(bytes, pos, TINY_TEXT, TEXT_8, data.len());
    encode_utf8_valid_utf8(text);
    encode_utf8_decode_utf8(text);
}

/// The encoding of a sequence is that of its first item, then that of the rest.
pub proof fn lemma_encoded_seq_front(items: Seq<ValueView>)
    requires
        items.len() > 0,
        encoded_seq(items) is Ok,
    ensures
        encoded(items[0]) is Ok,
        encoded_seq(items.drop_first()) is Ok,
        encoded_seq(items)->Ok_0 == encoded(items[0])->Ok_0 + encoded_seq(
            items.drop_first(),
        )->Ok_0,
    decreases items.len(),
{
    let front = items.drop_last();
    let rest = items.drop_first();
    if items.len() == 1 {
        assert(front =~= Seq::<ValueView>::empty());
        assert(rest =~= Seq::<ValueView>::empty());
        assert(encoded_seq(items)->Ok_0 =~= encoded(items[0])->Ok_0 + encoded_seq(rest)->Ok_0);
    } else {
        lemma_encoded_seq_front(front);
        assert(rest.drop_last() =~= front.drop_first());
        assert(rest.last() == items.last());
        assert(front[0] == items[0]);
        assert(encoded_seq(items)->Ok_0 =~= encoded(items[0])->Ok_0 + encoded_seq(rest)->Ok_0);
    }
}

/// The encoding of the entries is that of the first entry, then that of the rest.
pub proof fn lemma_encoded_entries_front(entries: Seq<(Seq<char>, ValueView)>)
    requires
        entries.len() > 0,
        encoded_entries(entries) is Ok,
    ensures
        encoded_text(entries[0].0) is Ok,
        encoded(entries[0].1) is Ok,
        encoded_entries(entries.drop_first()) is Ok,
        encoded_entries(entries)->Ok_0 == encoded_text(entries[0].0)->Ok_0 + encoded(
            entries[0].1,
        )->Ok_0 + encoded_entries(entries.drop_first())->Ok_0,
    decreases entries.len(),
{
    let front = entries.drop_last();
    let rest = entries.drop_first();
    if entries.len() == 1 {
        assert(front =~= Seq::<(Seq<char>, ValueView)>::empty());
        assert(rest =~= Seq::<(Seq<char>, ValueView)>::empty());
        assert(encoded_entries(entries)->Ok_0 =~= encoded_text(entries[0].0)->Ok_0 + encoded(
            entries[0].1,
        )->Ok_0 + encoded_entries(rest)->Ok_0);
    } else {
        lemma_encoded_entries_front(front);
        assert(rest.drop_last() =~= front.drop_first());
        assert(rest.last() == entries.last());
        assert(front[0] == entries[0]);
        assert(encoded_entries(entries)->Ok_0 =~= encoded_text(entries[0].0)->Ok_0 + encoded(
            entries[0].1,
        )->Ok_0 + encoded_entries(rest)->Ok_0);
    }
}

/// Entries with distinct keys are collected as they stand.
pub proof fn lemma_collected_distinct(entries: Seq<(Seq<char>, ValueView)>)
    requires
        distinct_keys(entries),
    ensures
        collected(entries) == entries,
    decreases entries.len(),
{
    if entries.len() == 0 {
        assert(collected(entries) =~= entries);
    } else {
        let front = entries.drop_last();
        assert forall|i: int, j: int| 0 <= i < j < front.len() implies (#[trigger] front[i]).0 != (
        #[trigger] front[j]).0 by {
            assert(entries[i].0 != entries[j].0);
        }
        lemma_collected_distinct(front);
        assert forall|j: int| 0 <= j < front.len() implies (#[trigger] front[j]).0
            != entries.last().0 by {
            assert(entries[j].0 != entries[entries.len() - 1].0);
        }
        assert(absent(front, entries.last().0));
        assert(collected(entries) =~= entries);
    }
}

/// A value that is well formed and has an encoding is read back from it,
/// wherever the encoding stands in a buffer.
pub proof fn lemma_parse_encoded(v: ValueView, bytes: Seq<u8>, pos: int)
    requires
        v.wf(),
        encoded(v) is Ok,
        holds_at(bytes, pos, encoded(v)->Ok_0),
    ensures
        parse(bytes, pos) == Ok::<(ValueView, int), DecodeError>(
            (v, pos + encoded(v)->Ok_0.len()),
        ),
        encoded(v)->Ok_0.len() > 0,
    decreases v,
{
    let enc = encoded(v)->Ok_0;
    lemma_span_values();
    match v {
        ValueView::Null => {
            lemma_holds_index(bytes, pos, enc, 0);
        },
        ValueView::Bool(b) => {
            lemma_holds_index(bytes, pos, enc, 0);
        },
        ValueView::Int(i) => {
            lemma_int_parses(i, bytes, pos);
        },
        ValueView::Float(bits) => {
            lemma_be_bytes_len(bits as nat, 8);
            lemma_be_round_trip(bits as nat, 8);
            lemma_holds_split(bytes, pos, seq![FLOAT], be_bytes(bits as nat, 8));
            lemma_holds_index(bytes, pos, seq![FLOAT], 0);
        },
        ValueView::Bytes(data) => {
            let header = bytes_header(data.len());
            lemma_holds_split(bytes, pos, header, data);
            lemma_sized_parses(bytes, pos, BYTES_8, data.len());
        },
        ValueView::Text(text) => {
            lemma_text_parses(text, bytes, pos);
        },
        ValueView::List(items) => {
            let header = size_header(TINY_LIST, LIST_8, items.len());
            let body = encoded_seq(items)->Ok_0;
            lemma_holds_split(bytes, pos, header, body);
            lemma_size_parses(bytes, pos, TINY_LIST, LIST_8, items.len());
            lemma_seq_parses(items, bytes, pos + header.len());
        },
        ValueView::Dict(entries) => {
            let header = size_header(TINY_DICT, DICT_8, entries.len());
            let body = encoded_entries(entries)->Ok_0;
            lemma_holds_split(bytes, pos, header, body);
            lemma_size_parses(bytes, pos, TINY_DICT, DICT_8, entries.len());
            lemma_entries_parse(entries, bytes, pos + header.len());
            lemma_collected_distinct(entries);
        },
        ValueView::Structure { marker, signature, fields } => {
            let header = seq![marker, signature];
            let body = encoded_seq(fields)->Ok_0;
            lemma_holds_split(bytes, pos, header, body);
            lemma_holds_index(bytes, pos, header, 0);
            lemma_holds_index(bytes, pos, header, 1);
            lemma_seq_parses(fields, bytes, pos + 2);
        },
    }
}

/// Values that are well formed and have encodings are read back, one after another.
pub proof fn lemma_seq_parses(items: Seq<ValueView>, bytes: Seq<u8>, pos: int)
    requires
        forall|i: int| 0 <= i < items.len() ==> (#[trigger] items[i]).wf(),
        encoded_seq(items) is Ok,
        holds_at(bytes, pos, encoded_seq(items)->Ok_0),
    ensures
        parse_seq(bytes, pos, items.len()) == Ok::<(Seq<ValueView>, int), DecodeError>(
            (items, pos + encoded_seq(items)->Ok_0.len()),
        ),
    decreases items,
{
    if items.len() == 0 {
        assert(items =~= Seq::<ValueView>::empty());
    } else {
        let first = items[0];
        let rest = items.drop_first();
        lemma_encoded_seq_front(items);
        let head = encoded(first)->Ok_0;
        let tail = encoded_seq(rest)->Ok_0;
        lemma_holds_split(bytes, pos, head, tail);
        assert(first.wf());
        lemma_parse_encoded(first, bytes, pos);
        assert forall|i: int| 0 <= i < rest.len() implies (#[trigger] rest[i]).wf() by {
            assert(items[i + 1].wf());
        }
        lemma_seq_parses(rest, bytes, pos + head.len());
        assert(seq![first] + rest =~= items);
    }
}

/// Entries that are well formed and have encodings are read back in their order.
pub proof fn lemma_entries_parse(entries: Seq<(Seq<char>, ValueView)>, bytes: Seq<u8>, pos: int)
    requires
        forall|i: int| 0 <= i < entries.len() ==> (#[trigger] entries[i]).1.wf(),
        encoded_entries(entries) is Ok,
        holds_at(bytes, pos, encoded_entries(entries)->Ok_0),
    ensures
        parse_entries(bytes, pos, entries.len()) == Ok::<
            (Seq<(Seq<char>, ValueView)>, int),
            DecodeError,
        >((entries, pos + encoded_entries(entries)->Ok_0.len())),
    decreases entries,
{
    if entries.len() == 0 {
        assert(entries =~= Seq::<(Seq<char>, ValueView)>::empty());
    } else {
        let first = entries[0];
        let rest = entries.drop_first();
        lemma_encoded_entries_front(entries);
        let key = encoded_text(first.0)->Ok_0;
        let value = encoded(first.1)->Ok_0;
        let tail = encoded_entries(rest)->Ok_0;
        lemma_holds_split(bytes, pos, key + value, tail);
        lemma_holds_split(bytes, pos, key, value);
        lemma_text_parses(first.0, bytes, pos);
        assert(first.1.wf());
        lemma_parse_encoded(first.1, bytes, pos + key.len());
        assert forall|i: int| 0 <= i < rest.len() implies (#[trigger] rest[i]).1.wf() by {
            assert(entries[i + 1].1.wf());
        }
        lemma_entries_parse(rest, bytes, pos + key.len() + value.len());
        assert(seq![first] + rest =~= entries);
    }
}

/// Decoding the encoding of a value gives the value back and uses up the
/// encoding, for every value that is well formed and has an encoding.
pub proof fn lemma_round_trip(v: ValueView)
    requires
        v.wf(),
        encoded(v) is Ok,
    ensures
        parse(encoded(v)->Ok_0, 0) == Ok::<(ValueView, int), DecodeError>(
            (v, encoded(v)->Ok_0.len() as int),
        ),
{
    let enc = encoded(v)->Ok_0;
    assert(enc.subrange(0, enc.len() as int) =~= enc);
    lemma_parse_encoded(v, enc, 0);
}

/// An encoding that is cut short anywhere is incomplete, and nothing else:
/// for every value that is well formed and has an encoding.
pub proof fn lemma_truncated_incomplete(v: ValueView, k: int)
    requires
        v.wf(),
        encoded(v) is Ok,
        0 <= k < encoded(v)->Ok_0.len(),
    ensures
        parse(encoded(v)->Ok_0.take(k), 0) == Err::<(ValueView, int), DecodeError>(
            DecodeError::Incomplete,
        ),
{
    let whole = encoded(v)->Ok_0;
    let cut = whole.take(k);
    assert(cut + whole.skip(k) =~= whole);
    lemma_round_trip(v);
    if parse(cut, 0) != Err::<(ValueView, int), DecodeError>(DecodeError::Incomplete) {
        lemma_parse_extends(cut, whole.skip(k), 0);
        lemma_parse_advances(cut, 0);
    }
}

/// No two well-formed values share an encoding.
pub proof fn lemma_encoding_injective(a: ValueView, b: ValueView)
    requires
        a.wf(),
        b.wf(),
        encoded(a) is Ok,
        encoded(a) == encoded(b),
    ensures
        a == b,
{
    lemma_round_trip(a);
    lemma_round_trip(b);
}

} // verus!
