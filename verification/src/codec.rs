//! The PackStream codec: from values to bytes and back.

use vstd::prelude::*;
use vstd::slice::{slice_subrange, slice_to_vec};
use vstd::utf8::{decode_utf8, valid_utf8};
use crate::error::{DecodeError, EncodeError};
use crate::format::{
    collected, encoded, encoded_entries, encoded_seq, encoded_text, int_encoding, parse,
    parse_blob, parse_entries, parse_seq, parse_size, parse_sized, parse_text, size_header,
    sized_header, BYTES_8, DICT_8, FALSE, FLOAT, INT_8, LIST_8, MAX_FIELDS, MAX_SIZE, NULL, TEXT_8,
    TINY_DICT, TINY_LIST, TINY_STRUCT, TINY_TEXT, TRUE,
};
use crate::parsed::{lemma_parse_wf, lemma_parsed_encodable};
use crate::value::{lemma_view_list, lemma_view_structure, views, BoltMap, Value, ValueView};
use crate::wire::{from_twos, get_be, lemma_span_values, put_be, span, to_twos};

verus! {

/// What was read before, then what is read from there on.
pub open spec fn prepend<T>(head: Seq<T>, rest: Result<(Seq<T>, int), DecodeError>) -> Result<
    (Seq<T>, int),
    DecodeError,
> {
    match rest {
        Ok((tail, end)) => Ok((head + tail, end)),
        Err(e) => Err(e),
    }
}

/// The first item without an encoding decides the failure of the sequence.
pub proof fn lemma_encoded_seq_failure(items: Seq<ValueView>, i: int)
    requires
        0 <= i < items.len(),
        encoded_seq(items.take(i)) is Ok,
        encoded(items[i]) is Err,
    ensures
        encoded_seq(items) == Err::<Seq<u8>, EncodeError>(encoded(items[i])->Err_0),
    decreases items.len(),
{
    if i == items.len() - 1 {
        assert(items.drop_last() =~= items.take(i));
    } else {
        assert(items.drop_last().take(i) =~= items.take(i));
        lemma_encoded_seq_failure(items.drop_last(), i);
    }
}

/// The first entry without an encoding decides the failure of the entries.
pub proof fn lemma_encoded_entries_failure(entries: Seq<(Seq<char>, ValueView)>, i: int)
    requires
        0 <= i < entries.len(),
        encoded_entries(entries.take(i)) is Ok,
        encoded_text(entries[i].0) is Err || encoded(entries[i].1) is Err,
    ensures
        encoded_entries(entries) == Err::<Seq<u8>, EncodeError>(
            if encoded_text(entries[i].0) is Err {
                encoded_text(entries[i].0)->Err_0
            } else {
                encoded(entries[i].1)->Err_0
            },
        ),
    decreases entries.len(),
{
    if i == entries.len() - 1 {
        assert(entries.drop_last() =~= entries.take(i));
    } else {
        assert(entries.drop_last().take(i) =~= entries.take(i));
        lemma_encoded_entries_failure(entries.drop_last(), i);
    }
}

/// `String::from_utf8`: the text that the bytes spell in UTF-8, or nothing
/// where they are not UTF-8.
#[verifier::external_body]
fn text_from_utf8(bytes: Vec<u8>) -> (r: Option<String>)
    ensures
        match r {
            Some(text) => valid_utf8(bytes@) && text@ == decode_utf8(bytes@),
            None => !valid_utf8(bytes@),
        },
{
    String::from_utf8(bytes).ok()
}

fn append(out: &mut Vec<u8>, data: &[u8])
    ensures
        final(out)@ == old(out)@ + data@,
{
    let mut i: usize = 0;
    assert(out@ =~= old(out)@ + data@.take(0));
    while i < data.len()
        invariant
            i <= data@.len(),
            out@ == old(out)@ + data@.take(i as int),
        decreases data@.len() - i,
    {
        out.push(data[i]);
        i += 1;
        assert(out@ =~= old(out)@ + data@.take(i as int));
    }
    assert(data@.take(data@.len() as int) =~= data@);
}

fn put_sized(out: &mut Vec<u8>, sized: u8, n: usize)
    requires
        n <= MAX_SIZE,
        sized <= 0xFD,
    ensures
        final(out)@ == old(out)@ + sized_header(sized, n as nat),
{
    if n < 0x100 {
        out.push(sized);
        put_be(out, n as u64, 1);
    } else if n < 0x1_0000 {
        out.push(sized + 1);
        put_be(out, n as u64, 2);
    } else {
        out.push(sized + 2);
        put_be(out, n as u64, 4);
    }
    assert(out@ =~= old(out)@ + sized_header(sized, n as nat));
}

fn put_size(out: &mut Vec<u8>, tiny: u8, sized: u8, n: usize)
    requires
        n <= MAX_SIZE,
        tiny <= 0xF0,
        sized <= 0xFD,
    ensures
        final(out)@ == old(out)@ + size_header(tiny, sized, n as nat),
{
    if n <= 15 {
        out.push(tiny + n as u8);
        assert(out@ =~= old(out)@ + size_header(tiny, sized, n as nat));
    } else {
        put_sized(out, sized, n);
    }
}

fn put_int(out: &mut Vec<u8>, i: i64)
    ensures
        final(out)@ == old(out)@ + int_encoding(i),
{
    proof {
        lemma_span_values();
    }
    if -16 <= i && i < 128 {
        let byte: u64 = to_twos(i, 1);
        out.push(byte as u8);
    } else if -0x80 <= i && i < 0x80 {
        out.push(INT_8);
        put_be(out, to_twos(i, 1), 1);
    } else if -0x8000 <= i && i < 0x8000 {
        out.push(INT_8 + 1);
        put_be(out, to_twos(i, 2), 2);
    } else if -0x8000_0000 <= i && i < 0x8000_0000 {
        out.push(INT_8 + 2);
        put_be(out, to_twos(i, 4), 4);
    } else {
        out.push(INT_8 + 3);
        put_be(out, to_twos(i, 8), 8);
    }
    assert(out@ =~= old(out)@ + int_encoding(i));
}

fn put_text(out: &mut Vec<u8>, text: &str) -> (r: Result<(), EncodeError>)
    ensures
        match r {
            Ok(()) => encoded_text(text@) matches Ok(b) && final(out)@ == old(out)@ + b,
            Err(e) => encoded_text(text@) == Err::<Seq<u8>, EncodeError>(e),
        },
{
    let data = text.as_bytes();
    if data.len() > MAX_SIZE {
        return Err(EncodeError::ValueTooLarge);
    }
    put_size(out, TINY_TEXT, TEXT_8, data.len());
    append(out, data);
    assert(out@ =~= old(out)@ + encoded_text(text@)->Ok_0);
    Ok(())
}

fn put_seq(out: &mut Vec<u8>, items: &Vec<Value>) -> (r: Result<(), EncodeError>)
    ensures
        match r {
            Ok(()) => encoded_seq(views(items@)) matches Ok(b) && final(out)@ == old(out)@ + b,
            Err(e) => encoded_seq(views(items@)) == Err::<Seq<u8>, EncodeError>(e),
        },
    decreases views(items@),
{
    let ghost all = views(items@);
    let mut i: usize = 0;
    assert(out@ =~= old(out)@ + encoded_seq(all.take(0))->Ok_0);
    while i < items.len()
        invariant
            i <= items@.len(),
            all == views(items@),
            encoded_seq(all.take(i as int)) matches Ok(b) && out@ == old(out)@ + b,
        decreases items@.len() - i,
    {
        let ghost before = encoded_seq(all.take(i as int))->Ok_0;
        proof {
            assert(all[i as int] == items@[i as int]@);
            assert(decreases_to!(all => all[i as int]));
            assert(all.take(i + 1).drop_last() =~= all.take(i as int));
            assert(all.take(i + 1).last() == all[i as int]);
        }
        match put_value(out, &items[i]) {
            Err(e) => {
                proof {
                    lemma_encoded_seq_failure(all, i as int);
                }
                return Err(e);
            },
            Ok(()) => {
                assert(out@ =~= old(out)@ + (before + encoded(all[i as int])->Ok_0));
            },
        }
        i += 1;
    }
    assert(all.take(i as int) =~= all);
    Ok(())
}

fn put_entries(out: &mut Vec<u8>, map: &BoltMap) -> (r: Result<(), EncodeError>)
    ensures
        match r {
            Ok(()) => encoded_entries(map@) matches Ok(b) && final(out)@ == old(out)@ + b,
            Err(e) => encoded_entries(map@) == Err::<Seq<u8>, EncodeError>(e),
        },
    decreases map@,
{
    let ghost all = map@;
    let mut i: usize = 0;
    assert(out@ =~= old(out)@ + encoded_entries(all.take(0))->Ok_0);
    while i < map.len()
        invariant
            i <= map@.len(),
            all == map@,
            encoded_entries(all.take(i as int)) matches Ok(b) && out@ == old(out)@ + b,
        decreases map@.len() - i,
    {
        let ghost before = encoded_entries(all.take(i as int))->Ok_0;
        proof {
            assert(decreases_to!(all => all[i as int]));
            assert(decreases_to!(all[i as int] => all[i as int].1));
            assert(all.take(i + 1).drop_last() =~= all.take(i as int));
            assert(all.take(i + 1).last() == all[i as int]);
        }
        match put_text(out, map.key_at(i).as_str()) {
            Err(e) => {
                proof {
                    lemma_encoded_entries_failure(all, i as int);
                }
                return Err(e);
            },
            Ok(()) => {},
        }
        match put_value(out, map.value_at(i)) {
            Err(e) => {
                proof {
                    lemma_encoded_entries_failure(all, i as int);
                }
                return Err(e);
            },
            Ok(()) => {
                assert(out@ =~= old(out)@ + (before + encoded_text(all[i as int].0)->Ok_0
                    + encoded(all[i as int].1)->Ok_0));
            },
        }
        i += 1;
    }
    assert(all.take(i as int) =~= all);
    Ok(())
}

fn put_value(out: &mut Vec<u8>, v: &Value) -> (r: Result<(), EncodeError>)
    ensures
        match r {
            Ok(()) => encoded(v@) matches Ok(b) && final(out)@ == old(out)@ + b,
            Err(e) => encoded(v@) == Err::<Seq<u8>, EncodeError>(e),
        },
    decreases v@,
{
    match v {
        Value::Null => {
            out.push(NULL);
            assert(out@ =~= old(out)@ + seq![NULL]);
            Ok(())
        },
        Value::Bool(b) => {
            out.push(if *b { TRUE } else { FALSE });
            assert(out@ =~= old(out)@ + encoded(v@)->Ok_0);
            Ok(())
        },
        Value::Int(i) => {
            put_int(out, *i);
            Ok(())
        },
        Value::Float(bits) => {
            out.push(FLOAT);
            put_be(out, *bits, 8);
            assert(out@ =~= old(out)@ + encoded(v@)->Ok_0);
            Ok(())
        },
        Value::Bytes(bytes) => {
            if bytes.len() > MAX_SIZE {
                return Err(EncodeError::ValueTooLarge);
            }
            put_sized(out, BYTES_8, bytes.len());
            append(out, bytes.as_slice());
            assert(out@ =~= old(out)@ + encoded(v@)->Ok_0);
            Ok(())
        },
        Value::Text(text) => put_text(out, text.as_str()),
        Value::List(items) => {
            proof {
                lemma_view_list(*items);
                assert(decreases_to!(v@ => v@->List_0));
            }
            if items.len() > MAX_SIZE {
                return Err(EncodeError::ValueTooLarge);
            }
            put_size(out, TINY_LIST, LIST_8, items.len());
            match put_seq(out, items) {
                Err(e) => Err(e),
                Ok(()) => {
                    assert(out@ =~= old(out)@ + encoded(v@)->Ok_0);
                    Ok(())
                },
            }
        },
        Value::Dict(map) => {
            proof {
                assert(decreases_to!(v@ => v@->Dict_0));
            }
            if map.len() > MAX_SIZE {
                return Err(EncodeError::ValueTooLarge);
            }
            put_size(out, TINY_DICT, DICT_8, map.len());
            match put_entries(out, map) {
                Err(e) => Err(e),
                Ok(()) => {
                    assert(out@ =~= old(out)@ + encoded(v@)->Ok_0);
                    Ok(())
                },
            }
        },
        Value::Structure { marker, signature, fields } => {
            proof {
                lemma_view_structure(*marker, *signature, *fields);
                assert(decreases_to!(v@ => v@->fields));
            }
            if fields.len() > MAX_FIELDS {
                return Err(EncodeError::ValueTooLarge);
            }
            if *marker != TINY_STRUCT + fields.len() as u8 {
                return Err(EncodeError::ArityMismatch);
            }
            out.push(*marker);
            out.push(*signature);
            match put_seq(out, fields) {
                Err(e) => Err(e),
                Ok(()) => {
                    assert(out@ =~= old(out)@ + encoded(v@)->Ok_0);
                    Ok(())
                },
            }
        },
    }
}

/// The bytes that stand for `v`, or why it has none.
pub fn encode(v: &Value) -> (r: Result<Vec<u8>, EncodeError>)
    ensures
        match r {
            Ok(bytes) => encoded(v@) == Ok::<Seq<u8>, EncodeError>(bytes@),
            Err(e) => encoded(v@) == Err::<Seq<u8>, EncodeError>(e),
        },
{
    let mut out: Vec<u8> = Vec::new();
    match put_value(&mut out, v) {
        Ok(()) => {
            assert(out@ =~= encoded(v@)->Ok_0);
            Ok(out)
        },
        Err(e) => Err(e),
    }
}

fn read_sized(buf: &[u8], pos: usize, width: usize) -> (r: Result<(u64, usize), DecodeError>)
    requires
        pos < buf@.len(),
        width == 1 || width == 2 || width == 4 || width == 8,
    ensures
        match r {
            Ok((n, at)) => parse_sized(buf@, pos as int, width as nat) == Ok::<
                (nat, int),
                DecodeError,
            >((n as nat, at as int)) && at == pos + 1 + width && at <= buf@.len() && (n as nat)
                < span(width as nat),
            Err(e) => parse_sized(buf@, pos as int, width as nat) == Err::<(nat, int), DecodeError>(
                e,
            ),
        },
{
    if buf.len() - pos - 1 < width {
        Err(DecodeError::Incomplete)
    } else {
        let n: u64 = get_be(buf, pos + 1, width);
        Ok((n, pos + 1 + width))
    }
}

fn read_size(buf: &[u8], pos: usize, tiny: u8, sized: u8) -> (r: Result<
    (usize, usize),
    DecodeError,
>)
    requires
        pos < buf@.len(),
        tiny <= 0xF0,
        sized <= 0xFD,
    ensures
        match r {
            Ok((n, at)) => parse_size(buf@, pos as int, tiny, sized) == Ok::<
                (nat, int),
                DecodeError,
            >((n as nat, at as int)) && pos < at <= buf@.len(),
            Err(e) => parse_size(buf@, pos as int, tiny, sized) == Err::<(nat, int), DecodeError>(
                e,
            ),
        },
{
    let marker: u8 = buf[pos];
    if tiny <= marker && marker <= tiny + 15 {
        Ok(((marker - tiny) as usize, pos + 1))
    } else if sized <= marker && marker <= sized + 2 {
        let width: usize = if marker == sized {
            1
        } else if marker == sized + 1 {
            2
        } else {
            4
        };
        proof {
            lemma_span_values();
        }
        match read_sized(buf, pos, width) {
            Err(e) => Err(e),
            Ok((n, at)) => Ok((n as usize, at)),
        }
    } else {
        Err(DecodeError::UnknownMarker)
    }
}

fn read_blob(buf: &[u8], pos: usize, n: usize) -> (r: Result<(Vec<u8>, usize), DecodeError>)
    requires
        pos <= buf@.len(),
    ensures
        match r {
            Ok((data, next)) => parse_blob(buf@, pos as int, n as nat) == Ok::<
                (Seq<u8>, int),
                DecodeError,
            >((data@, next as int)) && next == pos + n && next <= buf@.len(),
            Err(e) => parse_blob(buf@, pos as int, n as nat) == Err::<(Seq<u8>, int), DecodeError>(
                e,
            ),
        },
{
    if buf.len() - pos < n {
        Err(DecodeError::Incomplete)
    } else {
        let data = slice_to_vec(slice_subrange(buf, pos, pos + n));
        Ok((data, pos + n))
    }
}

fn read_text(buf: &[u8], pos: usize) -> (r: Result<(String, usize), DecodeError>)
    ensures
        match r {
            Ok((text, next)) => parse_text(buf@, pos as int) == Ok::<(Seq<char>, int), DecodeError>(
                (text@, next as int),
            ) && pos < next <= buf@.len(),
            Err(e) => parse_text(buf@, pos as int) == Err::<(Seq<char>, int), DecodeError>(e),
        },
{
    if pos >= buf.len() {
        return Err(DecodeError::Incomplete);
    }
    match read_size(buf, pos, TINY_TEXT, TEXT_8) {
        Err(e) => Err(e),
        Ok((n, at)) => match read_blob(buf, at, n) {
            Err(e) => Err(e),
            Ok((data, next)) => match text_from_utf8(data) {
                Some(text) => Ok((text, next)),
                None => Err(DecodeError::InvalidUtf8),
            },
        },
    }
}

fn read_seq(buf: &[u8], pos: usize, n: usize) -> (r: Result<(Vec<Value>, usize), DecodeError>)
    requires
        pos <= buf@.len(),
    ensures
        match r {
            Ok((items, end)) => parse_seq(buf@, pos as int, n as nat) == Ok::<
                (Seq<ValueView>, int),
                DecodeError,
            >((views(items@), end as int)) && pos <= end <= buf@.len(),
            Err(e) => parse_seq(buf@, pos as int, n as nat) == Err::<
                (Seq<ValueView>, int),
                DecodeError,
            >(e),
        },
    decreases buf@.len() - pos, n + 1,
{
    let ghost whole = parse_seq(buf@, pos as int, n as nat);
    let mut items: Vec<Value> = Vec::new();
    let mut at: usize = pos;
    let mut i: usize = 0;
    proof {
        assert(views(items@) =~= Seq::<ValueView>::empty());
        lemma_prepend_nothing(whole);
    }
    while i < n
        invariant
            i <= n,
            pos <= at <= buf@.len(),
            whole == parse_seq(buf@, pos as int, n as nat),
            whole == prepend(views(items@), parse_seq(buf@, at as int, (n - i) as nat)),
        decreases n - i,
    {
        let ghost so_far = views(items@);
        match read_value(buf, at) {
            Err(e) => {
                return Err(e);
            },
            Ok((v, next)) => {
                proof {
                    let rest = parse_seq(buf@, next as int, (n - i - 1) as nat);
                    assert(parse_seq(buf@, at as int, (n - i) as nat) == prepend(seq![v@], rest));
                    lemma_prepend_twice(so_far, seq![v@], rest);
                    assert(views(items@.push(v)) =~= so_far + seq![v@]);
                }
                items.push(v);
                at = next;
                i += 1;
            },
        }
    }
    proof {
        assert(views(items@) + Seq::<ValueView>::empty() =~= views(items@));
    }
    Ok((items, at))
}

fn read_entries(buf: &[u8], pos: usize, n: usize) -> (r: Result<(BoltMap, usize), DecodeError>)
    requires
        pos <= buf@.len(),
    ensures
        match r {
            Ok((map, end)) => parse_entries(buf@, pos as int, n as nat) matches Ok((raw, stop))
                && map@ == collected(raw) && stop == end && pos <= end <= buf@.len(),
            Err(e) => parse_entries(buf@, pos as int, n as nat) == Err::<
                (Seq<(Seq<char>, ValueView)>, int),
                DecodeError,
            >(e),
        },
    decreases buf@.len() - pos, n + 1,
{
    let ghost whole = parse_entries(buf@, pos as int, n as nat);
    let ghost mut raw: Seq<(Seq<char>, ValueView)> = Seq::empty();
    let mut map = BoltMap::new();
    let mut at: usize = pos;
    let mut i: usize = 0;
    proof {
        lemma_prepend_nothing(whole);
    }
    while i < n
        invariant
            i <= n,
            pos <= at <= buf@.len(),
            whole == parse_entries(buf@, pos as int, n as nat),
            whole == prepend(raw, parse_entries(buf@, at as int, (n - i) as nat)),
            map@ == collected(raw),
        decreases n - i,
    {
        match read_text(buf, at) {
            Err(e) => {
                return Err(e);
            },
            Ok((key, mid)) => match read_value(buf, mid) {
                Err(e) => {
                    return Err(e);
                },
                Ok((v, next)) => {
                    proof {
                        let rest = parse_entries(buf@, next as int, (n - i - 1) as nat);
                        assert(parse_entries(buf@, at as int, (n - i) as nat) == prepend(
                            seq![(key@, v@)],
                            rest,
                        ));
                        lemma_prepend_twice(raw, seq![(key@, v@)], rest);
                        assert(raw.push((key@, v@)) =~= raw + seq![(key@, v@)]);
                        assert(raw.push((key@, v@)).drop_last() =~= raw);
                        raw = raw.push((key@, v@));
                    }
                    map.put(key, v);
                    at = next;
                    i += 1;
                },
            },
        }
    }
    proof {
        assert(raw + Seq::<(Seq<char>, ValueView)>::empty() =~= raw);
    }
    Ok((map, at))
}

fn read_value(buf: &[u8], pos: usize) -> (r: Result<(Value, usize), DecodeError>)
    ensures
        match r {
            Ok((v, next)) => parse(buf@, pos as int) == Ok::<(ValueView, int), DecodeError>(
                (v@, next as int),
            ) && pos < next <= buf@.len(),
            Err(e) => parse(buf@, pos as int) == Err::<(ValueView, int), DecodeError>(e),
        },
    decreases buf@.len() - pos, 0nat,
{
    if pos >= buf.len() {
        return Err(DecodeError::Incomplete);
    }
    let marker: u8 = buf[pos];
    proof {
        lemma_span_values();
    }
    if marker < TINY_TEXT {
        Ok((Value::Int(marker as i64), pos + 1))
    } else if marker < TINY_LIST || (TEXT_8 <= marker && marker <= TEXT_8 + 2) {
        match read_text(buf, pos) {
            Err(e) => Err(e),
            Ok((text, next)) => Ok((Value::Text(text), next)),
        }
    } else if marker < TINY_DICT || (LIST_8 <= marker && marker <= LIST_8 + 2) {
        match read_size(buf, pos, TINY_LIST, LIST_8) {
            Err(e) => Err(e),
            Ok((n, at)) => match read_seq(buf, at, n) {
                Err(e) => Err(e),
                Ok((items, next)) => {
                    proof {
                        lemma_view_list(items);
                    }
                    Ok((Value::List(items), next))
                },
            },
        }
    } else if marker < TINY_STRUCT || (DICT_8 <= marker && marker <= DICT_8 + 2) {
        match read_size(buf, pos, TINY_DICT, DICT_8) {
            Err(e) => Err(e),
            Ok((n, at)) => match read_entries(buf, at, n) {
                Err(e) => Err(e),
                Ok((map, next)) => Ok((Value::Dict(map), next)),
            },
        }
    } else if marker < NULL {
        if buf.len() - pos < 2 {
            Err(DecodeError::Incomplete)
        } else {
            let signature: u8 = buf[pos + 1];
            match read_seq(buf, pos + 2, (marker - TINY_STRUCT) as usize) {
                Err(e) => Err(e),
                Ok((fields, next)) => {
                    proof {
                        lemma_view_structure(marker, signature, fields);
                    }
                    Ok((Value::Structure { marker, signature, fields }, next))
                },
            }
        }
    } else if marker == NULL {
        Ok((Value::Null, pos + 1))
    } else if marker == FLOAT {
        match read_sized(buf, pos, 8) {
            Err(e) => Err(e),
            Ok((bits, next)) => Ok((Value::Float(bits), next)),
        }
    } else if marker == FALSE {
        Ok((Value::Bool(false), pos + 1))
    } else if marker == TRUE {
        Ok((Value::Bool(true), pos + 1))
    } else if INT_8 <= marker && marker <= INT_8 + 3 {
        let width: usize = if marker == INT_8 {
            1
        } else if marker == INT_8 + 1 {
            2
        } else if marker == INT_8 + 2 {
            4
        } else {
            8
        };
        match read_sized(buf, pos, width) {
            Err(e) => Err(e),
            Ok((n, next)) => Ok((Value::Int(from_twos(n, width)), next)),
        }
    } else if BYTES_8 <= marker && marker <= BYTES_8 + 2 {
        let width: usize = if marker == BYTES_8 {
            1
        } else if marker == BYTES_8 + 1 {
            2
        } else {
            4
        };
        match read_sized(buf, pos, width) {
            Err(e) => Err(e),
            Ok((n, at)) => match read_blob(buf, at, n as usize) {
                Err(e) => Err(e),
                Ok((data, next)) => Ok((Value::Bytes(data), next)),
            },
        }
    } else if marker >= 0xF0 {
        Ok((Value::Int(marker as i64 - 0x100), pos + 1))
    } else {
        Err(DecodeError::UnknownMarker)
    }
}

/// Reading nothing before changes nothing.
pub proof fn lemma_prepend_nothing<T>(rest: Result<(Seq<T>, int), DecodeError>)
    ensures
        prepend(Seq::<T>::empty(), rest) == rest,
{
    if let Ok((tail, end)) = rest {
        assert(Seq::<T>::empty() + tail =~= tail);
    }
}

/// Reading `a`, then `b`, then the rest is reading `a` and `b`, then the rest.
pub proof fn lemma_prepend_twice<T>(a: Seq<T>, b: Seq<T>, rest: Result<(Seq<T>, int), DecodeError>)
    ensures
        prepend(a, prepend(b, rest)) == prepend(a + b, rest),
{
    if let Ok((tail, end)) = rest {
        assert(a + (b + tail) =~= (a + b) + tail);
    }
}

/// The value that begins at `pos` in `buf`, and the position that follows
/// it. What is read is well formed and can be encoded again. The buffer is
/// only read: after a failure the same call, on a longer buffer with the
/// same beginning, starts afresh.
pub fn decode_at(buf: &[u8], pos: usize) -> (r: Result<(Value, usize), DecodeError>)
    ensures
        match r {
            Ok((v, next)) => parse(buf@, pos as int) == Ok::<(ValueView, int), DecodeError>(
                (v@, next as int),
            ) && pos < next <= buf@.len() && v@.wf() && encoded(v@) is Ok,
            Err(e) => parse(buf@, pos as int) == Err::<(ValueView, int), DecodeError>(e),
        },
{
    let r = read_value(buf, pos);
    proof {
        if r is Ok {
            lemma_parse_wf(buf@, pos as int);
            lemma_parsed_encodable(buf@, pos as int);
        }
    }
    r
}

/// The value at the beginning of `buf`, and the number of bytes that it takes.
pub fn decode(buf: &[u8]) -> (r: Result<(Value, usize), DecodeError>)
    ensures
        match r {
            Ok((v, used)) => parse(buf@, 0) == Ok::<(ValueView, int), DecodeError>(
                (v@, used as int),
            ) && 0 < used <= buf@.len() && v@.wf() && encoded(v@) is Ok,
            Err(e) => parse(buf@, 0) == Err::<(ValueView, int), DecodeError>(e),
        },
{
    decode_at(buf, 0)
}

/// A place in a buffer, from which values are read one after another. It
/// moves on only past what was read: after a failure it stands where it stood.
#[derive(Debug, Clone, Copy, PartialEq, Eq)]
pub struct Cursor {
    pub position: usize,
}

impl Cursor {
    /// A cursor at the beginning of a buffer.
    pub fn new() -> (cursor: Cursor)
        ensures
            cursor.position == 0,
    {
        Cursor { position: 0 }
    }

    /// The value that begins at the cursor.
    pub fn read(&mut self, buf: &[u8]) -> (r: Result<Value, DecodeError>)
        ensures
            match r {
                Ok(v) => parse(buf@, old(self).position as int) == Ok::<
                    (ValueView, int),
                    DecodeError,
                >((v@, final(self).position as int)) && old(self).position < final(self).position
                    <= buf@.len() && v@.wf() && encoded(v@) is Ok,
                Err(e) => parse(buf@, old(self).position as int) == Err::<
                    (ValueView, int),
                    DecodeError,
                >(e) && final(self).position == old(self).position,
            },
    {
        match decode_at(buf, self.position) {
            Ok((v, next)) => {
                self.position = next;
                Ok(v)
            },
            Err(e) => Err(e),
        }
    }
}

} // verus!
