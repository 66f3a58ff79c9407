use bolt_codec::codec::{decode, decode_at, encode, Cursor};
use bolt_codec::error::{DecodeError, EncodeError};
use bolt_codec::value::{BoltMap, Value};

fn text_of(len: usize) -> String {
    let mut s = String::new();
    for i in 0..len {
        s.push((b'a' + (i % 26) as u8) as char);
    }
    s
}

fn round_trips(v: Value) {
    let bytes = encode(&v).unwrap();
    let (back, used) = decode(&bytes).unwrap();
    assert_eq!(back, v);
    assert_eq!(used, bytes.len());
}

fn sample_map() -> BoltMap {
    let mut inner = BoltMap::new();
    inner.put("k".to_string(), Value::Null);
    let mut map = BoltMap::new();
    map.put("name".to_string(), Value::Text("Ada".to_string()));
    map.put("age".to_string(), Value::Int(36));
    map.put("tags".to_string(), Value::List(vec![Value::Bool(true), Value::Dict(inner)]));
    map
}

#[test]
fn encodes_null_and_booleans() {
    assert_eq!(encode(&Value::Null).unwrap(), vec![0xC0]);
    assert_eq!(encode(&Value::Bool(false)).unwrap(), vec![0xC2]);
    assert_eq!(encode(&Value::Bool(true)).unwrap(), vec![0xC3]);
}

#[test]
fn encodes_small_integers_as_one_byte() {
    assert_eq!(encode(&Value::Int(0)).unwrap(), vec![0x00]);
    assert_eq!(encode(&Value::Int(1)).unwrap(), vec![0x01]);
    assert_eq!(encode(&Value::Int(127)).unwrap(), vec![0x7F]);
    assert_eq!(encode(&Value::Int(-1)).unwrap(), vec![0xFF]);
    assert_eq!(encode(&Value::Int(-16)).unwrap(), vec![0xF0]);
}

#[test]
fn encodes_integers_in_the_smallest_width() {
    assert_eq!(encode(&Value::Int(-17)).unwrap(), vec![0xC8, 0xEF]);
    assert_eq!(encode(&Value::Int(-128)).unwrap(), vec![0xC8, 0x80]);
    assert_eq!(encode(&Value::Int(128)).unwrap(), vec![0xC9, 0x00, 0x80]);
    assert_eq!(encode(&Value::Int(-129)).unwrap(), vec![0xC9, 0xFF, 0x7F]);
    assert_eq!(encode(&Value::Int(32767)).unwrap(), vec![0xC9, 0x7F, 0xFF]);
    assert_eq!(encode(&Value::Int(-32768)).unwrap(), vec![0xC9, 0x80, 0x00]);
    assert_eq!(encode(&Value::Int(32768)).unwrap(), vec![0xCA, 0x00, 0x00, 0x80, 0x00]);
    assert_eq!(encode(&Value::Int(-32769)).unwrap(), vec![0xCA, 0xFF, 0xFF, 0x7F, 0xFF]);
    assert_eq!(encode(&Value::Int(2147483647)).unwrap(), vec![0xCA, 0x7F, 0xFF, 0xFF, 0xFF]);
    assert_eq!(encode(&Value::Int(-2147483648)).unwrap(), vec![0xCA, 0x80, 0x00, 0x00, 0x00]);
    assert_eq!(
        encode(&Value::Int(2147483648)).unwrap(),
        vec![0xCB, 0x00, 0x00, 0x00, 0x00, 0x80, 0x00, 0x00, 0x00]
    );
    assert_eq!(
        encode(&Value::Int(i64::MAX)).unwrap(),
        vec![0xCB, 0x7F, 0xFF, 0xFF, 0xFF, 0xFF, 0xFF, 0xFF, 0xFF]
    );
    assert_eq!(
        encode(&Value::Int(i64::MIN)).unwrap(),
        vec![0xCB, 0x80, 0x00, 0x00, 0x00, 0x00, 0x00, 0x00, 0x00]
    );
}

#[test]
fn encodes_a_float_as_its_eight_bytes() {
    let bits = 1.23f64.to_bits();
    assert_eq!(
        encode(&Value::Float(bits)).unwrap(),
        vec![0xC1, 0x3F, 0xF3, 0xAE, 0x14, 0x7A, 0xE1, 0x47, 0xAE]
    );
    let (back, used) = decode(&[0xC1, 0x3F, 0xF3, 0xAE, 0x14, 0x7A, 0xE1, 0x47, 0xAE]).unwrap();
    assert_eq!(used, 9);
    match back {
        Value::Float(b) => assert_eq!(f64::from_bits(b), 1.23),
        _ => panic!("not a float"),
    }
}

#[test]
fn text_of_fifteen_bytes_is_tiny() {
    let s = text_of(15);
    let bytes = encode(&Value::Text(s.clone())).unwrap();
    assert_eq!(bytes.len(), 16);
    assert_eq!(bytes[0], 0x8F);
    assert_eq!(&bytes[1..], s.as_bytes());
}

#[test]
fn text_of_sixteen_bytes_has_a_length_byte() {
    let s = text_of(16);
    let bytes = encode(&Value::Text(s.clone())).unwrap();
    assert_eq!(bytes.len(), 18);
    assert_eq!(bytes[0], 0xD0);
    assert_eq!(bytes[1], 0x10);
    assert_eq!(&bytes[2..], s.as_bytes());
}

#[test]
fn text_sizes_pick_the_smallest_header() {
    assert_eq!(encode(&Value::Text(String::new())).unwrap(), vec![0x80]);
    assert_eq!(encode(&Value::Text("a".to_string())).unwrap(), vec![0x81, 0x61]);
    let b255 = encode(&Value::Text(text_of(255))).unwrap();
    assert_eq!(&b255[..2], &[0xD0, 0xFF]);
    assert_eq!(b255.len(), 257);
    let b256 = encode(&Value::Text(text_of(256))).unwrap();
    assert_eq!(&b256[..3], &[0xD1, 0x01, 0x00]);
    assert_eq!(b256.len(), 259);
    let b65535 = encode(&Value::Text(text_of(65535))).unwrap();
    assert_eq!(&b65535[..3], &[0xD1, 0xFF, 0xFF]);
    let b65536 = encode(&Value::Text(text_of(65536))).unwrap();
    assert_eq!(&b65536[..5], &[0xD2, 0x00, 0x01, 0x00, 0x00]);
    assert_eq!(b65536.len(), 65541);
}

#[test]
fn text_length_counts_utf8_bytes() {
    assert_eq!(encode(&Value::Text("é".to_string())).unwrap(), vec![0x82, 0xC3, 0xA9]);
    let s = "ééééérrr".to_string() + "ééé";
    assert_eq!(s.chars().count(), 11);
    assert_eq!(s.len(), 19);
    let bytes = encode(&Value::Text(s)).unwrap();
    assert_eq!(&bytes[..2], &[0xD0, 19]);
}

#[test]
fn byte_strings_always_carry_a_size() {
    assert_eq!(encode(&Value::Bytes(vec![])).unwrap(), vec![0xCC, 0x00]);
    assert_eq!(encode(&Value::Bytes(vec![1, 2, 3])).unwrap(), vec![0xCC, 0x03, 1, 2, 3]);
    let big = encode(&Value::Bytes(vec![7; 256])).unwrap();
    assert_eq!(&big[..3], &[0xCD, 0x01, 0x00]);
    assert_eq!(big.len(), 259);
    let bigger = encode(&Value::Bytes(vec![7; 65536])).unwrap();
    assert_eq!(&bigger[..5], &[0xCE, 0x00, 0x01, 0x00, 0x00]);
}

#[test]
fn lists_count_their_items() {
    assert_eq!(encode(&Value::List(vec![])).unwrap(), vec![0x90]);
    let three = Value::List(vec![Value::Int(1), Value::Int(2), Value::Int(3)]);
    assert_eq!(encode(&three).unwrap(), vec![0x93, 1, 2, 3]);
    let fifteen = Value::List(vec![Value::Null; 15]);
    assert_eq!(encode(&fifteen).unwrap()[0], 0x9F);
    let sixteen = Value::List(vec![Value::Null; 16]);
    let bytes = encode(&sixteen).unwrap();
    assert_eq!(&bytes[..2], &[0xD4, 0x10]);
    assert_eq!(bytes.len(), 18);
    let many = Value::List(vec![Value::Null; 256]);
    assert_eq!(&encode(&many).unwrap()[..3], &[0xD5, 0x01, 0x00]);
}

#[test]
fn maps_count_their_entries_and_keep_their_order() {
    assert_eq!(encode(&Value::Dict(BoltMap::new())).unwrap(), vec![0xA0]);
    let mut map = BoltMap::new();
    map.put("b".to_string(), Value::Int(1));
    map.put("a".to_string(), Value::Int(2));
    assert_eq!(
        encode(&Value::Dict(map)).unwrap(),
        vec![0xA2, 0x81, 0x62, 0x01, 0x81, 0x61, 0x02]
    );
    let mut big = BoltMap::new();
    for i in 0..16 {
        big.put(format!("k{}", i), Value::Int(i));
    }
    assert_eq!(&encode(&Value::Dict(big)).unwrap()[..2], &[0xD8, 0x10]);
}

#[test]
fn structures_carry_marker_signature_and_fields() {
    let v = Value::Structure { marker: 0xB2, signature: 0x4E, fields: vec![Value::Int(1), Value::Null] };
    assert_eq!(encode(&v).unwrap(), vec![0xB2, 0x4E, 0x01, 0xC0]);
    let none = Value::Structure { marker: 0xB0, signature: 0x0F, fields: vec![] };
    assert_eq!(encode(&none).unwrap(), vec![0xB0, 0x0F]);
}

#[test]
fn structure_with_sixteen_fields_is_too_large() {
    let v = Value::Structure { marker: 0xB0, signature: 0x01, fields: vec![Value::Null; 16] };
    assert_eq!(encode(&v), Err(EncodeError::ValueTooLarge));
    let inside = Value::List(vec![Value::Int(1), v]);
    assert_eq!(encode(&inside), Err(EncodeError::ValueTooLarge));
}

#[test]
fn structure_whose_marker_disagrees_is_refused() {
    let v = Value::Structure { marker: 0xB1, signature: 0x01, fields: vec![] };
    assert_eq!(encode(&v), Err(EncodeError::ArityMismatch));
    let w = Value::Structure { marker: 0x91, signature: 0x01, fields: vec![Value::Null] };
    assert_eq!(encode(&w), Err(EncodeError::ArityMismatch));
    let mut map = BoltMap::new();
    map.put("x".to_string(), v);
    assert_eq!(encode(&Value::Dict(map)), Err(EncodeError::ArityMismatch));
}

#[test]
fn decodes_scalars() {
    assert_eq!(decode(&[0xC0]).unwrap(), (Value::Null, 1));
    assert_eq!(decode(&[0xC2]).unwrap(), (Value::Bool(false), 1));
    assert_eq!(decode(&[0xC3]).unwrap(), (Value::Bool(true), 1));
    assert_eq!(decode(&[0x00]).unwrap(), (Value::Int(0), 1));
    assert_eq!(decode(&[0x7F]).unwrap(), (Value::Int(127), 1));
    assert_eq!(decode(&[0xF0]).unwrap(), (Value::Int(-16), 1));
    assert_eq!(decode(&[0xFF]).unwrap(), (Value::Int(-1), 1));
    assert_eq!(decode(&[0xC8, 0x80]).unwrap(), (Value::Int(-128), 2));
    assert_eq!(decode(&[0xC9, 0x80, 0x00]).unwrap(), (Value::Int(-32768), 3));
    assert_eq!(decode(&[0xCA, 0x80, 0x00, 0x00, 0x00]).unwrap(), (Value::Int(-2147483648), 5));
    assert_eq!(
        decode(&[0xCB, 0x80, 0, 0, 0, 0, 0, 0, 0]).unwrap(),
        (Value::Int(i64::MIN), 9)
    );
    assert_eq!(
        decode(&[0xCB, 0x7F, 0xFF, 0xFF, 0xFF, 0xFF, 0xFF, 0xFF, 0xFF]).unwrap(),
        (Value::Int(i64::MAX), 9)
    );
}

#[test]
fn decodes_wider_forms_than_needed() {
    assert_eq!(decode(&[0xC8, 0x01]).unwrap(), (Value::Int(1), 2));
    assert_eq!(decode(&[0xC9, 0x00, 0x01]).unwrap(), (Value::Int(1), 3));
    assert_eq!(decode(&[0xCB, 0xFF, 0xFF, 0xFF, 0xFF, 0xFF, 0xFF, 0xFF, 0xFF]).unwrap(), (Value::Int(-1), 9));
    assert_eq!(decode(&[0xD0, 0x01, 0x61]).unwrap(), (Value::Text("a".to_string()), 3));
    assert_eq!(decode(&[0xD2, 0, 0, 0, 1, 0x61]).unwrap(), (Value::Text("a".to_string()), 6));
    assert_eq!(decode(&[0xD4, 0x01, 0xC0]).unwrap(), (Value::List(vec![Value::Null]), 3));
    assert_eq!(decode(&[0xD9, 0x00, 0x00]).unwrap(), (Value::Dict(BoltMap::new()), 3));
}

#[test]
fn decodes_collections() {
    assert_eq!(
        decode(&[0x93, 1, 2, 3]).unwrap(),
        (Value::List(vec![Value::Int(1), Value::Int(2), Value::Int(3)]), 4)
    );
    let mut map = BoltMap::new();
    map.put("a".to_string(), Value::Int(1));
    assert_eq!(decode(&[0xA1, 0x81, 0x61, 0x01]).unwrap(), (Value::Dict(map), 4));
    assert_eq!(decode(&[0xCC, 0x02, 9, 8]).unwrap(), (Value::Bytes(vec![9, 8]), 4));
    assert_eq!(
        decode(&[0xB1, 0x71, 0x91, 0x2A]).unwrap(),
        (
            Value::Structure {
                marker: 0xB1,
                signature: 0x71,
                fields: vec![Value::List(vec![Value::Int(42)])]
            },
            4
        )
    );
}

#[test]
fn decode_leaves_what_follows() {
    let buf = [0x01, 0x81, 0x61, 0xC0];
    let (first, at) = decode_at(&buf, 0).unwrap();
    assert_eq!((first, at), (Value::Int(1), 1));
    let (second, at) = decode_at(&buf, at).unwrap();
    assert_eq!((second, at), (Value::Text("a".to_string()), 3));
    let (third, at) = decode_at(&buf, at).unwrap();
    assert_eq!((third, at), (Value::Null, 4));
    assert_eq!(decode_at(&buf, at), Err(DecodeError::Incomplete));
    assert_eq!(decode_at(&buf, 100), Err(DecodeError::Incomplete));
}

#[test]
fn a_key_that_comes_twice_keeps_its_place_and_its_last_value() {
    let buf = [0xA3, 0x81, 0x61, 0x01, 0x81, 0x62, 0x02, 0x81, 0x61, 0x03];
    let (v, used) = decode(&buf).unwrap();
    assert_eq!(used, buf.len());
    let mut map = BoltMap::new();
    map.put("a".to_string(), Value::Int(3));
    map.put("b".to_string(), Value::Int(2));
    assert_eq!(v, Value::Dict(map));
}

#[test]
fn unknown_markers_are_refused() {
    for marker in [0xC4u8, 0xC5, 0xC6, 0xC7, 0xCF, 0xD3, 0xD7, 0xDB, 0xDC, 0xDD, 0xE0, 0xEF] {
        assert_eq!(decode(&[marker, 0, 0, 0, 0, 0, 0, 0, 0]), Err(DecodeError::UnknownMarker));
    }
    assert_eq!(decode(&[0x92, 0x01, 0xC5]), Err(DecodeError::UnknownMarker));
}

#[test]
fn a_map_key_has_to_be_text() {
    assert_eq!(decode(&[0xA1, 0x01, 0x01]), Err(DecodeError::UnknownMarker));
    assert_eq!(decode(&[0xA1, 0xC0, 0x01]), Err(DecodeError::UnknownMarker));
}

#[test]
fn text_has_to_be_utf8() {
    assert_eq!(decode(&[0x81, 0xFF]), Err(DecodeError::InvalidUtf8));
    assert_eq!(decode(&[0x82, 0xC3, 0x28]), Err(DecodeError::InvalidUtf8));
    assert_eq!(decode(&[0xA1, 0x81, 0x80, 0x01]), Err(DecodeError::InvalidUtf8));
}

#[test]
fn an_empty_buffer_is_incomplete() {
    assert_eq!(decode(&[]), Err(DecodeError::Incomplete));
}

#[test]
fn every_proper_prefix_is_incomplete() {
    let v = Value::Structure {
        marker: 0xB3,
        signature: 0x10,
        fields: vec![
            Value::Text(text_of(40)),
            Value::Dict(sample_map()),
            Value::List(vec![Value::Int(-70000), Value::Float(2.5f64.to_bits()), Value::Bytes(vec![1, 2, 3])]),
        ],
    };
    let bytes = encode(&v).unwrap();
    for cut in 0..bytes.len() {
        assert_eq!(decode(&bytes[..cut]), Err(DecodeError::Incomplete), "cut at {}", cut);
    }
    assert_eq!(decode(&bytes).unwrap(), (v, bytes.len()));
}

#[test]
fn values_round_trip() {
    round_trips(Value::Null);
    round_trips(Value::Bool(true));
    round_trips(Value::Bool(false));
    for i in [0i64, 1, -1, 127, 128, -16, -17, -128, -129, 32767, 32768, -32768, -32769,
        2147483647, 2147483648, -2147483648, -2147483649, i64::MAX, i64::MIN] {
        round_trips(Value::Int(i));
    }
    round_trips(Value::Float(0f64.to_bits()));
    round_trips(Value::Float((-1.5e300f64).to_bits()));
    round_trips(Value::Float(f64::NAN.to_bits()));
    round_trips(Value::Bytes(vec![]));
    round_trips(Value::Bytes(vec![0xFF; 300]));
    for len in [0usize, 1, 15, 16, 255, 256, 65535, 65536] {
        round_trips(Value::Text(text_of(len)));
    }
    round_trips(Value::Text("héllo wörld ✓ 𝄞".to_string()));
    round_trips(Value::List(vec![]));
    round_trips(Value::List(vec![Value::Int(7); 300]));
    round_trips(Value::Dict(BoltMap::new()));
    round_trips(Value::Dict(sample_map()));
    round_trips(Value::Structure { marker: 0xB0, signature: 0x0F, fields: vec![] });
    round_trips(Value::Structure {
        marker: 0xBF,
        signature: 0x55,
        fields: vec![Value::Dict(sample_map()); 15],
    });
    round_trips(Value::List(vec![
        Value::List(vec![Value::List(vec![Value::Text("deep".to_string())])]),
        Value::Dict(sample_map()),
    ]));
}

#[test]
fn a_cursor_moves_only_past_what_was_read() {
    let whole = [0x01, 0x85, 0x68, 0x65, 0x6C, 0x6C, 0x6F, 0xC3];
    let mut cursor = Cursor::new();
    assert_eq!(cursor.position, 0);
    assert_eq!(cursor.read(&whole[..3]), Ok(Value::Int(1)));
    assert_eq!(cursor.position, 1);
    assert_eq!(cursor.read(&whole[..3]), Err(DecodeError::Incomplete));
    assert_eq!(cursor.position, 1);
    assert_eq!(cursor.read(&whole[..6]), Err(DecodeError::Incomplete));
    assert_eq!(cursor.position, 1);
    assert_eq!(cursor.read(&whole), Ok(Value::Text("hello".to_string())));
    assert_eq!(cursor.position, 7);
    assert_eq!(cursor.read(&whole), Ok(Value::Bool(true)));
    assert_eq!(cursor.position, 8);
    assert_eq!(cursor.read(&whole), Err(DecodeError::Incomplete));
    assert_eq!(cursor.position, 8);
    let mut other = Cursor { position: 0 };
    assert_eq!(other.read(&[0xC5]), Err(DecodeError::UnknownMarker));
    assert_eq!(other.position, 0);
}

#[test]
fn what_is_decoded_is_well_formed() {
    let buf = [0xB2, 0x01, 0xA2, 0x81, 0x61, 0x01, 0x81, 0x61, 0x02, 0x91, 0xB0, 0x05];
    let (v, used) = decode(&buf).unwrap();
    assert_eq!(used, buf.len());
    assert!(v.is_well_formed());
    assert_eq!(encode(&v).unwrap(), vec![0xB2, 0x01, 0xA1, 0x81, 0x61, 0x02, 0x91, 0xB0, 0x05]);
}

#[test]
fn more_bytes_change_nothing_that_was_read() {
    let mut buf = encode(&Value::Dict(sample_map())).unwrap();
    let used = buf.len();
    let first = decode(&buf).unwrap();
    buf.extend_from_slice(&[0xC5, 0xFF, 0x00]);
    assert_eq!(decode(&buf).unwrap(), first);
    assert_eq!(first.1, used);
    let mut bad = vec![0x92, 0x01, 0xC5];
    assert_eq!(decode(&bad), Err(DecodeError::UnknownMarker));
    bad.extend_from_slice(&[0x01, 0x02]);
    assert_eq!(decode(&bad), Err(DecodeError::UnknownMarker));
}

#[test]
fn different_values_have_different_encodings() {
    let values = vec![
        Value::Null,
        Value::Bool(false),
        Value::Int(0),
        Value::Int(-1),
        Value::Float(0),
        Value::Bytes(vec![]),
        Value::Text(String::new()),
        Value::Text("0".to_string()),
        Value::List(vec![]),
        Value::List(vec![Value::Null]),
        Value::Dict(BoltMap::new()),
        Value::Structure { marker: 0xB0, signature: 0, fields: vec![] },
        Value::Structure { marker: 0xB0, signature: 1, fields: vec![] },
    ];
    for (i, a) in values.iter().enumerate() {
        for (j, b) in values.iter().enumerate() {
            assert_eq!(encode(a).unwrap() == encode(b).unwrap(), i == j);
        }
    }
}
