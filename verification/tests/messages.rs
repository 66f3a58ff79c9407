use bolt_codec::codec::Cursor;
use bolt_codec::convert::{FromValue, IntoValue};
use bolt_codec::derivation::{
    defaulted, deserialize, from_structure, optional, required, serialize, to_structure,
    BoltStruct, Field,
};
use bolt_codec::error::{ConversionError, DecodeError, EncodeError};
use bolt_codec::framing::{arity_of, MessageKind, Registry};
use bolt_codec::messages::failure::Failure;
use bolt_codec::messages::hello::Hello;
use bolt_codec::messages::ignored::Ignored;
use bolt_codec::messages::pull::Pull;
use bolt_codec::messages::record::Record;
use bolt_codec::messages::reset::{Reset, MARKER, SIGNATURE};
use bolt_codec::messages::run::Run;
use bolt_codec::messages::success::Success;
use bolt_codec::messages::{decode_message, from_kind, peek_header, Message};
use bolt_codec::value::{BoltMap, Value};
use bytes::Bytes;

const FAILURE: [u8; 114] = [
    0xB1, 0x7F, 0xA2, 0x84, 0x63, 0x6F, 0x64, 0x65, 0xD0, 0x25, 0x4E, 0x65, 0x6F, 0x2E, 0x43,
    0x6C, 0x69, 0x65, 0x6E, 0x74, 0x45, 0x72, 0x72, 0x6F, 0x72, 0x2E, 0x53, 0x65, 0x63, 0x75,
    0x72, 0x69, 0x74, 0x79, 0x2E, 0x55, 0x6E, 0x61, 0x75, 0x74, 0x68, 0x6F, 0x72, 0x69, 0x7A,
    0x65, 0x64, 0x87, 0x6D, 0x65, 0x73, 0x73, 0x61, 0x67, 0x65, 0xD0, 0x39, 0x54, 0x68, 0x65,
    0x20, 0x63, 0x6C, 0x69, 0x65, 0x6E, 0x74, 0x20, 0x69, 0x73, 0x20, 0x75, 0x6E, 0x61, 0x75,
    0x74, 0x68, 0x6F, 0x72, 0x69, 0x7A, 0x65, 0x64, 0x20, 0x64, 0x75, 0x65, 0x20, 0x74, 0x6F,
    0x20, 0x61, 0x75, 0x74, 0x68, 0x65, 0x6E, 0x74, 0x69, 0x63, 0x61, 0x74, 0x69, 0x6F, 0x6E,
    0x20, 0x66, 0x61, 0x69, 0x6C, 0x75, 0x72, 0x65, 0x2E,
];

fn metadata() -> BoltMap {
    let mut map = BoltMap::new();
    map.put("code".to_string(), Value::Text("Neo.ClientError.Security.Unauthorized".to_string()));
    map.put(
        "message".to_string(),
        Value::Text("The client is unauthorized due to authentication failure.".to_string()),
    );
    map
}

fn one_entry(key: &str, value: Value) -> BoltMap {
    let mut map = BoltMap::new();
    map.put(key.to_string(), value);
    map
}

#[test]
fn should_deserialize_success() {
    let data = Bytes::from_static(&[
        0xB1, 0x7F, 0xA2, 0x84, 0x63, 0x6F, 0x64, 0x65, 0xD0, 0x25, 0x4E, 0x65, 0x6F, 0x2E,
        0x43, 0x6C, 0x69, 0x65, 0x6E, 0x74, 0x45, 0x72, 0x72, 0x6F, 0x72, 0x2E, 0x53, 0x65,
        0x63, 0x75, 0x72, 0x69, 0x74, 0x79, 0x2E, 0x55, 0x6E, 0x61, 0x75, 0x74, 0x68, 0x6F,
        0x72, 0x69, 0x7A, 0x65, 0x64, 0x87, 0x6D, 0x65, 0x73, 0x73, 0x61, 0x67, 0x65, 0xD0,
        0x39, 0x54, 0x68, 0x65, 0x20, 0x63, 0x6C, 0x69, 0x65, 0x6E, 0x74, 0x20, 0x69, 0x73,
        0x20, 0x75, 0x6E, 0x61, 0x75, 0x74, 0x68, 0x6F, 0x72, 0x69, 0x7A, 0x65, 0x64, 0x20,
        0x64, 0x75, 0x65, 0x20, 0x74, 0x6F, 0x20, 0x61, 0x75, 0x74, 0x68, 0x65, 0x6E, 0x74,
        0x69, 0x63, 0x61, 0x74, 0x69, 0x6F, 0x6E, 0x20, 0x66, 0x61, 0x69, 0x6C, 0x75, 0x72,
        0x65, 0x2E,
    ]);

    let (failure, used): (Failure, usize) = deserialize(&data, 0).unwrap();

    assert_eq!(used, data.len());
    assert_eq!(
        failure.get::<String>("code").unwrap().unwrap(),
        "Neo.ClientError.Security.Unauthorized"
    );
    assert_eq!(
        failure.get::<String>("message").unwrap().unwrap(),
        "The client is unauthorized due to authentication failure."
    );
}

#[test]
fn should_serialize_reset() {
    let reset = Reset::new();

    let bytes: Bytes = Bytes::from(serialize(&reset).unwrap());

    assert_eq!(bytes, Bytes::from_static(&[MARKER, SIGNATURE,]));
}

#[test]
fn reset_is_two_bytes() {
    assert_eq!(Reset::new().to_bytes(), vec![0xB0, 0x0F]);
    assert_eq!(Message::Reset(Reset::new()).encode().unwrap(), vec![0xB0, 0x0F]);
    assert_eq!(Ignored::new().to_bytes(), vec![0xB0, 0x7E]);
}

#[test]
fn markers_and_signatures() {
    assert_eq!(Reset::marker(), (0xB0, Some(0x0F)));
    assert_eq!(Failure::marker(), (0xB1, Some(0x7F)));
    assert_eq!(Success::marker(), (0xB1, Some(0x70)));
    assert_eq!(Ignored::marker(), (0xB0, Some(0x7E)));
    assert_eq!(Record::marker(), (0xB1, Some(0x71)));
    assert_eq!(Hello::marker(), (0xB1, Some(0x01)));
    assert_eq!(Run::marker(), (0xB3, Some(0x10)));
    assert_eq!(Pull::marker(), (0xB1, Some(0x3F)));
    assert_eq!(Failure::wire_header(), (0xB1, 0x7F));
    assert_eq!(MessageKind::Run.wire_header(), (0xB3, 0x10));
}

#[test]
fn failure_decodes_through_the_registry() {
    let registry = Registry::standard();
    let (message, used) = decode_message(&registry, &FAILURE, 0).unwrap();
    assert_eq!(used, FAILURE.len());
    assert_eq!(message.message_kind(), MessageKind::Failure);
    assert_eq!(message, Message::Failure(Failure::new(metadata())));
}

#[test]
fn failure_encodes_to_the_same_bytes() {
    let failure = Failure::new(metadata());
    assert_eq!(serialize(&failure).unwrap(), FAILURE.to_vec());
    assert_eq!(Message::Failure(failure).encode().unwrap(), FAILURE.to_vec());
}

#[test]
fn a_truncated_message_is_incomplete_and_the_whole_one_still_decodes() {
    let registry = Registry::standard();
    assert_eq!(decode_message(&registry, &FAILURE[..5], 0), Err(DecodeError::Incomplete));
    assert_eq!(deserialize::<Failure>(&FAILURE[..5], 0), Err(DecodeError::Incomplete));
    for cut in 0..FAILURE.len() {
        assert_eq!(decode_message(&registry, &FAILURE[..cut], 0), Err(DecodeError::Incomplete));
    }
    let (message, used) = decode_message(&registry, &FAILURE, 0).unwrap();
    assert_eq!(used, FAILURE.len());
    assert_eq!(message, Message::Failure(Failure::new(metadata())));
}

#[test]
fn an_unregistered_signature_is_an_unknown_message() {
    let registry = Registry::standard();
    assert_eq!(decode_message(&registry, &[0xB0, 0xFF], 0), Err(DecodeError::UnknownMessage));
    assert_eq!(decode_message(&registry, &[0xB1, 0xFF, 0xA0], 0), Err(DecodeError::UnknownMessage));
    assert_eq!(decode_message(&registry, &[0xB1, 0xFF], 0), Err(DecodeError::UnknownMessage));
    assert_eq!(decode_message(&registry, &[0xB2, 0x7F, 0xA0, 0xA0], 0), Err(DecodeError::UnknownMessage));
    assert_eq!(registry.resolve(0xB0, 0xFF), Err(DecodeError::UnknownMessage));
}

#[test]
fn a_field_of_the_wrong_type_is_a_mismatch_not_a_default() {
    let (failure, _) = deserialize::<Failure>(&FAILURE, 0).unwrap();
    assert_eq!(failure.get::<i64>("code"), Some(Err(ConversionError::TypeMismatch)));
    assert_eq!(failure.get::<bool>("message"), Some(Err(ConversionError::TypeMismatch)));
    assert_eq!(failure.get::<String>("missing"), None);
    assert_eq!(failure.get::<i64>("missing"), None);
    assert_eq!(
        failure.get::<Value>("code"),
        Some(Ok(Value::Text("Neo.ClientError.Security.Unauthorized".to_string())))
    );
}

#[test]
fn what_is_no_structure_has_an_unexpected_header() {
    let registry = Registry::standard();
    assert_eq!(decode_message(&registry, &[0xA0], 0), Err(DecodeError::UnexpectedHeader));
    assert_eq!(decode_message(&registry, &[0x01, 0x02], 0), Err(DecodeError::UnexpectedHeader));
    assert_eq!(deserialize::<Reset>(&[0xA0], 0), Err(DecodeError::UnexpectedHeader));
    assert_eq!(deserialize::<Reset>(&[0xB0, 0x7E], 0), Err(DecodeError::UnexpectedHeader));
    assert_eq!(deserialize::<Failure>(&[0xB1, 0x70, 0xA0], 0), Err(DecodeError::UnexpectedHeader));
    assert_eq!(from_structure::<Reset>(&Value::Null), Err(DecodeError::UnexpectedHeader));
    let long = Value::Structure { marker: 0xB0, signature: 0x0F, fields: vec![Value::Null] };
    assert_eq!(from_structure::<Reset>(&long), Err(DecodeError::ArityMismatch));
    let short = Value::Structure { marker: 0xB1, signature: 0x7F, fields: vec![] };
    assert_eq!(from_structure::<Failure>(&short), Err(DecodeError::ArityMismatch));
    assert_eq!(peek_header(&[0xB1, 0x7F], 0), Ok((0xB1, 0x7F)));
    assert_eq!(peek_header(&[0xB1], 0), Err(DecodeError::Incomplete));
    assert_eq!(peek_header(&[], 0), Err(DecodeError::Incomplete));
    assert_eq!(peek_header(&[0xC0, 0x00], 0), Err(DecodeError::UnexpectedHeader));
}

#[test]
fn a_field_that_does_not_convert_names_itself() {
    assert_eq!(
        deserialize::<Failure>(&[0xB1, 0x7F, 0x01], 0),
        Err(DecodeError::FieldError { field_name: "metadata", cause: ConversionError::TypeMismatch })
    );
    assert_eq!(
        deserialize::<Record>(&[0xB1, 0x71, 0xA0], 0),
        Err(DecodeError::FieldError { field_name: "data", cause: ConversionError::TypeMismatch })
    );
    assert_eq!(
        deserialize::<Run>(&[0xB3, 0x10, 0x81, 0x61, 0xA0, 0x90], 0),
        Err(DecodeError::FieldError { field_name: "extra", cause: ConversionError::TypeMismatch })
    );
    assert_eq!(
        deserialize::<Run>(&[0xB3, 0x10, 0x01, 0x01, 0x90], 0),
        Err(DecodeError::FieldError { field_name: "query", cause: ConversionError::TypeMismatch })
    );
    let registry = Registry::standard();
    assert_eq!(
        decode_message(&registry, &[0xB1, 0x70, 0xC0], 0),
        Err(DecodeError::FieldError { field_name: "metadata", cause: ConversionError::TypeMismatch })
    );
}

#[test]
fn required_and_optional_fields() {
    let fields = vec![Value::Int(300), Value::Null, Value::Text("x".to_string())];
    let first = Field { name: "first", position: 0 };
    let second = Field { name: "second", position: 1 };
    let third = Field { name: "third", position: 2 };
    let fourth = Field { name: "fourth", position: 3 };
    assert_eq!(required::<i64>(&fields, &first), Ok(300));
    assert_eq!(
        required::<i8>(&fields, &first),
        Err(DecodeError::FieldError { field_name: "first", cause: ConversionError::RangeOverflow })
    );
    assert_eq!(
        required::<String>(&fields, &second),
        Err(DecodeError::FieldError { field_name: "second", cause: ConversionError::TypeMismatch })
    );
    assert_eq!(required::<String>(&fields, &third), Ok("x".to_string()));
    assert_eq!(
        required::<String>(&fields, &fourth),
        Err(DecodeError::FieldError { field_name: "fourth", cause: ConversionError::TypeMismatch })
    );
    assert_eq!(required::<Value>(&fields, &second), Ok(Value::Null));
    assert_eq!(optional::<i64>(&fields, &first), Ok(Some(300)));
    assert_eq!(optional::<String>(&fields, &second), Ok(None));
    assert_eq!(optional::<String>(&fields, &third), Ok(Some("x".to_string())));
    assert_eq!(optional::<String>(&fields, &fourth), Ok(None));
    assert_eq!(
        optional::<String>(&fields, &first),
        Err(DecodeError::FieldError { field_name: "first", cause: ConversionError::TypeMismatch })
    );
    assert_eq!(defaulted::<i64>(&fields, &first, 7), Ok(300));
    assert_eq!(defaulted::<String>(&fields, &second, "d".to_string()), Ok("d".to_string()));
    assert_eq!(defaulted::<String>(&fields, &fourth, "d".to_string()), Ok("d".to_string()));
    assert_eq!(
        defaulted::<bool>(&fields, &third, true),
        Err(DecodeError::FieldError { field_name: "third", cause: ConversionError::TypeMismatch })
    );
    assert_eq!(
        optional::<u8>(&fields, &first),
        Err(DecodeError::FieldError { field_name: "first", cause: ConversionError::RangeOverflow })
    );
}

#[test]
fn every_kind_round_trips() {
    let registry = Registry::standard();
    let messages = vec![
        Message::Reset(Reset::new()),
        Message::Ignored(Ignored::new()),
        Message::Failure(Failure::new(metadata())),
        Message::Success(Success::new(one_entry("server", Value::Text("Neo4j/4.1".to_string())))),
        Message::Record(Record::new(vec![Value::Int(1), Value::Null, Value::Dict(metadata())])),
        Message::Hello(Hello::new(one_entry("user_agent", Value::Text("x/1".to_string())))),
        Message::Pull(Pull::new(one_entry("n", Value::Int(-1)))),
        Message::Run(Run::new(
            "match (n) return n".to_string(),
            one_entry("limit", Value::Int(1000)),
            BoltMap::new(),
        )),
    ];
    let mut stream: Vec<u8> = Vec::new();
    for m in messages.iter() {
        let bytes = m.encode().unwrap();
        let (back, used) = decode_message(&registry, &bytes, 0).unwrap();
        assert_eq!(&back, m);
        assert_eq!(used, bytes.len());
        stream.extend_from_slice(&bytes);
    }
    let mut at = 0;
    for m in messages.iter() {
        let (back, next) = decode_message(&registry, &stream, at).unwrap();
        assert_eq!(&back, m);
        at = next;
    }
    assert_eq!(at, stream.len());
    assert_eq!(decode_message(&registry, &stream, at), Err(DecodeError::Incomplete));
}

#[test]
fn typed_messages_round_trip() {
    let run = Run::new("return 1".to_string(), BoltMap::new(), one_entry("db", Value::Text("neo4j".to_string())));
    let bytes = serialize(&run).unwrap();
    assert_eq!(&bytes[..2], &[0xB3, 0x10]);
    assert_eq!(deserialize::<Run>(&bytes, 0).unwrap(), (run.clone(), bytes.len()));
    assert_eq!(run.query(), "return 1");
    assert_eq!(run.parameters(), &BoltMap::new());
    assert_eq!(run.extra().get::<String>("db"), Some(Ok("neo4j".to_string())));

    let record = Record::new(vec![Value::Int(7)]);
    let bytes = serialize(&record).unwrap();
    assert_eq!(bytes, vec![0xB1, 0x71, 0x91, 0x07]);
    assert_eq!(deserialize::<Record>(&bytes, 0).unwrap().0.data(), &vec![Value::Int(7)]);

    let success = Success::new(one_entry("fields", Value::List(vec![Value::Text("n".to_string())])));
    let bytes = serialize(&success).unwrap();
    let (back, _) = deserialize::<Success>(&bytes, 0).unwrap();
    assert_eq!(back.get::<Vec<Value>>("fields"), Some(Ok(vec![Value::Text("n".to_string())])));
    assert_eq!(back.metadata(), success.metadata());

    let hello = Hello::new(BoltMap::new());
    assert_eq!(serialize(&hello).unwrap(), vec![0xB1, 0x01, 0xA0]);
    assert_eq!(hello.extra().len(), 0);
    let pull = Pull::new(BoltMap::new());
    assert_eq!(serialize(&pull).unwrap(), vec![0xB1, 0x3F, 0xA0]);
    assert_eq!(pull.extra().is_empty(), true);
}

#[test]
fn a_message_with_an_oversized_field_is_not_encoded() {
    let inner = Value::Structure { marker: 0xB0, signature: 0x00, fields: vec![Value::Null; 16] };
    let record = Record::new(vec![inner]);
    assert_eq!(serialize(&record), Err(EncodeError::ValueTooLarge));
    assert_eq!(Message::Record(record).encode(), Err(EncodeError::ValueTooLarge));
}

#[test]
fn structures_of_messages() {
    let v = to_structure(&Failure::new(BoltMap::new()));
    assert_eq!(v, Value::Structure { marker: 0xB1, signature: 0x7F, fields: vec![Value::Dict(BoltMap::new())] });
    assert_eq!(from_structure::<Failure>(&v), Ok(Failure::new(BoltMap::new())));
    assert_eq!(Reset::new().to_fields(), Vec::<Value>::new());
    assert_eq!(Reset::from_fields(&vec![]), Ok(Reset::new()));
    assert_eq!(
        from_kind(MessageKind::Hello, &vec![Value::Dict(BoltMap::new())]),
        Ok(Message::Hello(Hello::new(BoltMap::new())))
    );
    assert_eq!(
        from_kind(MessageKind::Hello, &vec![]),
        Err(DecodeError::FieldError { field_name: "extra", cause: ConversionError::TypeMismatch })
    );
}

#[test]
fn the_registry_frames_structures() {
    let registry = Registry::standard();
    assert_eq!(registry.resolve(0xB1, 0x7F), Ok(MessageKind::Failure));
    assert_eq!(registry.resolve(0xB0, 0x0F), Ok(MessageKind::Reset));
    assert_eq!(registry.resolve(0xB0, 0x7F), Err(DecodeError::UnknownMessage));
    let good = Value::Structure { marker: 0xB1, signature: 0x7F, fields: vec![Value::Null] };
    assert_eq!(registry.frame(&good), Ok(MessageKind::Failure));
    let short = Value::Structure { marker: 0xB1, signature: 0x7F, fields: vec![] };
    assert_eq!(registry.frame(&short), Err(DecodeError::ArityMismatch));
    let long = Value::Structure { marker: 0xB0, signature: 0x0F, fields: vec![Value::Null] };
    assert_eq!(registry.frame(&long), Err(DecodeError::ArityMismatch));
    let unknown = Value::Structure { marker: 0xB1, signature: 0xFF, fields: vec![] };
    assert_eq!(registry.frame(&unknown), Err(DecodeError::UnknownMessage));
    assert_eq!(registry.frame(&Value::Int(1)), Err(DecodeError::UnexpectedHeader));
    assert_eq!(arity_of(0xB0), 0);
    assert_eq!(arity_of(0xB3), 3);
    assert_eq!(arity_of(0xBF), 15);
}

#[test]
fn what_is_registered_stays() {
    let mut registry = Registry::new();
    assert_eq!(registry.resolve(0xB0, 0x0F), Err(DecodeError::UnknownMessage));
    assert_eq!(registry.register(0xB0, 0x0F, MessageKind::Reset), true);
    assert_eq!(registry.register(0xB0, 0x0F, MessageKind::Ignored), false);
    assert_eq!(registry.resolve(0xB0, 0x0F), Ok(MessageKind::Reset));
    assert_eq!(registry.register(0xB0, 0x7E, MessageKind::Ignored), true);
    assert_eq!(registry.resolve(0xB0, 0x7E), Ok(MessageKind::Ignored));
    assert_eq!(registry.resolve(0xB0, 0x0F), Ok(MessageKind::Reset));
    assert_eq!(decode_message(&registry, &[0xB0, 0x7E], 0), Ok((Message::Ignored(Ignored::new()), 2)));
    assert_eq!(decode_message(&registry, &FAILURE, 0), Err(DecodeError::UnknownMessage));
}

#[test]
fn natives_convert_both_ways() {
    assert_eq!(5i32.into_value(), Value::Int(5));
    assert_eq!((-5i8).into_value(), Value::Int(-5));
    assert_eq!(65535u16.into_value(), Value::Int(65535));
    assert_eq!(true.into_value(), Value::Bool(true));
    assert_eq!("x".to_string().into_value(), Value::Text("x".to_string()));
    assert_eq!(vec![1u8, 2].into_value(), Value::Bytes(vec![1, 2]));
    assert_eq!(vec![Value::Null].into_value(), Value::List(vec![Value::Null]));
    assert_eq!(BoltMap::new().into_value(), Value::Dict(BoltMap::new()));
    assert_eq!(Some(3u32).into_value(), Value::Int(3));
    assert_eq!(None::<u32>.into_value(), Value::Null);
    assert_eq!(Value::Float(7).into_value(), Value::Float(7));

    assert_eq!(i64::try_from_value(&Value::Int(i64::MIN)), Ok(i64::MIN));
    assert_eq!(i32::try_from_value(&Value::Int(2147483647)), Ok(2147483647));
    assert_eq!(i32::try_from_value(&Value::Int(2147483648)), Err(ConversionError::RangeOverflow));
    assert_eq!(i16::try_from_value(&Value::Int(-32768)), Ok(-32768));
    assert_eq!(i16::try_from_value(&Value::Int(-32769)), Err(ConversionError::RangeOverflow));
    assert_eq!(i8::try_from_value(&Value::Int(127)), Ok(127));
    assert_eq!(i8::try_from_value(&Value::Int(128)), Err(ConversionError::RangeOverflow));
    assert_eq!(u8::try_from_value(&Value::Int(255)), Ok(255));
    assert_eq!(u8::try_from_value(&Value::Int(256)), Err(ConversionError::RangeOverflow));
    assert_eq!(u8::try_from_value(&Value::Int(-1)), Err(ConversionError::RangeOverflow));
    assert_eq!(u16::try_from_value(&Value::Int(65536)), Err(ConversionError::RangeOverflow));
    assert_eq!(u32::try_from_value(&Value::Int(4294967295)), Ok(4294967295));
    assert_eq!(u32::try_from_value(&Value::Int(4294967296)), Err(ConversionError::RangeOverflow));
    assert_eq!(u32::try_from_value(&Value::Text("1".to_string())), Err(ConversionError::TypeMismatch));
    assert_eq!(bool::try_from_value(&Value::Int(1)), Err(ConversionError::TypeMismatch));
    assert_eq!(bool::try_from_value(&Value::Bool(false)), Ok(false));
    assert_eq!(String::try_from_value(&Value::Int(1)), Err(ConversionError::TypeMismatch));
    assert_eq!(String::try_from_value(&Value::Text("a".to_string())), Ok("a".to_string()));
    assert_eq!(Vec::<u8>::try_from_value(&Value::Bytes(vec![9])), Ok(vec![9]));
    assert_eq!(Vec::<u8>::try_from_value(&Value::List(vec![])), Err(ConversionError::TypeMismatch));
    assert_eq!(Vec::<Value>::try_from_value(&Value::List(vec![Value::Int(1)])), Ok(vec![Value::Int(1)]));
    assert_eq!(Vec::<Value>::try_from_value(&Value::Bytes(vec![])), Err(ConversionError::TypeMismatch));
    assert_eq!(BoltMap::try_from_value(&Value::Dict(metadata())), Ok(metadata()));
    assert_eq!(BoltMap::try_from_value(&Value::Null), Err(ConversionError::TypeMismatch));
    assert_eq!(Value::try_from_value(&Value::Null), Ok(Value::Null));
    assert_eq!(Option::<i64>::try_from_value(&Value::Null), Ok(None));
    assert_eq!(Option::<i64>::try_from_value(&Value::Int(4)), Ok(Some(4)));
    assert_eq!(Option::<i64>::try_from_value(&Value::Bool(true)), Err(ConversionError::TypeMismatch));
    assert_eq!(Option::<i8>::try_from_value(&Value::Int(1000)), Err(ConversionError::RangeOverflow));
}

#[test]
fn a_cursor_reads_messages_as_they_arrive() {
    let registry = Registry::standard();
    let mut stream = vec![0xB0, 0x0F];
    stream.extend_from_slice(&FAILURE);
    stream.extend_from_slice(&[0xB0, 0x7E]);
    let mut cursor = Cursor::new();
    assert_eq!(cursor.read_message(&registry, &stream[..1]), Err(DecodeError::Incomplete));
    assert_eq!(cursor.position, 0);
    assert_eq!(cursor.read_message(&registry, &stream[..7]), Ok(Message::Reset(Reset::new())));
    assert_eq!(cursor.position, 2);
    assert_eq!(cursor.read_message(&registry, &stream[..7]), Err(DecodeError::Incomplete));
    assert_eq!(cursor.position, 2);
    assert_eq!(
        cursor.read_message(&registry, &stream),
        Ok(Message::Failure(Failure::new(metadata())))
    );
    assert_eq!(cursor.position, 2 + FAILURE.len());
    assert_eq!(cursor.read_message(&registry, &stream), Ok(Message::Ignored(Ignored::new())));
    assert_eq!(cursor.position, stream.len());
    assert_eq!(cursor.read_message(&registry, &stream), Err(DecodeError::Incomplete));
    assert_eq!(cursor.position, stream.len());
    let mut bad = Cursor::new();
    assert_eq!(bad.read_message(&registry, &[0xB0, 0xFF]), Err(DecodeError::UnknownMessage));
    assert_eq!(bad.position, 0);
}
