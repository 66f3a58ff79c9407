use bolt_codec::convert::int_within;
use bolt_codec::error::ConversionError;
use bolt_codec::value::{all_well_formed, duplicate_all, same_text, BoltMap, Value};

#[test]
fn a_map_keeps_insertion_order() {
    let mut map = BoltMap::new();
    assert!(map.is_empty());
    map.put("z".to_string(), Value::Int(1));
    map.put("a".to_string(), Value::Int(2));
    map.put("m".to_string(), Value::Int(3));
    assert_eq!(map.len(), 3);
    assert_eq!(map.entry_at(0), Some((&"z".to_string(), &Value::Int(1))));
    assert_eq!(map.entry_at(1), Some((&"a".to_string(), &Value::Int(2))));
    assert_eq!(map.entry_at(2), Some((&"m".to_string(), &Value::Int(3))));
    assert_eq!(map.entry_at(3), None);
    assert_eq!(map.position("m"), Some(2));
    assert_eq!(map.position("q"), None);
}

#[test]
fn a_key_is_held_once() {
    let mut map = BoltMap::new();
    map.put("a".to_string(), Value::Int(1));
    map.put("b".to_string(), Value::Int(2));
    map.put("a".to_string(), Value::Text("again".to_string()));
    assert_eq!(map.len(), 2);
    assert_eq!(map.entry_at(0), Some((&"a".to_string(), &Value::Text("again".to_string()))));
    assert_eq!(map.value("a"), Some(&Value::Text("again".to_string())));
    assert_eq!(map.value("b"), Some(&Value::Int(2)));
    assert_eq!(map.value("c"), None);
    assert!(map.contains_key("b"));
    assert!(!map.contains_key("B"));
}

#[test]
fn get_tells_missing_from_malformed() {
    let mut map = BoltMap::new();
    map.put("n".to_string(), Value::Int(300));
    assert_eq!(map.get::<i64>("n"), Some(Ok(300)));
    assert_eq!(map.get::<u8>("n"), Some(Err(ConversionError::RangeOverflow)));
    assert_eq!(map.get::<String>("n"), Some(Err(ConversionError::TypeMismatch)));
    assert_eq!(map.get::<i64>("m"), None);
    assert_eq!(BoltMap::default().get::<i64>("n"), None);
}

#[test]
fn copies_are_equal_and_apart() {
    let mut inner = BoltMap::new();
    inner.put("k".to_string(), Value::List(vec![Value::Int(1), Value::Bytes(vec![1, 2])]));
    let v = Value::Structure {
        marker: 0xB2,
        signature: 1,
        fields: vec![Value::Dict(inner.clone()), Value::Float(3)],
    };
    let mut copy = v.duplicate();
    assert_eq!(copy, v);
    assert_eq!(v.clone(), v);
    if let Value::Structure { fields, .. } = &mut copy {
        fields.push(Value::Null);
    }
    assert_ne!(copy, v);
    assert_eq!(inner.duplicate(), inner);
    assert_eq!(duplicate_all(&vec![Value::Null, Value::Bool(true)]), vec![Value::Null, Value::Bool(true)]);
}

#[test]
fn texts_compare_by_their_characters() {
    assert!(same_text("", ""));
    assert!(same_text("abc", "abc"));
    assert!(same_text("héllo", "héllo"));
    assert!(!same_text("abc", "abd"));
    assert!(!same_text("abc", "ab"));
    assert!(!same_text("e", "é"));
}

#[test]
fn integers_within_bounds() {
    assert_eq!(int_within(&Value::Int(5), 0, 10), Ok(5));
    assert_eq!(int_within(&Value::Int(10), 0, 10), Ok(10));
    assert_eq!(int_within(&Value::Int(11), 0, 10), Err(ConversionError::RangeOverflow));
    assert_eq!(int_within(&Value::Int(-1), 0, 10), Err(ConversionError::RangeOverflow));
    assert_eq!(int_within(&Value::Null, 0, 10), Err(ConversionError::TypeMismatch));
}

#[test]
fn well_formed_values() {
    assert!(Value::Null.is_well_formed());
    assert!(Value::List(vec![Value::Int(1)]).is_well_formed());
    let good = Value::Structure { marker: 0xB1, signature: 9, fields: vec![Value::Null] };
    let short = Value::Structure { marker: 0xB2, signature: 9, fields: vec![Value::Null] };
    let odd = Value::Structure { marker: 0x01, signature: 9, fields: vec![Value::Null] };
    let long = Value::Structure { marker: 0xB0, signature: 9, fields: vec![Value::Null; 16] };
    assert!(good.is_well_formed());
    assert!(!short.is_well_formed());
    assert!(!odd.is_well_formed());
    assert!(!long.is_well_formed());
    assert!(Value::Structure { marker: 0xBF, signature: 0, fields: vec![Value::Null; 15] }.is_well_formed());
    let mut map = BoltMap::new();
    map.put("a".to_string(), good.duplicate());
    assert!(Value::Dict(map.duplicate()).is_well_formed());
    map.put("b".to_string(), Value::List(vec![Value::Null, short.duplicate()]));
    assert!(!Value::Dict(map).is_well_formed());
    assert!(!Value::List(vec![good.duplicate(), short.duplicate()]).is_well_formed());
    assert!(all_well_formed(&vec![]));
    assert!(all_well_formed(&vec![good.duplicate(), Value::Null]));
    assert!(!all_well_formed(&vec![good, short]));
}

#[test]
fn a_structure_gets_the_marker_of_its_fields() {
    assert_eq!(
        Value::structure(0x0F, vec![]),
        Some(Value::Structure { marker: 0xB0, signature: 0x0F, fields: vec![] })
    );
    assert_eq!(
        Value::structure(0x10, vec![Value::Null, Value::Int(1), Value::Bool(true)]),
        Some(Value::Structure {
            marker: 0xB3,
            signature: 0x10,
            fields: vec![Value::Null, Value::Int(1), Value::Bool(true)]
        })
    );
    assert_eq!(Value::structure(1, vec![Value::Null; 15]).map(|v| v.is_well_formed()), Some(true));
    assert_eq!(Value::structure(1, vec![Value::Null; 16]), None);
}

#[test]
fn a_key_has_what_it_was_given_last_and_the_others_keep_theirs() {
    let mut map = BoltMap::new();
    map.put("a".to_string(), Value::Int(1));
    map.put("b".to_string(), Value::Int(2));
    map.put("c".to_string(), Value::Int(3));
    map.put("b".to_string(), Value::Int(20));
    assert_eq!(map.get::<i64>("a"), Some(Ok(1)));
    assert_eq!(map.get::<i64>("b"), Some(Ok(20)));
    assert_eq!(map.get::<i64>("c"), Some(Ok(3)));
    assert_eq!(map.position("b"), Some(1));
    assert_eq!(map.len(), 3);
}
