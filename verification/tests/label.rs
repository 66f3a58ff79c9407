use bolt_codec::label::{
    default_expression, expression_of, find_many_name, find_one_name, find_query, persist_query,
    plan, settle, DefaultValue, FieldInformation, FieldModifier, Injection,
};

fn field(name: &str, field_type: &str, modifiers: Vec<FieldModifier>) -> FieldInformation {
    FieldInformation { name: name.to_string(), field_type: field_type.to_string(), modifiers }
}

#[test]
fn persist_query_names_every_field() {
    let fields = vec![field("name", "String", vec![]), field("age", "i64", vec![])];
    assert_eq!(persist_query("Person", &fields), "create (_:Person {name: $name, age: $age})");
    let one = vec![field("id", "i64", vec![])];
    assert_eq!(persist_query("Node", &one), "create (_:Node {id: $id})");
    assert_eq!(persist_query("Empty", &vec![]), "create (_:Empty {})");
    let three = vec![field("a", "A", vec![]), field("b", "B", vec![]), field("c", "C", vec![])];
    assert_eq!(persist_query("T", &three), "create (_:T {a: $a, b: $b, c: $c})");
}

#[test]
fn find_query_matches_on_one_field() {
    assert_eq!(find_query("Person", "name"), "match (n:Person {name: $name}) return n");
    assert_eq!(find_many_name("name"), "find_many_by_name");
    assert_eq!(find_one_name("name"), "find_one_by_name");
}

#[test]
fn an_option_may_be_absent() {
    let call = FieldModifier::Default(DefaultValue::Call("make".to_string()));
    assert_eq!(plan(&field("a", "Option<String>", vec![])), Injection::Optional);
    assert_eq!(plan(&field("a", "std::option::Option<i64>", vec![call.clone()])), Injection::Optional);
    assert_eq!(plan(&field("a", "MyOptional", vec![])), Injection::Optional);
    assert_eq!(plan(&field("a", "option", vec![])), Injection::Required);
    assert_eq!(plan(&field("a", "Optio", vec![])), Injection::Required);
    assert_eq!(plan(&field("a", "", vec![])), Injection::Required);
}

#[test]
fn the_last_default_decides() {
    let call = FieldModifier::Default(DefaultValue::Call("make".to_string()));
    let standard = FieldModifier::Default(DefaultValue::Standard);
    assert_eq!(plan(&field("a", "String", vec![])), Injection::Required);
    assert_eq!(plan(&field("a", "String", vec![FieldModifier::Other])), Injection::Required);
    assert_eq!(
        plan(&field("a", "String", vec![call.clone()])),
        Injection::OrElse("make()".to_string())
    );
    assert_eq!(
        plan(&field("a", "String", vec![standard.clone()])),
        Injection::OrElse("std::default::Default::default()".to_string())
    );
    assert_eq!(
        plan(&field("a", "String", vec![call.clone(), standard.clone(), FieldModifier::Other])),
        Injection::OrElse("std::default::Default::default()".to_string())
    );
    assert_eq!(
        plan(&field("a", "String", vec![standard.clone(), FieldModifier::Other, call.clone()])),
        Injection::OrElse("make()".to_string())
    );
    assert_eq!(default_expression(&vec![]), None);
    assert_eq!(default_expression(&vec![standard, call]), Some("make()".to_string()));
    assert_eq!(expression_of(&DefaultValue::Call("a::b".to_string())), "a::b()");
}

#[test]
fn a_fallback_that_does_not_parse_is_dropped() {
    assert_eq!(settle(Injection::OrElse("f()".to_string()), true), Injection::OrElse("f()".to_string()));
    assert_eq!(settle(Injection::OrElse("f(".to_string()), false), Injection::Required);
    assert_eq!(settle(Injection::Optional, false), Injection::Optional);
    assert_eq!(settle(Injection::Optional, true), Injection::Optional);
    assert_eq!(settle(Injection::Required, true), Injection::Required);
    assert_eq!(settle(Injection::Required, false), Injection::Required);
}
