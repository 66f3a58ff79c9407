//! Record types stored as labelled nodes: the names and the query texts
//! that go with a record type, and how each of its fields is filled from a
//! node.

use vstd::prelude::*;
use vstd::string::StringExecFns;

verus! {

/// Where the value of a field comes from when the node has none.
#[derive(Debug, Clone, PartialEq)]
pub enum DefaultValue {
    /// A call of the named function, without arguments.
    Call(String),
    /// The default of the field's type.
    Standard,
}

/// What a field declares beside its name and type.
#[derive(Debug, Clone, PartialEq)]
pub enum FieldModifier {
    Default(DefaultValue),
    /// A modifier that says nothing about defaults.
    Other,
}

/// A declared field of a record type.
#[derive(Debug, Clone, PartialEq)]
pub struct FieldInformation {
    pub name: String,
    pub field_type: String,
    pub modifiers: Vec<FieldModifier>,
}

/// How a field is filled from a node.
#[derive(Debug, Clone, PartialEq)]
pub enum Injection {
    /// With what the node has, which may be nothing.
    Optional,
    /// With what the node has, or else with the value of the expression.
    OrElse(String),
    /// With what the node has, which has to be there.
    Required,
}

/// The model of an [`Injection`].
pub enum InjectionView {
    Optional,
    OrElse(Seq<char>),
    Required,
}

impl View for Injection {
    type V = InjectionView;

    open spec fn view(&self) -> InjectionView {
        match self {
            Injection::Optional => InjectionView::Optional,
            Injection::OrElse(expression) => InjectionView::OrElse(expression@),
            Injection::Required => InjectionView::Required,
        }
    }
}

/// Whether `pattern` stands somewhere in `text`.
pub open spec fn contains_text(text: Seq<char>, pattern: Seq<char>) -> bool {
    exists|i: int|
        0 <= i <= text.len() - pattern.len() && #[trigger] text.subrange(i, i + pattern.len())
            == pattern
}

/// The expression that gives the default value.
pub open spec fn expression(default: DefaultValue) -> Seq<char> {
    match default {
        DefaultValue::Call(function) => function@ + "()"@,
        DefaultValue::Standard => "std::default::Default::default()"@,
    }
}

/// The expression of the last modifier that declares a default.
pub open spec fn last_default(modifiers: Seq<FieldModifier>) -> Option<Seq<char>>
    decreases modifiers.len(),
{
    if modifiers.len() == 0 {
        None
    } else {
        match modifiers.last() {
            FieldModifier::Default(default) => Some(expression(default)),
            FieldModifier::Other => last_default(modifiers.drop_last()),
        }
    }
}

/// A field whose type names `Option` may be absent; of the others, one with
/// a default falls back on it, and one without has to be there.
pub open spec fn planned(field_type: Seq<char>, modifiers: Seq<FieldModifier>) -> InjectionView {
    if contains_text(field_type, "Option"@) {
        InjectionView::Optional
    } else {
        match last_default(modifiers) {
            Some(expression) => InjectionView::OrElse(expression),
            None => InjectionView::Required,
        }
    }
}

/// A fallback whose expression cannot be read as tokens is dropped: the
/// field then has to be there.
pub open spec fn settled(injection: InjectionView, parses: bool) -> InjectionView {
    match injection {
        InjectionView::OrElse(expression) => if parses {
            injection
        } else {
            InjectionView::Required
        },
        _ => injection,
    }
}

/// The name of a field, then the parameter of the same name.
pub open spec fn placeholder(name: Seq<char>) -> Seq<char> {
    name + ": $"@ + name
}

/// The placeholders of the names, with a comma and a blank between them.
pub open spec fn placeholders(names: Seq<Seq<char>>) -> Seq<char>
    decreases names.len(),
{
    if names.len() == 0 {
        Seq::empty()
    } else if names.len() == 1 {
        placeholder(names[0])
    } else {
        placeholders(names.drop_last()) + ", "@ + placeholder(names.last())
    }
}

/// The names of the fields, in declared order.
pub open spec fn names(fields: Seq<FieldInformation>) -> Seq<Seq<char>> {
    Seq::new(fields.len(), |i: int| fields[i].name@)
}

/// The query that creates a node with the label and one property for each name.
pub open spec fn persist_text(label: Seq<char>, names: Seq<Seq<char>>) -> Seq<char> {
    "create (_:"@ + label + " {"@ + placeholders(names) + "})"@
}

/// The query that finds the nodes with the label whose property equals a parameter.
pub open spec fn find_text(label: Seq<char>, field: Seq<char>) -> Seq<char> {
    "match (n:"@ + label + " {"@ + placeholder(field) + "}) return n"@
}

/// `str::contains` with a text as the pattern: whether the pattern is a
/// part of the text.
#[verifier::external_body]
fn has_part(text: &str, pattern: &str) -> (r: bool)
    ensures
        r == contains_text(text@, pattern@),
{
    text.contains(pattern)
}

/// The expression that gives the default value.
pub fn expression_of(default: &DefaultValue) -> (r: String)
    ensures
        r@ == expression(*default),
{
    match default {
        DefaultValue::Call(function) => {
            let mut text = function.clone();
            text.append("()");
            text
        },
        DefaultValue::Standard => String::from_str("std::default::Default::default()"),
    }
}

/// The expression of the last modifier that declares a default, if one does.
pub fn default_expression(modifiers: &Vec<FieldModifier>) -> (r: Option<String>)
    ensures
        match r {
            Some(text) => last_default(modifiers@) == Some(text@),
            None => last_default(modifiers@) is None,
        },
{
    let mut i: usize = modifiers.len();
    assert(modifiers@.take(i as int) =~= modifiers@);
    while i > 0
        invariant
            i <= modifiers@.len(),
            last_default(modifiers@) == last_default(modifiers@.take(i as int)),
        decreases i,
    {
        assert(modifiers@.take(i as int).drop_last() =~= modifiers@.take(i - 1));
        match &modifiers[i - 1] {
            FieldModifier::Default(default) => {
                return Some(expression_of(default));
            },
            FieldModifier::Other => {},
        }
        i -= 1;
    }
    None
}

/// How the field is filled from a node, as far as its declaration says.
pub fn plan(field: &FieldInformation) -> (r: Injection)
    ensures
        r@ == planned(field.field_type@, field.modifiers@),
{
    if has_part(field.field_type.as_str(), "Option") {
        Injection::Optional
    } else {
        match default_expression(&field.modifiers) {
            Some(text) => Injection::OrElse(text),
            None => Injection::Required,
        }
    }
}

/// How the field is filled in the end, once it is known whether the
/// expression of its fallback can be read as tokens.
pub fn settle(injection: Injection, parses: bool) -> (r: Injection)
    ensures
        r@ == settled(injection@, parses),
{
    match injection {
        Injection::OrElse(text) => if parses {
            Injection::OrElse(text)
        } else {
            Injection::Required
        },
        other => other,
    }
}

fn put_placeholder(out: &mut String, name: &str)
    ensures
        final(out)@ == old(out)@ + placeholder(name@),
{
    out.append(name);
    out.append(": $");
    out.append(name);
    assert(out@ =~= old(out)@ + placeholder(name@));
}

/// The query that creates a node with the label `label` and one property
/// for each field, each set from the parameter of the same name.
pub fn persist_query(label: &str, fields: &Vec<FieldInformation>) -> (query: String)
    ensures
        query@ == persist_text(label@, names(fields@)),
{
    let mut query = String::from_str("create (_:");
    query.append(label);
    query.append(" {");
    let ghost head = query@;
    let ghost all = names(fields@);
    let mut i: usize = 0;
    assert(query@ =~= head + placeholders(all.take(0)));
    while i < fields.len()
        invariant
            i <= fields@.len(),
            all == names(fields@),
            query@ == head + placeholders(all.take(i as int)),
        decreases fields@.len() - i,
    {
        proof {
            assert(all.take(i + 1).drop_last() =~= all.take(i as int));
            assert(all.take(i + 1).last() == fields@[i as int].name@);
        }
        if i > 0 {
            query.append(", ");
        }
        put_placeholder(&mut query, fields[i].name.as_str());
        i += 1;
        assert(query@ =~= head + placeholders(all.take(i as int)));
    }
    assert(all.take(i as int) =~= all);
    query.append("})");
    assert(query@ =~= persist_text(label@, all));
    query
}

/// The query that finds the nodes with the label `label` whose property
/// `field` equals the parameter of the same name.
pub fn find_query(label: &str, field: &str) -> (query: String)
    ensures
        query@ == find_text(label@, field@),
{
    let mut query = String::from_str("match (n:");
    query.append(label);
    query.append(" {");
    put_placeholder(&mut query, field);
    query.append("}) return n");
    assert(query@ =~= find_text(label@, field@));
    query
}

/// The name of the function that finds every record by the field.
pub fn find_many_name(field: &str) -> (name: String)
    ensures
        name@ == "find_many_by_"@ + field@,
{
    let mut name = String::from_str("find_many_by_");
    name.append(field);
    name
}

/// The name of the function that finds one record by the field.
pub fn find_one_name(field: &str) -> (name: String)
    ensures
        name@ == "find_one_by_"@ + field@,
{
    let mut name = String::from_str("find_one_by_");
    name.append(field);
    name
}

} // verus!
