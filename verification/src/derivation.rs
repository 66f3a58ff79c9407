//! Messages from declared fields.
//!
//! A message type declares its marker and signature and, field by field,
//! how its fields go into values and come out of them. Everything that
//! touches bytes is done here, once, for all of them.

use vstd::prelude::*;
use crate::codec::{decode_at, encode};
use crate::format::{encoded, parse};
use crate::framing::{arity, arity_of};
use crate::convert::FromValue;
use crate::error::{ConversionError, DecodeError, EncodeError};
use crate::roundtrip::lemma_round_trip;
use crate::value::{lemma_view_structure, views, Value, ValueView};

verus! {

/// A declared field: its name, and its place among the fields of the structure.
#[derive(Debug, Clone, Copy)]
pub struct Field {
    pub name: &'static str,
    pub position: usize,
}

/// What a required field is read from: the value at its place, where that
/// converts to the native type `T`. A field that is not there fails as one
/// of the wrong kind does.
pub open spec fn required_field<T: FromValue>(fields: Seq<ValueView>, field: Field) -> Result<
    ValueView,
    DecodeError,
> {
    if field.position >= fields.len() {
        Err(
            DecodeError::FieldError {
                field_name: field.name,
                cause: ConversionError::TypeMismatch,
            },
        )
    } else {
        match T::refusal(fields[field.position as int]) {
            Some(cause) => Err(DecodeError::FieldError { field_name: field.name, cause }),
            None => Ok(fields[field.position as int]),
        }
    }
}

/// Whether an optional field has no value: it is not there, or it is null.
pub open spec fn unset(fields: Seq<ValueView>, field: Field) -> bool {
    field.position >= fields.len() || fields[field.position as int] is Null
}

/// What an optional field is read from: null where it has no value, else
/// as a required field.
pub open spec fn optional_field<T: FromValue>(fields: Seq<ValueView>, field: Field) -> Result<
    ValueView,
    DecodeError,
> {
    if unset(fields, field) {
        Ok(ValueView::Null)
    } else {
        required_field::<T>(fields, field)
    }
}

/// Reads a field that has to be there.
pub fn required<T: FromValue>(fields: &Vec<Value>, field: &Field) -> (r: Result<T, DecodeError>)
    ensures
        match r {
            Ok(x) => required_field::<T>(views(fields@), *field) == Ok::<ValueView, DecodeError>(
                x.as_value(),
            ),
            Err(e) => required_field::<T>(views(fields@), *field) == Err::<ValueView, DecodeError>(
                e,
            ),
        },
{
    if field.position >= fields.len() {
        return Err(
            DecodeError::FieldError {
                field_name: field.name,
                cause: ConversionError::TypeMismatch,
            },
        );
    }
    match T::try_from_value(&fields[field.position]) {
        Ok(x) => Ok(x),
        Err(cause) => Err(DecodeError::FieldError { field_name: field.name, cause }),
    }
}

/// Reads a field that may be left out or null: `None` says that it has no value.
pub fn optional<T: FromValue>(fields: &Vec<Value>, field: &Field) -> (r: Result<
    Option<T>,
    DecodeError,
>)
    ensures
        match r {
            Ok(Some(x)) => !unset(views(fields@), *field) && optional_field::<T>(
                views(fields@),
                *field,
            ) == Ok::<ValueView, DecodeError>(x.as_value()),
            Ok(None) => unset(views(fields@), *field),
            Err(e) => optional_field::<T>(views(fields@), *field) == Err::<ValueView, DecodeError>(
                e,
            ),
        },
{
    if field.position >= fields.len() {
        return Ok(None);
    }
    match &fields[field.position] {
        Value::Null => Ok(None),
        _ => match required::<T>(fields, field) {
            Ok(x) => Ok(Some(x)),
            Err(e) => Err(e),
        },
    }
}

/// Reads a field that may be left out or null, and then has the value `default`.
pub fn defaulted<T: FromValue>(fields: &Vec<Value>, field: &Field, default: T) -> (r: Result<
    T,
    DecodeError,
>)
    ensures
        match r {
            Ok(x) => if unset(views(fields@), *field) {
                x == default
            } else {
                required_field::<T>(views(fields@), *field) == Ok::<ValueView, DecodeError>(
                    x.as_value(),
                )
            },
            Err(e) => !unset(views(fields@), *field) && required_field::<T>(
                views(fields@),
                *field,
            ) == Err::<ValueView, DecodeError>(e),
        },
{
    match optional::<T>(fields, field) {
        Ok(Some(x)) => Ok(x),
        Ok(None) => Ok(default),
        Err(e) => Err(e),
    }
}

/// A message type: a marker, a signature and a list of declared fields.
pub trait BoltStruct: Sized {
    /// The marker and the signature under which the message travels.
    spec fn header() -> (u8, u8);

    /// The declared fields as values, in declared order.
    spec fn field_values(&self) -> Seq<ValueView>;

    /// The fields of the message that is read from `fields`, or why none is.
    spec fn read(fields: Seq<ValueView>) -> Result<Seq<ValueView>, DecodeError>;

    fn wire_header() -> (r: (u8, u8))
        ensures
            r == Self::header(),
    ;

    fn to_fields(&self) -> (fields: Vec<Value>)
        ensures
            views(fields@) == self.field_values(),
    ;

    fn from_fields(fields: &Vec<Value>) -> (r: Result<Self, DecodeError>)
        ensures
            match r {
                Ok(m) => Self::read(views(fields@)) == Ok::<Seq<ValueView>, DecodeError>(
                    m.field_values(),
                ),
                Err(e) => Self::read(views(fields@)) == Err::<Seq<ValueView>, DecodeError>(e),
            },
    ;

    /// The fields of a message are read as that message.
    proof fn lemma_reads_own_fields(&self)
        ensures
            Self::read(self.field_values()) == Ok::<Seq<ValueView>, DecodeError>(
                self.field_values(),
            ),
    ;
}

/// The structure that stands for the message `m`.
pub open spec fn structure_of<M: BoltStruct>(m: M) -> ValueView {
    ValueView::Structure {
        marker: M::header().0,
        signature: M::header().1,
        fields: m.field_values(),
    }
}

/// The fields of the message of type `M` that `v` stands for. A value that
/// is no structure, or one with another marker or signature, stands for
/// none; nor does a structure without the number of fields that its marker states.
pub open spec fn read_structure<M: BoltStruct>(v: ValueView) -> Result<
    Seq<ValueView>,
    DecodeError,
> {
    match v {
        ValueView::Structure { marker, signature, fields } => if (marker, signature)
            != M::header() {
            Err(DecodeError::UnexpectedHeader)
        } else if fields.len() != arity(marker) {
            Err(DecodeError::ArityMismatch)
        } else {
            M::read(fields)
        },
        _ => Err(DecodeError::UnexpectedHeader),
    }
}

/// The fields of the message of type `M` that begins at `pos`, and where it ends.
pub open spec fn parsed_struct<M: BoltStruct>(bytes: Seq<u8>, pos: int) -> Result<
    (Seq<ValueView>, int),
    DecodeError,
> {
    match parse(bytes, pos) {
        Err(e) => Err(e),
        Ok((v, next)) => match read_structure::<M>(v) {
            Err(e) => Err(e),
            Ok(fields) => Ok((fields, next)),
        },
    }
}

/// The structure that stands for `m`.
pub fn to_structure<M: BoltStruct>(m: &M) -> (v: Value)
    ensures
        v@ == structure_of(*m),
{
    let (marker, signature) = M::wire_header();
    let fields = m.to_fields();
    proof {
        lemma_view_structure(marker, signature, fields);
    }
    Value::Structure { marker, signature, fields }
}

/// The message that `v` stands for.
pub fn from_structure<M: BoltStruct>(v: &Value) -> (r: Result<M, DecodeError>)
    ensures
        match r {
            Ok(m) => read_structure::<M>(v@) == Ok::<Seq<ValueView>, DecodeError>(
                m.field_values(),
            ),
            Err(e) => read_structure::<M>(v@) == Err::<Seq<ValueView>, DecodeError>(e),
        },
{
    let (expected_marker, expected_signature) = M::wire_header();
    match v {
        Value::Structure { marker, signature, fields } => {
            proof {
                lemma_view_structure(*marker, *signature, *fields);
            }
            if *marker != expected_marker || *signature != expected_signature {
                Err(DecodeError::UnexpectedHeader)
            } else if fields.len() != arity_of(*marker) {
                Err(DecodeError::ArityMismatch)
            } else {
                M::from_fields(fields)
            }
        },
        _ => Err(DecodeError::UnexpectedHeader),
    }
}

/// The bytes of the message `m`: its marker, its signature, and its fields
/// in declared order.
pub fn serialize<M: BoltStruct>(m: &M) -> (r: Result<Vec<u8>, EncodeError>)
    ensures
        match r {
            Ok(bytes) => encoded(structure_of(*m)) == Ok::<Seq<u8>, EncodeError>(bytes@),
            Err(e) => encoded(structure_of(*m)) == Err::<Seq<u8>, EncodeError>(e),
        },
{
    let v = to_structure(m);
    encode(&v)
}

/// The message of type `M` that begins at `pos` in `buf`, and the position
/// that follows it.
pub fn deserialize<M: BoltStruct>(buf: &[u8], pos: usize) -> (r: Result<(M, usize), DecodeError>)
    ensures
        match r {
            Ok((m, next)) => parsed_struct::<M>(buf@, pos as int) == Ok::<
                (Seq<ValueView>, int),
                DecodeError,
            >((m.field_values(), next as int)) && pos < next <= buf@.len(),
            Err(e) => parsed_struct::<M>(buf@, pos as int) == Err::<
                (Seq<ValueView>, int),
                DecodeError,
            >(e),
        },
{
    match decode_at(buf, pos) {
        Err(e) => Err(e),
        Ok((v, next)) => match from_structure::<M>(&v) {
            Err(e) => Err(e),
            Ok(m) => Ok((m, next)),
        },
    }
}

/// Reading the bytes of a message gives a message with the same fields, and
/// uses up the bytes: for every message type, and every message of it whose
/// fields are well formed and that has an encoding.
pub proof fn lemma_struct_round_trip<M: BoltStruct>(m: M)
    requires
        forall|i: int| 0 <= i < m.field_values().len() ==> (#[trigger] m.field_values()[i]).wf(),
        encoded(structure_of(m)) is Ok,
    ensures
        parsed_struct::<M>(encoded(structure_of(m))->Ok_0, 0) == Ok::<
            (Seq<ValueView>, int),
            DecodeError,
        >((m.field_values(), encoded(structure_of(m))->Ok_0.len() as int)),
{
    lemma_round_trip(structure_of(m));
    m.lemma_reads_own_fields();
}

} // verus!
