//! FAILURE: the server could not do what was asked, and says why.

use vstd::prelude::*;
use crate::convert::{FromValue, IntoValue};
use crate::error::{ConversionError, DecodeError};
use crate::value::{lookup, BoltMap, Value, ValueView};
use crate::derivation::{required, required_field, BoltStruct, Field};
use crate::value::views;

verus! {

pub const MARKER: u8 = 0xB1;

pub const SIGNATURE: u8 = 0x7F;

/// FAILURE: the server could not do what was asked, and says why.
#[derive(Debug, PartialEq, Clone)]
pub struct Failure {
    metadata: BoltMap,
}

impl View for Failure {
    type V = Seq<(Seq<char>, ValueView)>;

    /// The entries of the metadata, in insertion order.
    closed spec fn view(&self) -> Seq<(Seq<char>, ValueView)> {
        self.metadata@
    }
}

impl Failure {
    /// The marker and the signature under which the message travels.
    pub fn marker() -> (r: (u8, Option<u8>))
        ensures
            r == (MARKER, Some(SIGNATURE)),
    {
        (MARKER, Some(SIGNATURE))
    }

    pub fn new(metadata: BoltMap) -> (r: Failure)
        ensures
            r@ == metadata@,
    {
        Failure { metadata }
    }

    pub fn metadata(&self) -> (r: &BoltMap)
        ensures
            r@ == self@,
    {
        &self.metadata
    }

    /// The entry `key` of the metadata as a `T`: nothing where there is no
    /// such entry, the failure where its value does not convert.
    pub fn get<T: FromValue>(&self, key: &str) -> (r: Option<Result<T, ConversionError>>)
        ensures
            match lookup(self@, key@) {
                None => r is None,
                Some(v) => match r {
                    Some(Ok(x)) => T::refusal(v) is None && x.as_value() == v,
                    Some(Err(e)) => T::refusal(v) == Some(e),
                    None => false,
                },
            },
    {
        self.metadata.get(key)
    }
}

impl BoltStruct for Failure {
    open spec fn header() -> (u8, u8) {
        (MARKER, SIGNATURE)
    }

    open spec fn field_values(&self) -> Seq<ValueView> {
        seq![ValueView::Dict(self@)]
    }

    open spec fn read(fields: Seq<ValueView>) -> Result<Seq<ValueView>, DecodeError> {
        match required_field::<BoltMap>(fields, Field { name: "metadata", position: 0 }) {
            Err(e) => Err(e),
            Ok(metadata) => Ok(seq![metadata]),
        }
    }

    fn wire_header() -> (r: (u8, u8)) {
        (MARKER, SIGNATURE)
    }

    fn to_fields(&self) -> (fields: Vec<Value>) {
        let mut fields: Vec<Value> = Vec::new();
        fields.push(Value::Dict(self.metadata.duplicate()));
        assert(views(fields@) =~= self.field_values());
        fields
    }

    fn from_fields(fields: &Vec<Value>) -> (r: Result<Self, DecodeError>) {
        match required::<BoltMap>(fields, &Field { name: "metadata", position: 0 }) {
            Err(e) => Err(e),
            Ok(metadata) => Ok(Failure { metadata }),
        }
    }

    proof fn lemma_reads_own_fields(&self) {
    }
}

} // verus!
