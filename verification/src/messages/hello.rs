//! HELLO: opens a session with the name of the client and its credentials.

use vstd::prelude::*;
use crate::error::DecodeError;
use crate::value::{BoltMap, Value, ValueView};
use crate::derivation::{required, required_field, BoltStruct, Field};
use crate::value::views;

verus! {

pub const MARKER: u8 = 0xB1;

pub const SIGNATURE: u8 = 0x01;

/// HELLO: opens a session with the name of the client and its credentials.
#[derive(Debug, PartialEq, Clone)]
pub struct Hello {
    extra: BoltMap,
}

impl View for Hello {
    type V = Seq<(Seq<char>, ValueView)>;

    /// The entries of the extra, in insertion order.
    closed spec fn view(&self) -> Seq<(Seq<char>, ValueView)> {
        self.extra@
    }
}

impl Hello {
    /// The marker and the signature under which the message travels.
    pub fn marker() -> (r: (u8, Option<u8>))
        ensures
            r == (MARKER, Some(SIGNATURE)),
    {
        (MARKER, Some(SIGNATURE))
    }

    pub fn new(extra: BoltMap) -> (r: Hello)
        ensures
            r@ == extra@,
    {
        Hello { extra }
    }

    pub fn extra(&self) -> (r: &BoltMap)
        ensures
            r@ == self@,
    {
        &self.extra
    }
}

impl BoltStruct for Hello {
    open spec fn header() -> (u8, u8) {
        (MARKER, SIGNATURE)
    }

    open spec fn field_values(&self) -> Seq<ValueView> {
        seq![ValueView::Dict(self@)]
    }

    open spec fn read(fields: Seq<ValueView>) -> Result<Seq<ValueView>, DecodeError> {
        match required_field::<BoltMap>(fields, Field { name: "extra", position: 0 }) {
            Err(e) => Err(e),
            Ok(extra) => Ok(seq![extra]),
        }
    }

    fn wire_header() -> (r: (u8, u8)) {
        (MARKER, SIGNATURE)
    }

    fn to_fields(&self) -> (fields: Vec<Value>) {
        let mut fields: Vec<Value> = Vec::new();
        fields.push(Value::Dict(self.extra.duplicate()));
        assert(views(fields@) =~= self.field_values());
        fields
    }

    fn from_fields(fields: &Vec<Value>) -> (r: Result<Self, DecodeError>) {
        match required::<BoltMap>(fields, &Field { name: "extra", position: 0 }) {
            Err(e) => Err(e),
            Ok(extra) => Ok(Hello { extra }),
        }
    }

    proof fn lemma_reads_own_fields(&self) {
    }
}

} // verus!
