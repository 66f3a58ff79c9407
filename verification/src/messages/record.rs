//! RECORD: one row of a result.

use vstd::prelude::*;
use crate::derivation::{required, required_field, BoltStruct, Field};
use crate::error::DecodeError;
use crate::value::{duplicate_all, lemma_view_list, views, Value, ValueView};

verus! {

pub const MARKER: u8 = 0xB1;

pub const SIGNATURE: u8 = 0x71;

/// RECORD: one row of a result.
#[derive(Debug, PartialEq, Clone)]
pub struct Record {
    data: Vec<Value>,
}

impl View for Record {
    type V = Seq<ValueView>;

    /// The values of the row, in their order.
    closed spec fn view(&self) -> Seq<ValueView> {
        views(self.data@)
    }
}

impl Record {
    /// The marker and the signature under which the message travels.
    pub fn marker() -> (r: (u8, Option<u8>))
        ensures
            r == (MARKER, Some(SIGNATURE)),
    {
        (MARKER, Some(SIGNATURE))
    }

    pub fn new(data: Vec<Value>) -> (r: Record)
        ensures
            r@ == views(data@),
    {
        Record { data }
    }

    pub fn data(&self) -> (r: &Vec<Value>)
        ensures
            views(r@) == self@,
    {
        &self.data
    }
}

impl BoltStruct for Record {
    open spec fn header() -> (u8, u8) {
        (MARKER, SIGNATURE)
    }

    open spec fn field_values(&self) -> Seq<ValueView> {
        seq![ValueView::List(self@)]
    }

    open spec fn read(fields: Seq<ValueView>) -> Result<Seq<ValueView>, DecodeError> {
        match required_field::<Vec<Value>>(fields, Field { name: "data", position: 0 }) {
            Err(e) => Err(e),
            Ok(data) => Ok(seq![data]),
        }
    }

    fn wire_header() -> (r: (u8, u8)) {
        (MARKER, SIGNATURE)
    }

    fn to_fields(&self) -> (fields: Vec<Value>) {
        let data = duplicate_all(&self.data);
        proof {
            lemma_view_list(data);
        }
        let mut fields: Vec<Value> = Vec::new();
        fields.push(Value::List(data));
        assert(views(fields@) =~= self.field_values());
        fields
    }

    fn from_fields(fields: &Vec<Value>) -> (r: Result<Self, DecodeError>) {
        match required::<Vec<Value>>(fields, &Field { name: "data", position: 0 }) {
            Err(e) => Err(e),
            Ok(data) => Ok(Record { data }),
        }
    }

    proof fn lemma_reads_own_fields(&self) {
    }
}

} // verus!
