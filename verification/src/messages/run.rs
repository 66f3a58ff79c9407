//! RUN: a query to execute, with its parameters.

use vstd::prelude::*;
use crate::derivation::{required, required_field, BoltStruct, Field};
use crate::error::DecodeError;
use crate::value::{views, BoltMap, Value, ValueView};

verus! {

pub const MARKER: u8 = 0xB3;

pub const SIGNATURE: u8 = 0x10;

/// RUN: a query to execute, with its parameters.
#[derive(Debug, PartialEq, Clone)]
pub struct Run {
    query: String,
    parameters: BoltMap,
    extra: BoltMap,
}

impl View for Run {
    type V = (Seq<char>, Seq<(Seq<char>, ValueView)>, Seq<(Seq<char>, ValueView)>);

    /// The query, the parameters and the extra entries.
    closed spec fn view(&self) -> Self::V {
        (self.query@, self.parameters@, self.extra@)
    }
}

impl Run {
    /// The marker and the signature under which the message travels.
    pub fn marker() -> (r: (u8, Option<u8>))
        ensures
            r == (MARKER, Some(SIGNATURE)),
    {
        (MARKER, Some(SIGNATURE))
    }

    pub fn new(query: String, parameters: BoltMap, extra: BoltMap) -> (r: Run)
        ensures
            r@ == (query@, parameters@, extra@),
    {
        Run { query, parameters, extra }
    }

    pub fn query(&self) -> (r: &String)
        ensures
            r@ == self@.0,
    {
        &self.query
    }

    pub fn parameters(&self) -> (r: &BoltMap)
        ensures
            r@ == self@.1,
    {
        &self.parameters
    }

    pub fn extra(&self) -> (r: &BoltMap)
        ensures
            r@ == self@.2,
    {
        &self.extra
    }
}

impl BoltStruct for Run {
    open spec fn header() -> (u8, u8) {
        (MARKER, SIGNATURE)
    }

    open spec fn field_values(&self) -> Seq<ValueView> {
        seq![ValueView::Text(self@.0), ValueView::Dict(self@.1), ValueView::Dict(self@.2)]
    }

    open spec fn read(fields: Seq<ValueView>) -> Result<Seq<ValueView>, DecodeError> {
        match required_field::<String>(fields, Field { name: "query", position: 0 }) {
            Err(e) => Err(e),
            Ok(query) => match required_field::<BoltMap>(
                fields,
                Field { name: "parameters", position: 1 },
            ) {
                Err(e) => Err(e),
                Ok(parameters) => match required_field::<BoltMap>(
                    fields,
                    Field { name: "extra", position: 2 },
                ) {
                    Err(e) => Err(e),
                    Ok(extra) => Ok(seq![query, parameters, extra]),
                },
            },
        }
    }

    fn wire_header() -> (r: (u8, u8)) {
        (MARKER, SIGNATURE)
    }

    fn to_fields(&self) -> (fields: Vec<Value>) {
        let mut fields: Vec<Value> = Vec::new();
        fields.push(Value::Text(self.query.clone()));
        fields.push(Value::Dict(self.parameters.duplicate()));
        fields.push(Value::Dict(self.extra.duplicate()));
        assert(views(fields@) =~= self.field_values());
        fields
    }

    fn from_fields(fields: &Vec<Value>) -> (r: Result<Self, DecodeError>) {
        let query = match required::<String>(fields, &Field { name: "query", position: 0 }) {
            Err(e) => {
                return Err(e);
            },
            Ok(query) => query,
        };
        let parameters = match required::<BoltMap>(
            fields,
            &Field { name: "parameters", position: 1 },
        ) {
            Err(e) => {
                return Err(e);
            },
            Ok(parameters) => parameters,
        };
        let extra = match required::<BoltMap>(fields, &Field { name: "extra", position: 2 }) {
            Err(e) => {
                return Err(e);
            },
            Ok(extra) => extra,
        };
        Ok(Run { query, parameters, extra })
    }

    proof fn lemma_reads_own_fields(&self) {
    }
}

} // verus!
