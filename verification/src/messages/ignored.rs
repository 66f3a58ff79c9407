//! IGNORED: the server passed a request over, after an earlier failure.

use vstd::prelude::*;
use crate::format::encoded;
use crate::derivation::{structure_of, BoltStruct};
use crate::error::{DecodeError, EncodeError};
use crate::value::{views, Value, ValueView};

verus! {

pub const MARKER: u8 = 0xB0;

pub const SIGNATURE: u8 = 0x7E;

/// IGNORED: the server passed a request over, after an earlier failure.
#[derive(Debug, PartialEq, Eq, Clone)]
pub struct Ignored;

impl Ignored {
    /// The marker and the signature under which the message travels.
    pub fn marker() -> (r: (u8, Option<u8>))
        ensures
            r == (MARKER, Some(SIGNATURE)),
    {
        (MARKER, Some(SIGNATURE))
    }

    pub fn new() -> (r: Ignored)
        ensures
            r == Ignored,
    {
        Ignored
    }

    /// The two bytes of the message: its marker and its signature.
    pub fn to_bytes(&self) -> (bytes: Vec<u8>)
        ensures
            bytes@ == seq![MARKER, SIGNATURE],
            encoded(structure_of(*self)) == Ok::<Seq<u8>, EncodeError>(bytes@),
    {
        let mut bytes: Vec<u8> = Vec::new();
        bytes.push(MARKER);
        bytes.push(SIGNATURE);
        proof {
            lemma_bytes(*self);
            assert(bytes@ =~= seq![MARKER, SIGNATURE]);
        }
        bytes
    }
}

/// The message is its marker and its signature, and nothing more.
pub proof fn lemma_bytes(m: Ignored)
    ensures
        encoded(structure_of(m)) == Ok::<Seq<u8>, EncodeError>(seq![MARKER, SIGNATURE]),
{
    assert(seq![MARKER, SIGNATURE] + Seq::<u8>::empty() =~= seq![MARKER, SIGNATURE]);
}

impl BoltStruct for Ignored {
    open spec fn header() -> (u8, u8) {
        (MARKER, SIGNATURE)
    }

    open spec fn field_values(&self) -> Seq<ValueView> {
        Seq::empty()
    }

    open spec fn read(fields: Seq<ValueView>) -> Result<Seq<ValueView>, DecodeError> {
        Ok(Seq::empty())
    }

    fn wire_header() -> (r: (u8, u8)) {
        (MARKER, SIGNATURE)
    }

    fn to_fields(&self) -> (fields: Vec<Value>) {
        let fields: Vec<Value> = Vec::new();
        assert(views(fields@) =~= self.field_values());
        fields
    }

    fn from_fields(fields: &Vec<Value>) -> (r: Result<Self, DecodeError>) {
        Ok(Ignored)
    }

    proof fn lemma_reads_own_fields(&self) {
    }
}

} // verus!
