//! The messages of the protocol, and the way from bytes to the right one.

use vstd::prelude::*;
use crate::codec::{decode_at, Cursor};
use crate::format::{encoded, parse, NULL, TINY_STRUCT};
use crate::derivation::{serialize, BoltStruct};
use crate::error::{DecodeError, EncodeError};
use crate::framing::{
    framed, lemma_standard_resolves, resolved, standard_entries, MessageKind, Registration,
    Registry,
};
use crate::messages::failure::Failure;
use crate::messages::hello::Hello;
use crate::messages::ignored::Ignored;
use crate::messages::pull::Pull;
use crate::messages::record::Record;
use crate::messages::reset::Reset;
use crate::messages::run::Run;
use crate::messages::success::Success;
use crate::roundtrip::{lemma_round_trip, lemma_truncated_incomplete};
use crate::value::{lemma_view_structure, views, Value, ValueView};

pub mod failure;
pub mod hello;
pub mod ignored;
pub mod pull;
pub mod record;
pub mod reset;
pub mod run;
pub mod success;

verus! {

/// A message of any kind.
#[derive(Debug, PartialEq, Clone)]
pub enum Message {
    Reset(Reset),
    Failure(Failure),
    Success(Success),
    Ignored(Ignored),
    Record(Record),
    Hello(Hello),
    Run(Run),
    Pull(Pull),
}

impl Message {
    pub open spec fn kind(&self) -> MessageKind {
        match self {
            Message::Reset(_) => MessageKind::Reset,
            Message::Failure(_) => MessageKind::Failure,
            Message::Success(_) => MessageKind::Success,
            Message::Ignored(_) => MessageKind::Ignored,
            Message::Record(_) => MessageKind::Record,
            Message::Hello(_) => MessageKind::Hello,
            Message::Run(_) => MessageKind::Run,
            Message::Pull(_) => MessageKind::Pull,
        }
    }

    /// The declared fields as values, in declared order.
    pub open spec fn field_values(&self) -> Seq<ValueView> {
        match self {
            Message::Reset(m) => m.field_values(),
            Message::Failure(m) => m.field_values(),
            Message::Success(m) => m.field_values(),
            Message::Ignored(m) => m.field_values(),
            Message::Record(m) => m.field_values(),
            Message::Hello(m) => m.field_values(),
            Message::Run(m) => m.field_values(),
            Message::Pull(m) => m.field_values(),
        }
    }

    /// The structure that stands for the message.
    pub open spec fn structure(&self) -> ValueView {
        ValueView::Structure {
            marker: self.kind().header().0,
            signature: self.kind().header().1,
            fields: self.field_values(),
        }
    }

    /// The kind of the message.
    pub fn message_kind(&self) -> (kind: MessageKind)
        ensures
            kind == self.kind(),
    {
        match self {
            Message::Reset(_) => MessageKind::Reset,
            Message::Failure(_) => MessageKind::Failure,
            Message::Success(_) => MessageKind::Success,
            Message::Ignored(_) => MessageKind::Ignored,
            Message::Record(_) => MessageKind::Record,
            Message::Hello(_) => MessageKind::Hello,
            Message::Run(_) => MessageKind::Run,
            Message::Pull(_) => MessageKind::Pull,
        }
    }

    /// The bytes of the message: its marker, its signature, and its fields
    /// in declared order.
    pub fn encode(&self) -> (r: Result<Vec<u8>, EncodeError>)
        ensures
            match r {
                Ok(bytes) => encoded(self.structure()) == Ok::<Seq<u8>, EncodeError>(bytes@),
                Err(e) => encoded(self.structure()) == Err::<Seq<u8>, EncodeError>(e),
            },
    {
        match self {
            Message::Reset(m) => serialize(m),
            Message::Failure(m) => serialize(m),
            Message::Success(m) => serialize(m),
            Message::Ignored(m) => serialize(m),
            Message::Record(m) => serialize(m),
            Message::Hello(m) => serialize(m),
            Message::Run(m) => serialize(m),
            Message::Pull(m) => serialize(m),
        }
    }
}

/// The fields of the message of kind `kind` that is read from `fields`.
pub open spec fn read_as(kind: MessageKind, fields: Seq<ValueView>) -> Result<
    Seq<ValueView>,
    DecodeError,
> {
    match kind {
        MessageKind::Reset => Reset::read(fields),
        MessageKind::Failure => Failure::read(fields),
        MessageKind::Success => Success::read(fields),
        MessageKind::Ignored => Ignored::read(fields),
        MessageKind::Record => Record::read(fields),
        MessageKind::Hello => Hello::read(fields),
        MessageKind::Run => Run::read(fields),
        MessageKind::Pull => Pull::read(fields),
    }
}

/// The message of kind `kind` with the fields `fields`.
pub fn from_kind(kind: MessageKind, fields: &Vec<Value>) -> (r: Result<Message, DecodeError>)
    ensures
        match r {
            Ok(m) => m.kind() == kind && read_as(kind, views(fields@)) == Ok::<
                Seq<ValueView>,
                DecodeError,
            >(m.field_values()),
            Err(e) => read_as(kind, views(fields@)) == Err::<Seq<ValueView>, DecodeError>(e),
        },
{
    match kind {
        MessageKind::Reset => match Reset::from_fields(fields) {
            Ok(m) => Ok(Message::Reset(m)),
            Err(e) => Err(e),
        },
        MessageKind::Failure => match Failure::from_fields(fields) {
            Ok(m) => Ok(Message::Failure(m)),
            Err(e) => Err(e),
        },
        MessageKind::Success => match Success::from_fields(fields) {
            Ok(m) => Ok(Message::Success(m)),
            Err(e) => Err(e),
        },
        MessageKind::Ignored => match Ignored::from_fields(fields) {
            Ok(m) => Ok(Message::Ignored(m)),
            Err(e) => Err(e),
        },
        MessageKind::Record => match Record::from_fields(fields) {
            Ok(m) => Ok(Message::Record(m)),
            Err(e) => Err(e),
        },
        MessageKind::Hello => match Hello::from_fields(fields) {
            Ok(m) => Ok(Message::Hello(m)),
            Err(e) => Err(e),
        },
        MessageKind::Run => match Run::from_fields(fields) {
            Ok(m) => Ok(Message::Run(m)),
            Err(e) => Err(e),
        },
        MessageKind::Pull => match Pull::from_fields(fields) {
            Ok(m) => Ok(Message::Pull(m)),
            Err(e) => Err(e),
        },
    }
}

/// The marker and the signature of the structure that begins at `pos`.
pub open spec fn peeked(bytes: Seq<u8>, pos: int) -> Result<(u8, u8), DecodeError> {
    if !(0 <= pos < bytes.len()) {
        Err(DecodeError::Incomplete)
    } else if !(TINY_STRUCT <= bytes[pos] < NULL) {
        Err(DecodeError::UnexpectedHeader)
    } else if pos + 1 >= bytes.len() {
        Err(DecodeError::Incomplete)
    } else {
        Ok((bytes[pos], bytes[pos + 1]))
    }
}

/// The marker and the signature of the structure that begins at `pos` in
/// `buf`. Nothing else of the structure has to be there yet.
pub fn peek_header(buf: &[u8], pos: usize) -> (r: Result<(u8, u8), DecodeError>)
    ensures
        r == peeked(buf@, pos as int),
{
    if pos >= buf.len() {
        Err(DecodeError::Incomplete)
    } else if !(TINY_STRUCT <= buf[pos] && buf[pos] < NULL) {
        Err(DecodeError::UnexpectedHeader)
    } else if buf.len() - pos < 2 {
        Err(DecodeError::Incomplete)
    } else {
        Ok((buf[pos], buf[pos + 1]))
    }
}

/// The kind and the fields of the message that begins at `pos`, and where
/// it ends. The header is looked at first and has to be registered; then
/// the structure is read, framed and handed to the kind that the header names.
pub open spec fn dispatched(entries: Seq<Registration>, bytes: Seq<u8>, pos: int) -> Result<
    (MessageKind, Seq<ValueView>, int),
    DecodeError,
> {
    match peeked(bytes, pos) {
        Err(e) => Err(e),
        Ok((marker, signature)) => match resolved(entries, marker, signature) {
            Err(e) => Err(e),
            Ok(_) => match parse(bytes, pos) {
                Err(e) => Err(e),
                Ok((v, next)) => match framed(entries, v) {
                    Err(e) => Err(e),
                    Ok(kind) => match v {
                        ValueView::Structure { marker, signature, fields } => match read_as(
                            kind,
                            fields,
                        ) {
                            Err(e) => Err(e),
                            Ok(read) => Ok((kind, read, next)),
                        },
                        _ => Err(DecodeError::UnexpectedHeader),
                    },
                },
            },
        },
    }
}

/// The message that begins at `pos` in `buf`, and the position that
/// follows it. The buffer is only read: after [`DecodeError::Incomplete`]
/// the same call on a longer buffer with the same beginning starts afresh.
pub fn decode_message(registry: &Registry, buf: &[u8], pos: usize) -> (r: Result<
    (Message, usize),
    DecodeError,
>)
    ensures
        match r {
            Ok((m, next)) => dispatched(registry@, buf@, pos as int) == Ok::<
                (MessageKind, Seq<ValueView>, int),
                DecodeError,
            >((m.kind(), m.field_values(), next as int)) && pos < next <= buf@.len(),
            Err(e) => dispatched(registry@, buf@, pos as int) == Err::<
                (MessageKind, Seq<ValueView>, int),
                DecodeError,
            >(e),
        },
{
    let (marker, signature) = match peek_header(buf, pos) {
        Err(e) => {
            return Err(e);
        },
        Ok(header) => header,
    };
    match registry.resolve(marker, signature) {
        Err(e) => {
            return Err(e);
        },
        Ok(_) => {},
    }
    let (v, next) = match decode_at(buf, pos) {
        Err(e) => {
            return Err(e);
        },
        Ok(read) => read,
    };
    let kind = match registry.frame(&v) {
        Err(e) => {
            return Err(e);
        },
        Ok(kind) => kind,
    };
    match &v {
        Value::Structure { marker, signature, fields } => {
            proof {
                lemma_view_structure(*marker, *signature, *fields);
            }
            match from_kind(kind, fields) {
                Err(e) => Err(e),
                Ok(m) => Ok((m, next)),
            }
        },
        _ => Err(DecodeError::UnexpectedHeader),
    }
}

impl Cursor {
    /// The message that begins at the cursor.
    pub fn read_message(&mut self, registry: &Registry, buf: &[u8]) -> (r: Result<
        Message,
        DecodeError,
    >)
        ensures
            match r {
                Ok(m) => dispatched(registry@, buf@, old(self).position as int) == Ok::<
                    (MessageKind, Seq<ValueView>, int),
                    DecodeError,
                >((m.kind(), m.field_values(), final(self).position as int)) && old(self).position
                    < final(self).position <= buf@.len(),
                Err(e) => dispatched(registry@, buf@, old(self).position as int) == Err::<
                    (MessageKind, Seq<ValueView>, int),
                    DecodeError,
                >(e) && final(self).position == old(self).position,
            },
    {
        match decode_message(registry, buf, self.position) {
            Ok((m, next)) => {
                self.position = next;
                Ok(m)
            },
            Err(e) => Err(e),
        }
    }
}

/// The fields of a message are read as a message of its kind.
pub proof fn lemma_reads_own_fields(m: Message)
    ensures
        read_as(m.kind(), m.field_values()) == Ok::<Seq<ValueView>, DecodeError>(
            m.field_values(),
        ),
{
    match m {
        Message::Reset(x) => x.lemma_reads_own_fields(),
        Message::Failure(x) => x.lemma_reads_own_fields(),
        Message::Success(x) => x.lemma_reads_own_fields(),
        Message::Ignored(x) => x.lemma_reads_own_fields(),
        Message::Record(x) => x.lemma_reads_own_fields(),
        Message::Hello(x) => x.lemma_reads_own_fields(),
        Message::Run(x) => x.lemma_reads_own_fields(),
        Message::Pull(x) => x.lemma_reads_own_fields(),
    }
}

/// Decoding the bytes of a message with the standard registry gives a
/// message of the same kind with the same fields, and uses up the bytes:
/// for every message whose fields are well formed and that has an encoding.
pub proof fn lemma_message_round_trip(m: Message)
    requires
        forall|i: int| 0 <= i < m.field_values().len() ==> (#[trigger] m.field_values()[i]).wf(),
        encoded(m.structure()) is Ok,
    ensures
        dispatched(standard_entries(), encoded(m.structure())->Ok_0, 0) == Ok::<
            (MessageKind, Seq<ValueView>, int),
            DecodeError,
        >((m.kind(), m.field_values(), encoded(m.structure())->Ok_0.len() as int)),
{
    let bytes = encoded(m.structure())->Ok_0;
    let header = m.kind().header();
    assert(bytes[0] == header.0);
    assert(bytes[1] == header.1);
    lemma_standard_resolves(m.kind());
    lemma_round_trip(m.structure());
    lemma_reads_own_fields(m);
}

/// The bytes of a message, cut short anywhere, are incomplete and
/// nothing else: for every message whose fields are well formed and that
/// has an encoding.
pub proof fn lemma_truncated_message_incomplete(m: Message, k: int)
    requires
        forall|i: int| 0 <= i < m.field_values().len() ==> (#[trigger] m.field_values()[i]).wf(),
        encoded(m.structure()) is Ok,
        0 <= k < encoded(m.structure())->Ok_0.len(),
    ensures
        dispatched(standard_entries(), encoded(m.structure())->Ok_0.take(k), 0) == Err::<
            (MessageKind, Seq<ValueView>, int),
            DecodeError,
        >(DecodeError::Incomplete),
{
    let bytes = encoded(m.structure())->Ok_0;
    let header = m.kind().header();
    assert(bytes[0] == header.0);
    assert(bytes[1] == header.1);
    lemma_standard_resolves(m.kind());
    lemma_truncated_incomplete(m.structure(), k);
}

} // verus!
