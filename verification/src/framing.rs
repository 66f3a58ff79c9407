//! Which message a marker and a signature name.

use vstd::prelude::*;
use crate::error::DecodeError;
use crate::messages::{failure, hello, ignored, pull, record, reset, run, success};
use crate::value::{lemma_view_structure, Value, ValueView};

verus! {

/// The kinds of message that the library knows.
#[derive(Debug, Clone, Copy, PartialEq, Eq)]
pub enum MessageKind {
    Reset,
    Failure,
    Success,
    Ignored,
    Record,
    Hello,
    Run,
    Pull,
}

impl MessageKind {
    /// The marker and the signature under which the kind travels.
    pub open spec fn header(self) -> (u8, u8) {
        match self {
            MessageKind::Reset => (reset::MARKER, reset::SIGNATURE),
            MessageKind::Failure => (failure::MARKER, failure::SIGNATURE),
            MessageKind::Success => (success::MARKER, success::SIGNATURE),
            MessageKind::Ignored => (ignored::MARKER, ignored::SIGNATURE),
            MessageKind::Record => (record::MARKER, record::SIGNATURE),
            MessageKind::Hello => (hello::MARKER, hello::SIGNATURE),
            MessageKind::Run => (run::MARKER, run::SIGNATURE),
            MessageKind::Pull => (pull::MARKER, pull::SIGNATURE),
        }
    }

    pub fn wire_header(self) -> (r: (u8, u8))
        ensures
            r == self.header(),
    {
        match self {
            MessageKind::Reset => (reset::MARKER, reset::SIGNATURE),
            MessageKind::Failure => (failure::MARKER, failure::SIGNATURE),
            MessageKind::Success => (success::MARKER, success::SIGNATURE),
            MessageKind::Ignored => (ignored::MARKER, ignored::SIGNATURE),
            MessageKind::Record => (record::MARKER, record::SIGNATURE),
            MessageKind::Hello => (hello::MARKER, hello::SIGNATURE),
            MessageKind::Run => (run::MARKER, run::SIGNATURE),
            MessageKind::Pull => (pull::MARKER, pull::SIGNATURE),
        }
    }
}

/// One line of the registry: the kind that a marker and a signature name.
#[derive(Debug, Clone, Copy)]
pub struct Registration {
    pub marker: u8,
    pub signature: u8,
    pub kind: MessageKind,
}

/// The line under which a kind is registered by default.
pub open spec fn registration(kind: MessageKind) -> Registration {
    Registration { marker: kind.header().0, signature: kind.header().1, kind }
}

/// The kind of the first line with the marker and the signature.
pub open spec fn resolved(entries: Seq<Registration>, marker: u8, signature: u8) -> Result<
    MessageKind,
    DecodeError,
>
    decreases entries.len(),
{
    if entries.len() == 0 {
        Err(DecodeError::UnknownMessage)
    } else if entries[0].marker == marker && entries[0].signature == signature {
        Ok(entries[0].kind)
    } else {
        resolved(entries.drop_first(), marker, signature)
    }
}

/// The number of fields that a structure marker states: its low four bits.
pub open spec fn arity(marker: u8) -> nat {
    (marker % 16) as nat
}

/// The kind of message that the value `v` is framed as: it has to be a
/// structure, registered, with the number of fields that its marker states.
pub open spec fn framed(entries: Seq<Registration>, v: ValueView) -> Result<
    MessageKind,
    DecodeError,
> {
    match v {
        ValueView::Structure { marker, signature, fields } => match resolved(
            entries,
            marker,
            signature,
        ) {
            Err(e) => Err(e),
            Ok(kind) => if fields.len() == arity(marker) {
                Ok(kind)
            } else {
                Err(DecodeError::ArityMismatch)
            },
        },
        _ => Err(DecodeError::UnexpectedHeader),
    }
}

/// The lines of the registry that knows every kind.
pub open spec fn standard_entries() -> Seq<Registration> {
    seq![
        registration(MessageKind::Reset),
        registration(MessageKind::Failure),
        registration(MessageKind::Success),
        registration(MessageKind::Ignored),
        registration(MessageKind::Record),
        registration(MessageKind::Hello),
        registration(MessageKind::Run),
        registration(MessageKind::Pull),
    ]
}

/// The first line that matches decides.
pub proof fn lemma_resolved_at(entries: Seq<Registration>, i: int, marker: u8, signature: u8)
    requires
        0 <= i < entries.len(),
        entries[i].marker == marker,
        entries[i].signature == signature,
        forall|j: int|
            0 <= j < i ==> !((#[trigger] entries[j]).marker == marker && entries[j].signature
                == signature),
    ensures
        resolved(entries, marker, signature) == Ok::<MessageKind, DecodeError>(entries[i].kind),
    decreases i,
{
    if i > 0 {
        let rest = entries.drop_first();
        assert(!(entries[0].marker == marker && entries[0].signature == signature));
        assert forall|j: int| 0 <= j < i - 1 implies !((#[trigger] rest[j]).marker == marker
            && rest[j].signature == signature) by {
            assert(rest[j] == entries[j + 1]);
        }
        lemma_resolved_at(rest, i - 1, marker, signature);
    }
}

/// A line added at the end is found only where no earlier line matches.
pub proof fn lemma_resolved_push(
    entries: Seq<Registration>,
    added: Registration,
    marker: u8,
    signature: u8,
)
    ensures
        resolved(entries.push(added), marker, signature) == if resolved(
            entries,
            marker,
            signature,
        ) is Err && added.marker == marker && added.signature == signature {
            Ok::<MessageKind, DecodeError>(added.kind)
        } else {
            resolved(entries, marker, signature)
        },
    decreases entries.len(),
{
    let longer = entries.push(added);
    if entries.len() == 0 {
        assert(longer.drop_first() =~= entries);
    } else {
        assert(longer[0] == entries[0]);
        assert(longer.drop_first() =~= entries.drop_first().push(added));
        lemma_resolved_push(entries.drop_first(), added, marker, signature);
    }
}

/// Every kind is found in the standard registry, under its own marker and signature.
pub proof fn lemma_standard_resolves(kind: MessageKind)
    ensures
        resolved(standard_entries(), kind.header().0, kind.header().1) == Ok::<
            MessageKind,
            DecodeError,
        >(kind),
{
    let entries = standard_entries();
    let i: int = match kind {
        MessageKind::Reset => 0,
        MessageKind::Failure => 1,
        MessageKind::Success => 2,
        MessageKind::Ignored => 3,
        MessageKind::Record => 4,
        MessageKind::Hello => 5,
        MessageKind::Run => 6,
        MessageKind::Pull => 7,
    };
    assert(entries[i] == registration(kind));
    lemma_resolved_at(entries, i, kind.header().0, kind.header().1);
}

/// The number of fields that a structure marker states.
pub fn arity_of(marker: u8) -> (n: usize)
    ensures
        n == arity(marker),
{
    (marker % 16) as usize
}

/// The table from markers and signatures to kinds of message. It is filled
/// once, and only read from then on.
pub struct Registry {
    entries: Vec<Registration>,
}

impl View for Registry {
    type V = Seq<Registration>;

    closed spec fn view(&self) -> Seq<Registration> {
        self.entries@
    }
}

impl Registry {
    /// A registry that knows no message.
    pub fn new() -> (r: Registry)
        ensures
            r@ == Seq::<Registration>::empty(),
    {
        Registry { entries: Vec::new() }
    }

    /// The registry that knows every kind, each under its own marker and signature.
    pub fn standard() -> (r: Registry)
        ensures
            r@ == standard_entries(),
    {
        let kinds = [
            MessageKind::Reset,
            MessageKind::Failure,
            MessageKind::Success,
            MessageKind::Ignored,
            MessageKind::Record,
            MessageKind::Hello,
            MessageKind::Run,
            MessageKind::Pull,
        ];
        let mut entries: Vec<Registration> = Vec::new();
        let mut i: usize = 0;
        while i < 8
            invariant
                i <= 8,
                kinds@.len() == 8,
                kinds@[0] == MessageKind::Reset,
                kinds@[1] == MessageKind::Failure,
                kinds@[2] == MessageKind::Success,
                kinds@[3] == MessageKind::Ignored,
                kinds@[4] == MessageKind::Record,
                kinds@[5] == MessageKind::Hello,
                kinds@[6] == MessageKind::Run,
                kinds@[7] == MessageKind::Pull,
                entries@.len() == i,
                forall|j: int| 0 <= j < i ==> entries@[j] == registration(#[trigger] kinds@[j]),
            decreases 8 - i,
        {
            let kind = kinds[i];
            let (marker, signature) = kind.wire_header();
            entries.push(Registration { marker, signature, kind });
            i += 1;
        }
        assert(entries@ =~= standard_entries());
        Registry { entries }
    }

    /// Registers `kind` under the marker and the signature, unless a kind
    /// is registered under them already: what is registered stays.
    pub fn register(&mut self, marker: u8, signature: u8, kind: MessageKind) -> (added: bool)
        ensures
            added == (resolved(old(self)@, marker, signature) is Err),
            final(self)@ == if added {
                old(self)@.push(Registration { marker, signature, kind })
            } else {
                old(self)@
            },
            forall|m: u8, s: u8|
                #[trigger] resolved(final(self)@, m, s) == if added && m == marker && s
                    == signature {
                    Ok::<MessageKind, DecodeError>(kind)
                } else {
                    resolved(old(self)@, m, s)
                },
    {
        match self.resolve(marker, signature) {
            Ok(_) => false,
            Err(_) => {
                let added = Registration { marker, signature, kind };
                proof {
                    assert forall|m: u8, s: u8|
                        #[trigger] resolved(self@.push(added), m, s) == if m == marker && s
                            == signature {
                            Ok::<MessageKind, DecodeError>(kind)
                        } else {
                            resolved(self@, m, s)
                        } by {
                        lemma_resolved_push(self@, added, m, s);
                    }
                }
                self.entries.push(added);
                true
            },
        }
    }

    /// The kind registered under the marker and the signature.
    pub fn resolve(&self, marker: u8, signature: u8) -> (r: Result<MessageKind, DecodeError>)
        ensures
            r == resolved(self@, marker, signature),
    {
        let mut i: usize = 0;
        assert(self@.skip(0) =~= self@);
        while i < self.entries.len()
            invariant
                i <= self@.len(),
                self@ == self.entries@,
                resolved(self@, marker, signature) == resolved(
                    self@.skip(i as int),
                    marker,
                    signature,
                ),
            decreases self@.len() - i,
        {
            let entry = self.entries[i];
            if entry.marker == marker && entry.signature == signature {
                return Ok(entry.kind);
            }
            proof {
                assert(self@.skip(i as int).drop_first() =~= self@.skip(i + 1));
            }
            i += 1;
        }
        Err(DecodeError::UnknownMessage)
    }

    /// The kind of message that the value `v` is framed as.
    pub fn frame(&self, v: &Value) -> (r: Result<MessageKind, DecodeError>)
        ensures
            r == framed(self@, v@),
    {
        match v {
            Value::Structure { marker, signature, fields } => {
                proof {
                    lemma_view_structure(*marker, *signature, *fields);
                }
                match self.resolve(*marker, *signature) {
                    Err(e) => Err(e),
                    Ok(kind) => if fields.len() == arity_of(*marker) {
                        Ok(kind)
                    } else {
                        Err(DecodeError::ArityMismatch)
                    },
                }
            },
            _ => Err(DecodeError::UnexpectedHeader),
        }
    }
}

} // verus!
