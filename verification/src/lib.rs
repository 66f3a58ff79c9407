//! A client-side codec for the Bolt wire protocol.
//!
//! Values are laid out in the PackStream format: a marker byte that names the
//! kind of value, a size where the kind has one, then the payload. Messages
//! are structures: a marker that carries the number of fields, a signature
//! byte that names the message, then the fields in their declared order.
//!
//! Every function is verified against a mathematical model of the format. The
//! model of a [`value::Value`] is its view, a [`value::ValueView`]; the bytes
//! that stand for it are given by [`format::encoded`], and what a buffer holds
//! by [`format::parse`].

pub mod error;
pub mod wire;
pub mod value;
pub mod format;
pub mod codec;
pub mod parsed;
pub mod roundtrip;
pub mod convert;
pub mod derivation;
pub mod messages;
pub mod framing;
pub mod label;
