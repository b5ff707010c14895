//! Wire codec for a TCP-carried publish/subscribe event bus.
//!
//! The codec turns a raw octet stream into typed event-bus messages and
//! back, in three stages: length-prefixed framing, JSON text, and the
//! typed message vocabulary.  Each stage decodes to either an item or
//! "incomplete" (more bytes needed), and the stages compose into one
//! end-to-end codec.
use vstd::prelude::*;

pub mod value;
pub mod ser;
pub mod canonical;
pub mod parse;
pub mod frame_codec;
pub mod json_codec;
pub mod event_codec;
pub mod combo_codec;

use crate::value::JsonValue;

verus! {

/// The single fatal error kind shared by every stage, carrying enough
/// of the offending input to diagnose it.
#[derive(Debug)]
pub enum CodecError {
    /// The length prefix declares a payload larger than the configured
    /// maximum frame size.
    FrameTooLarge { declared: usize, limit: usize },
    /// A frame's payload is not valid structured-value text.
    ValueSyntax { bytes: Vec<u8> },
    /// A recognized message type whose required field is missing or of
    /// the wrong shape.
    MessageShape { value: JsonValue },
}

/// Outcome of one decode step: either a finished item, or a signal that
/// more input is needed before an item can be produced.
#[derive(Debug)]
pub enum DecodeStep<T> {
    Item(T),
    Incomplete,
}

/// A decoding stage: reads a source value and yields an item, signals
/// that the source is not yet complete, or fails fatally.
pub trait TypeDecoder<Item> {
    type Source;

    type Error;

    fn decode(&mut self, src: &Self::Source) -> Result<DecodeStep<Item>, Self::Error>;

    /// Lifts `decode` over an optional source, so stages chain without
    /// each one re-implementing "no data yet" handling.
    fn try_decode(&mut self, src: &DecodeStep<Self::Source>) -> (r: Result<
        DecodeStep<Item>,
        Self::Error,
    >)
        ensures
            src is Incomplete ==> (r matches Ok(s) && s is Incomplete),
    {
        match src {
            DecodeStep::Incomplete => Ok(DecodeStep::Incomplete),
            DecodeStep::Item(s) => self.decode(s),
        }
    }
}

/// An encoding stage: consumes an item and produces a destination
/// value, or fails fatally without partial effects.
pub trait TypeEncoder<Item> {
    type Destination;

    type Error;

    fn encode(&mut self, item: Item) -> Result<Self::Destination, Self::Error>;
}

} // verus!
