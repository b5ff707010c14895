//! The pipeline composer: framing, structured-value text, and typed
//! messages wired into one codec with the same staged-transform
//! shape, so driving code can treat the three stages as one.
use vstd::prelude::*;

use crate::event_codec::{
    lemma_message_round_trip, lemma_msg_value_wf, msg_to_value, scrub_headers, value_to_msg,
    wf_msg, EventBusMessage, EventCodec, SpecMessage,
};
use crate::frame_codec::{
    declared_len, frame_bytes, frame_complete, frame_incomplete, frame_payload, frame_rest,
    frame_too_large, lemma_frame_bytes_decode, FrameCodec, DEFAULT_MAX_FRAME_LEN,
};
use crate::json_codec::{denotes, JsonCodec};
use crate::ser::ser;
use crate::value::{wf, SpecValue};
use crate::{CodecError, DecodeStep};

verus! {

/// A message can go out whole: its text fits both the configured
/// maximum and the length prefix.  Every message has a text; only
/// its size can stand in the way.
pub open spec fn encodable(m: SpecMessage, max: nat) -> bool {
    &&& ser(msg_to_value(m)).len() <= max
    &&& ser(msg_to_value(m)).len() <= 0xFFFFFFFF
}

/// The end-to-end codec for one connection.  It holds only the three
/// stages' configuration; all buffered bytes stay in the caller's
/// buffers.
#[derive(Clone, Copy, Debug)]
pub struct ComboCodec {
    pub head: FrameCodec,
    pub json_codec: JsonCodec,
    pub event_codec: EventCodec,
}

impl ComboCodec {
    pub fn new() -> (r: Self)
        ensures
            r.head.max_frame_len == DEFAULT_MAX_FRAME_LEN,
    {
        ComboCodec { head: FrameCodec::new(), json_codec: JsonCodec::new(), event_codec: EventCodec::new() }
    }

    /// One decode pass: take a frame off the buffer if one is whole,
    /// parse it, and map it to a message.  Without a whole frame the
    /// buffer is left untouched; once a frame is whole it is consumed
    /// entirely, whatever happens after (a malformed payload cannot
    /// corrupt later frames).  An unrecognized `type` consumes the
    /// frame and produces no item.
    pub fn decode(&mut self, src: &mut Vec<u8>) -> (r: Result<
        DecodeStep<EventBusMessage>,
        CodecError,
    >)
        ensures
            *final(self) == *old(self),
            frame_incomplete(old(src)@, old(self).head.max_frame_len as nat) ==> (r matches Ok(s)
                && s is Incomplete) && final(src)@ == old(src)@,
            frame_too_large(old(src)@, old(self).head.max_frame_len as nat) ==> (r matches Err(e)
                && e matches CodecError::FrameTooLarge { declared, limit } && declared as nat
                == declared_len(old(src)@) && limit == old(self).head.max_frame_len) && final(src)@
                == old(src)@,
            frame_complete(old(src)@, old(self).head.max_frame_len as nat) ==> final(src)@
                == frame_rest(old(src)@),
            frame_complete(old(src)@, old(self).head.max_frame_len as nat) ==> (r matches Ok(
                DecodeStep::Item(m),
            ) ==> exists|sv: SpecValue|
                denotes(frame_payload(old(src)@), sv) && value_to_msg(sv) == Ok::<
                    Option<SpecMessage>,
                    (),
                >(Some(m@))),
            frame_complete(old(src)@, old(self).head.max_frame_len as nat) ==> (r matches Ok(s)
                && s is Incomplete ==> exists|sv: SpecValue|
                denotes(frame_payload(old(src)@), sv) && value_to_msg(sv) == Ok::<
                    Option<SpecMessage>,
                    (),
                >(None)),
            frame_complete(old(src)@, old(self).head.max_frame_len as nat) ==> (r matches Err(e)
                ==> ((e matches CodecError::ValueSyntax { bytes } && bytes@ == frame_payload(
                old(src)@,
            ) && !(exists|sv: SpecValue| denotes(frame_payload(old(src)@), sv))) || (
            e matches CodecError::MessageShape { value } && denotes(
                frame_payload(old(src)@),
                value@,
            ) && value_to_msg(value@) is Err))),
            frame_complete(old(src)@, old(self).head.max_frame_len as nat) && !(exists|
                sv: SpecValue,
            |
                denotes(frame_payload(old(src)@), sv)) ==> (r matches Err(
                CodecError::ValueSyntax { bytes },
            ) && bytes@ == frame_payload(old(src)@)),
            frame_complete(old(src)@, old(self).head.max_frame_len as nat) ==> (forall|
                sv: SpecValue,
            |
                #[trigger] denotes(frame_payload(old(src)@), sv) ==> ({
                    &&& (value_to_msg(sv) matches Ok(Some(msg)) ==> (r matches Ok(
                        DecodeStep::Item(m),
                    ) && m@ == msg))
                    &&& (value_to_msg(sv) == Ok::<Option<SpecMessage>, ()>(None) ==> (r matches Ok(
                        st,
                    ) && st is Incomplete))
                    &&& (value_to_msg(sv) is Err ==> r matches Err(
                        CodecError::MessageShape { .. },
                    ))
                })),
    {
        let frame = match self.head.decode(src) {
            Ok(DecodeStep::Incomplete) => {
                return Ok(DecodeStep::Incomplete);
            },
            Ok(DecodeStep::Item(f)) => f,
            Err(e) => {
                return Err(e);
            },
        };
        let v = match self.json_codec.decode_value(&frame) {
            Ok(v) => v,
            Err(e) => {
                return Err(e);
            },
        };
        match EventBusMessage::decode(&v) {
            Ok(Some(m)) => {
                proof {
                    assert(denotes(frame@, v@) && value_to_msg(v@) == Ok::<
                        Option<SpecMessage>,
                        (),
                    >(Some(m@)));
                    assert forall|sv: SpecValue|
                        denotes(frame@, sv) implies value_to_msg(sv) == Ok::<
                        Option<SpecMessage>,
                        (),
                    >(Some(m@)) by {
                        assert(v@ == sv);
                    }
                }
                Ok(DecodeStep::Item(m))
            },
            Ok(None) => {
                proof {
                    assert(denotes(frame@, v@) && value_to_msg(v@) == Ok::<
                        Option<SpecMessage>,
                        (),
                    >(None));
                    assert forall|sv: SpecValue|
                        denotes(frame@, sv) implies value_to_msg(sv) == Ok::<
                        Option<SpecMessage>,
                        (),
                    >(None) by {
                        assert(v@ == sv);
                    }
                }
                Ok(DecodeStep::Incomplete)
            },
            Err(e) => {
                proof {
                    assert(denotes(frame@, v@) && value_to_msg(v@) is Err);
                    assert forall|sv: SpecValue|
                        denotes(frame@, sv) implies value_to_msg(sv) is Err by {
                        assert(v@ == sv);
                    }
                }
                Err(e)
            },
        }
    }

    /// One encode pass: build the message's structured value, write
    /// its canonical text, and append one whole frame to `dst`.
    /// Never partial: on any failure `dst` is left untouched.
    pub fn encode(&mut self, item: EventBusMessage, dst: &mut Vec<u8>) -> (r: Result<
        (),
        CodecError,
    >)
        ensures
            *final(self) == *old(self),
            encodable(item@, old(self).head.max_frame_len as nat) ==> r is Ok && final(dst)@ == old(
                dst,
            )@ + frame_bytes(ser(msg_to_value(item@))),
            !encodable(item@, old(self).head.max_frame_len as nat) ==> (r matches Err(e)
                && e matches CodecError::FrameTooLarge { declared, limit } && declared == ser(
                msg_to_value(item@),
            ).len() && limit == old(self).head.max_frame_len) && final(dst)@ == old(dst)@,
    {
        let v = match self.event_codec.encode_message(item) {
            Ok(v) => v,
            Err(e) => {
                return Err(e);
            },
        };
        let bytes = match self.json_codec.encode_value(v) {
            Ok(b) => b,
            Err(e) => {
                return Err(e);
            },
        };
        self.head.encode(bytes, dst)
    }
}


/// The end-to-end round trip: the wire bytes that `encode` appends
/// for a representable message form one complete frame whose payload
/// decodes, per `decode`'s contract, to exactly the message again --
/// up to the documented headers asymmetry on `message` -- leaving any
/// following bytes untouched.
pub proof fn lemma_pipeline_round_trip(m: SpecMessage, rest: Seq<u8>, max: nat)
    requires
        encodable(m, max),
        wf_msg(m),
    ensures
        frame_complete(frame_bytes(ser(msg_to_value(m))) + rest, max),
        frame_payload(frame_bytes(ser(msg_to_value(m))) + rest) == ser(msg_to_value(m)),
        frame_rest(frame_bytes(ser(msg_to_value(m))) + rest) == rest,
        wf(msg_to_value(m)),
        denotes(ser(msg_to_value(m)), msg_to_value(m)),
        value_to_msg(msg_to_value(m)) == Ok::<Option<SpecMessage>, ()>(Some(scrub_headers(m))),
{
    lemma_frame_bytes_decode(ser(msg_to_value(m)), rest, max);
    lemma_message_round_trip(m);
    lemma_msg_value_wf(m);
    crate::canonical::lemma_strip_ser_id(msg_to_value(m));
}

} // verus!
