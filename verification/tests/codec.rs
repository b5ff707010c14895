use eventbus_codec::combo_codec::ComboCodec;
use eventbus_codec::event_codec::EventBusMessage;
use eventbus_codec::frame_codec::FrameCodec;
use eventbus_codec::json_codec::JsonCodec;
use eventbus_codec::value::JsonValue;
use eventbus_codec::{CodecError, DecodeStep, TypeDecoder};

fn frame(payload: &[u8]) -> Vec<u8> {
    let n = payload.len() as u32;
    let mut out = vec![
        (n >> 24) as u8,
        ((n >> 16) & 0xff) as u8,
        ((n >> 8) & 0xff) as u8,
        (n & 0xff) as u8,
    ];
    out.extend_from_slice(payload);
    out
}

fn json_text(v: &JsonValue) -> Vec<u8> {
    JsonCodec::new()
        .encode_value(v.clone())
        .expect("value should be representable")
}

#[test]
fn ping_frame_decodes_to_ping() {
    let mut codec = ComboCodec::new();
    let mut buf = frame(b"{\"type\":\"ping\"}");
    let r = codec.decode(&mut buf);
    assert!(matches!(r, Ok(DecodeStep::Item(EventBusMessage::Ping))));
    assert!(buf.is_empty());
}

#[test]
fn pong_frame_decodes_to_pong() {
    let mut codec = ComboCodec::new();
    let mut buf = frame(b"{\"type\":\"pong\"}");
    let r = codec.decode(&mut buf);
    assert!(matches!(r, Ok(DecodeStep::Item(EventBusMessage::Pong))));
}

#[test]
fn encode_register_produces_expected_json() {
    let mut codec = ComboCodec::new();
    let mut out: Vec<u8> = Vec::new();
    let m = EventBusMessage::Register(b"inbox1".to_vec());
    codec.encode(m, &mut out).expect("encode should succeed");
    let expected = b"{\"type\":\"register\",\"address\":\"inbox1\"}";
    assert_eq!(out, frame(expected));
}

#[test]
fn encode_message_omits_headers_and_keeps_reply_address() {
    let mut codec = ComboCodec::new();
    let mut out: Vec<u8> = Vec::new();
    let m = EventBusMessage::Message {
        address: b"a".to_vec(),
        headers: JsonValue::Obj(vec![(b"h".to_vec(), JsonValue::Bool(true))]),
        body: JsonValue::Null,
        reply_address: Some(b"r".to_vec()),
    };
    codec.encode(m, &mut out).expect("encode should succeed");
    let expected = b"{\"type\":\"message\",\"address\":\"a\",\"body\":null,\"replyAddress\":\"r\"}";
    assert_eq!(out, frame(expected));
}

#[test]
fn encode_message_without_reply_writes_null() {
    let mut codec = ComboCodec::new();
    let mut out: Vec<u8> = Vec::new();
    let m = EventBusMessage::Message {
        address: b"a".to_vec(),
        headers: JsonValue::Null,
        body: JsonValue::Int(3),
        reply_address: None,
    };
    codec.encode(m, &mut out).expect("encode should succeed");
    let expected = b"{\"type\":\"message\",\"address\":\"a\",\"body\":3,\"replyAddress\":null}";
    assert_eq!(out, frame(expected));
}

#[test]
fn decode_send_with_fields() {
    let mut codec = ComboCodec::new();
    let mut buf = frame(b"{\"type\":\"send\",\"address\":\"a\",\"headers\":{},\"body\":{\"x\":1}}");
    let r = codec.decode(&mut buf);
    match r {
        Ok(DecodeStep::Item(EventBusMessage::Send { address, headers, body })) => {
            assert_eq!(address, b"a".to_vec());
            assert!(matches!(headers, JsonValue::Obj(ref ps) if ps.is_empty()));
            match body {
                JsonValue::Obj(ps) => {
                    assert_eq!(ps.len(), 1);
                    assert_eq!(ps[0].0, b"x".to_vec());
                    assert!(matches!(ps[0].1, JsonValue::Int(1)));
                },
                other => panic!("unexpected body: {:?}", other),
            }
        },
        other => panic!("unexpected outcome: {:?}", other),
    }
    assert!(buf.is_empty());
}

#[test]
fn round_trip_every_variant() {
    let messages = vec![
        EventBusMessage::Ping,
        EventBusMessage::Pong,
        EventBusMessage::Send {
            address: b"addr".to_vec(),
            headers: JsonValue::Obj(vec![(b"k".to_vec(), JsonValue::Str(b"v".to_vec()))]),
            body: JsonValue::Arr(vec![JsonValue::Int(-5), JsonValue::Bool(false)]),
        },
        EventBusMessage::Register(b"inbox1".to_vec()),
    ];
    for m in messages {
        let mut codec = ComboCodec::new();
        let mut wire: Vec<u8> = Vec::new();
        codec.encode(m.clone(), &mut wire).expect("encode should succeed");
        let r = codec.decode(&mut wire).expect("decode should succeed");
        let back = match r {
            DecodeStep::Item(back) => back,
            DecodeStep::Incomplete => panic!("expected an item"),
        };
        assert_eq!(json_text(&message_to_value(&back)), json_text(&message_to_value(&m)));
        assert!(wire.is_empty());
    }
}

// Re-encodes a message as its wire value for comparison in tests.
fn message_to_value(m: &EventBusMessage) -> JsonValue {
    match m {
        EventBusMessage::Ping => JsonValue::Str(b"ping".to_vec()),
        EventBusMessage::Pong => JsonValue::Str(b"pong".to_vec()),
        EventBusMessage::Send { address, headers, body } => JsonValue::Arr(vec![
            JsonValue::Str(address.clone()),
            headers.clone(),
            body.clone(),
        ]),
        EventBusMessage::Message { address, headers, body, reply_address } => JsonValue::Arr(vec![
            JsonValue::Str(address.clone()),
            headers.clone(),
            body.clone(),
            match reply_address {
                Some(r) => JsonValue::Str(r.clone()),
                None => JsonValue::Null,
            },
        ]),
        EventBusMessage::Register(address) => JsonValue::Str(address.clone()),
    }
}

#[test]
fn message_round_trip_drops_headers() {
    let mut codec = ComboCodec::new();
    let m = EventBusMessage::Message {
        address: b"a".to_vec(),
        headers: JsonValue::Obj(vec![(b"h".to_vec(), JsonValue::Int(1))]),
        body: JsonValue::Str(b"payload".to_vec()),
        reply_address: Some(b"reply".to_vec()),
    };
    let mut wire: Vec<u8> = Vec::new();
    codec.encode(m, &mut wire).expect("encode should succeed");
    let r = codec.decode(&mut wire).expect("decode should succeed");
    match r {
        DecodeStep::Item(EventBusMessage::Message { address, headers, body, reply_address }) => {
            assert_eq!(address, b"a".to_vec());
            // the outbound form omits headers, so they come back null
            assert!(matches!(headers, JsonValue::Null));
            assert!(matches!(body, JsonValue::Str(ref s) if s == &b"payload".to_vec()));
            assert_eq!(reply_address, Some(b"reply".to_vec()));
        },
        other => panic!("unexpected outcome: {:?}", other),
    }
}

#[test]
fn chunked_delivery_equals_single_delivery() {
    let payload = b"{\"type\":\"register\",\"address\":\"inbox1\"}";
    let whole = frame(payload);
    for split in 0..whole.len() {
        let mut codec = ComboCodec::new();
        let mut buf: Vec<u8> = whole[..split].to_vec();
        match codec.decode(&mut buf) {
            Ok(DecodeStep::Incomplete) => {},
            other => panic!("prefix of {} bytes should be incomplete, got {:?}", split, other),
        }
        // the buffer is untouched, so appending the rest recreates the whole
        assert_eq!(buf, whole[..split].to_vec());
        buf.extend_from_slice(&whole[split..]);
        let r = codec.decode(&mut buf);
        match r {
            Ok(DecodeStep::Item(EventBusMessage::Register(address))) => {
                assert_eq!(address, b"inbox1".to_vec());
            },
            other => panic!("unexpected outcome: {:?}", other),
        }
        assert!(buf.is_empty());
    }
}

#[test]
fn oversized_length_prefix_is_fatal_and_consumes_nothing() {
    let mut codec = ComboCodec::new();
    let mut buf = vec![0xffu8, 0xff, 0xff, 0xff, 1, 2, 3];
    let before = buf.clone();
    match codec.decode(&mut buf) {
        Err(CodecError::FrameTooLarge { declared, limit }) => {
            assert_eq!(declared, 0xffffffff);
            assert_eq!(limit, 8388608);
        },
        other => panic!("unexpected outcome: {:?}", other),
    }
    assert_eq!(buf, before);
}

#[test]
fn oversized_payload_is_rejected_before_writing() {
    let codec = FrameCodec::with_max_frame_len(4);
    let mut out: Vec<u8> = Vec::new();
    match codec.encode(vec![0u8; 5], &mut out) {
        Err(CodecError::FrameTooLarge { declared, limit }) => {
            assert_eq!(declared, 5);
            assert_eq!(limit, 4);
        },
        other => panic!("unexpected outcome: {:?}", other),
    }
    assert!(out.is_empty());
}

#[test]
fn malformed_payload_is_fatal_but_consumes_the_frame() {
    let mut codec = ComboCodec::new();
    let mut buf = frame(b"{\"type\":");
    buf.extend_from_slice(&frame(b"{\"type\":\"ping\"}"));
    match codec.decode(&mut buf) {
        Err(CodecError::ValueSyntax { bytes }) => {
            assert_eq!(bytes, b"{\"type\":".to_vec());
        },
        other => panic!("unexpected outcome: {:?}", other),
    }
    // the malformed frame is gone; the next frame still decodes
    let r = codec.decode(&mut buf);
    assert!(matches!(r, Ok(DecodeStep::Item(EventBusMessage::Ping))));
    assert!(buf.is_empty());
}

#[test]
fn unknown_type_is_dropped_without_error() {
    let mut codec = ComboCodec::new();
    let mut buf = frame(b"{\"type\":\"unknown-future-type\",\"address\":\"x\"}");
    let r = codec.decode(&mut buf);
    assert!(matches!(r, Ok(DecodeStep::Incomplete)));
    assert!(buf.is_empty());
}

#[test]
fn missing_required_field_is_a_shape_error() {
    let mut codec = ComboCodec::new();
    let mut buf = frame(b"{\"type\":\"send\",\"headers\":{},\"body\":null}");
    match codec.decode(&mut buf) {
        Err(CodecError::MessageShape { value }) => {
            assert!(matches!(value, JsonValue::Obj(_)));
        },
        other => panic!("unexpected outcome: {:?}", other),
    }
}

#[test]
fn non_object_payload_is_a_shape_error() {
    let mut codec = ComboCodec::new();
    let mut buf = frame(b"[1,2]");
    assert!(matches!(
        codec.decode(&mut buf),
        Err(CodecError::MessageShape { .. })
    ));
}

#[test]
fn strings_needing_escapes_are_encoded_and_round_trip() {
    let mut codec = ComboCodec::new();
    let mut out: Vec<u8> = Vec::new();
    let m = EventBusMessage::Register(b"in\"box".to_vec());
    codec.encode(m, &mut out).expect("every message encodes");
    assert_eq!(out, frame(b"{\"type\":\"register\",\"address\":\"in\\\"box\"}"));
    let r = codec.decode(&mut out).expect("decode should succeed");
    match r {
        DecodeStep::Item(EventBusMessage::Register(a)) => assert_eq!(a, b"in\"box".to_vec()),
        other => panic!("unexpected outcome: {:?}", other),
    }
}

#[test]
fn control_bytes_are_escaped_and_round_trip() {
    let codec = JsonCodec::new();
    let v = JsonValue::Str(vec![10u8, 9, 1, 92, 34, 65]);
    let text = codec.encode_value(v).expect("always encodes");
    assert_eq!(text, b"\"\\n\\t\\u0001\\\\\\\"A\"".to_vec());
    match codec.decode_value(&text) {
        Ok(JsonValue::Str(s)) => assert_eq!(s, vec![10u8, 9, 1, 92, 34, 65]),
        other => panic!("unexpected outcome: {:?}", other),
    }
}

#[test]
fn json_values_round_trip_through_text() {
    let v = JsonValue::Obj(vec![
        (b"n".to_vec(), JsonValue::Null),
        (b"t".to_vec(), JsonValue::Bool(true)),
        (b"f".to_vec(), JsonValue::Bool(false)),
        (b"i".to_vec(), JsonValue::Int(-9223372036854775808)),
        (b"j".to_vec(), JsonValue::Int(9223372036854775807)),
        (b"z".to_vec(), JsonValue::Int(0)),
        (b"s".to_vec(), JsonValue::Str(b"hello".to_vec())),
        (b"a".to_vec(), JsonValue::Arr(vec![JsonValue::Int(1), JsonValue::Arr(vec![])])),
        (b"o".to_vec(), JsonValue::Obj(vec![])),
    ]);
    let codec = JsonCodec::new();
    let text = codec.encode_value(v.clone()).expect("representable");
    assert_eq!(
        text,
        b"{\"n\":null,\"t\":true,\"f\":false,\"i\":-9223372036854775808,\"j\":9223372036854775807,\"z\":0,\"s\":\"hello\",\"a\":[1,[]],\"o\":{}}".to_vec()
    );
    let back = codec.decode_value(&text).expect("canonical text parses");
    let text2 = codec.encode_value(back).expect("representable");
    assert_eq!(text, text2);
}

#[test]
fn json_parse_rejects_trailing_garbage_and_leading_zeros() {
    let codec = JsonCodec::new();
    assert!(matches!(codec.decode_value(&b"01".to_vec()), Err(CodecError::ValueSyntax { .. })));
    assert!(matches!(codec.decode_value(&b"{}x".to_vec()), Err(CodecError::ValueSyntax { .. })));
    assert!(matches!(codec.decode_value(&b"".to_vec()), Err(CodecError::ValueSyntax { .. })));
    assert!(matches!(codec.decode_value(&b"-0".to_vec()), Err(CodecError::ValueSyntax { .. })));
}

#[test]
fn whitespace_outside_strings_is_ignored() {
    let codec = JsonCodec::new();
    match codec.decode_value(&b" \t{\"a\":1}\r\n".to_vec()) {
        Ok(JsonValue::Obj(ps)) => {
            assert_eq!(ps.len(), 1);
            assert_eq!(ps[0].0, b"a".to_vec());
        },
        other => panic!("unexpected outcome: {:?}", other),
    }
    match codec.decode_value(&b"{ \"a\" : [ 1 , 2 ] ,\n \"b c\" : \"d e\" }".to_vec()) {
        Ok(JsonValue::Obj(ps)) => {
            assert_eq!(ps.len(), 2);
            // whitespace inside the strings is kept
            assert_eq!(ps[1].0, b"b c".to_vec());
            assert!(matches!(ps[1].1, JsonValue::Str(ref s) if s == &b"d e".to_vec()));
        },
        other => panic!("unexpected outcome: {:?}", other),
    }
}

#[test]
fn solidus_escape_is_accepted() {
    let codec = JsonCodec::new();
    match codec.decode_value(&b"\"a\\/b\"".to_vec()) {
        Ok(JsonValue::Str(s)) => assert_eq!(s, b"a/b".to_vec()),
        other => panic!("unexpected outcome: {:?}", other),
    }
}

#[test]
fn unicode_escapes_normalize_to_utf8() {
    let codec = JsonCodec::new();
    match codec.decode_value(&b"\"\\u0041\\u00E9\\u20ac\"".to_vec()) {
        Ok(JsonValue::Str(s)) => {
            assert_eq!(s, vec![65u8, 0xC3, 0xA9, 0xE2, 0x82, 0xAC]);
        },
        other => panic!("unexpected outcome: {:?}", other),
    }
    // a quote named by code point is the escaped quote again
    match codec.decode_value(&b"\"\\u0022\"".to_vec()) {
        Ok(JsonValue::Str(s)) => assert_eq!(s, vec![34u8]),
        other => panic!("unexpected outcome: {:?}", other),
    }
    // lone surrogates are refused
    assert!(matches!(
        codec.decode_value(&b"\"\\uD83D\"".to_vec()),
        Err(CodecError::ValueSyntax { .. })
    ));
}

#[test]
fn spaced_ping_frame_decodes() {
    let mut codec = ComboCodec::new();
    let mut buf = frame(b"{\"type\": \"ping\"}");
    let r = codec.decode(&mut buf);
    assert!(matches!(r, Ok(DecodeStep::Item(EventBusMessage::Ping))));
    assert!(buf.is_empty());
}

#[test]
fn frame_codec_round_trips_payload() {
    let codec = FrameCodec::new();
    let mut wire: Vec<u8> = Vec::new();
    codec.encode(b"abc".to_vec(), &mut wire).expect("fits");
    assert_eq!(wire, vec![0u8, 0, 0, 3, 97, 98, 99]);
    let r = codec.decode(&mut wire).expect("complete frame");
    match r {
        DecodeStep::Item(p) => assert_eq!(p, b"abc".to_vec()),
        DecodeStep::Incomplete => panic!("expected a frame"),
    }
    assert!(wire.is_empty());
}

#[test]
fn try_decode_passes_incomplete_through() {
    let mut codec = JsonCodec::new();
    let step: DecodeStep<Vec<u8>> = DecodeStep::Incomplete;
    let r = codec.try_decode(&step);
    assert!(matches!(r, Ok(DecodeStep::Incomplete)));
    let step = DecodeStep::Item(b"true".to_vec());
    let r = codec.try_decode(&step);
    assert!(matches!(r, Ok(DecodeStep::Item(JsonValue::Bool(true)))));
}

#[test]
fn two_frames_decode_in_order() {
    let mut codec = ComboCodec::new();
    let mut buf = frame(b"{\"type\":\"ping\"}");
    buf.extend_from_slice(&frame(b"{\"type\":\"register\",\"address\":\"q\"}"));
    assert!(matches!(codec.decode(&mut buf), Ok(DecodeStep::Item(EventBusMessage::Ping))));
    match codec.decode(&mut buf) {
        Ok(DecodeStep::Item(EventBusMessage::Register(a))) => assert_eq!(a, b"q".to_vec()),
        other => panic!("unexpected outcome: {:?}", other),
    }
}
