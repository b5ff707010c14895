//! The event-message stage: between structured values and the typed
//! event-bus vocabulary, keyed by the `type` discriminant string.
use vstd::prelude::*;

use crate::value::{all_wf_obj, lemma_obj_to_spec, obj_get, obj_to_spec, wf, JsonValue, SpecValue};
use crate::{CodecError, DecodeStep, TypeDecoder, TypeEncoder};

verus! {

pub open spec fn type_key() -> Seq<u8> {
    seq![116u8, 121u8, 112u8, 101u8]
}

pub open spec fn address_key() -> Seq<u8> {
    seq![97u8, 100u8, 100u8, 114u8, 101u8, 115u8, 115u8]
}

pub open spec fn headers_key() -> Seq<u8> {
    seq![104u8, 101u8, 97u8, 100u8, 101u8, 114u8, 115u8]
}

pub open spec fn body_key() -> Seq<u8> {
    seq![98u8, 111u8, 100u8, 121u8]
}

pub open spec fn reply_key() -> Seq<u8> {
    seq![114u8, 101u8, 112u8, 108u8, 121u8, 65u8, 100u8, 100u8, 114u8, 101u8, 115u8, 115u8]
}

pub open spec fn ping_tag() -> Seq<u8> {
    seq![112u8, 105u8, 110u8, 103u8]
}

pub open spec fn pong_tag() -> Seq<u8> {
    seq![112u8, 111u8, 110u8, 103u8]
}

pub open spec fn send_tag() -> Seq<u8> {
    seq![115u8, 101u8, 110u8, 100u8]
}

pub open spec fn message_tag() -> Seq<u8> {
    seq![109u8, 101u8, 115u8, 115u8, 97u8, 103u8, 101u8]
}

pub open spec fn register_tag() -> Seq<u8> {
    seq![114u8, 101u8, 103u8, 105u8, 115u8, 116u8, 101u8, 114u8]
}

/// Mathematical model of a typed event-bus message.
#[verifier::ext_equal]
pub enum SpecMessage {
    Ping,
    Pong,
    Send { address: Seq<u8>, headers: SpecValue, body: SpecValue },
    Message {
        address: Seq<u8>,
        headers: SpecValue,
        body: SpecValue,
        reply_address: Option<Seq<u8>>,
    },
    Register(Seq<u8>),
}

/// The closed set of typed event-bus messages.  An `Err` failure
/// reply is part of the protocol's published vocabulary but is a
/// documented gap here, left unimplemented on purpose.
#[derive(Debug)]
pub enum EventBusMessage {
    Ping,
    Pong,
    Send { address: Vec<u8>, headers: JsonValue, body: JsonValue },
    Message {
        address: Vec<u8>,
        headers: JsonValue,
        body: JsonValue,
        reply_address: Option<Vec<u8>>,
    },
    Register(Vec<u8>),
}

impl View for EventBusMessage {
    type V = SpecMessage;

    open spec fn view(&self) -> SpecMessage {
        match *self {
            EventBusMessage::Ping => SpecMessage::Ping,
            EventBusMessage::Pong => SpecMessage::Pong,
            EventBusMessage::Send { address, headers, body } => SpecMessage::Send {
                address: address@,
                headers: headers@,
                body: body@,
            },
            EventBusMessage::Message { address, headers, body, reply_address } =>
                SpecMessage::Message {
                address: address@,
                headers: headers@,
                body: body@,
                reply_address: match reply_address {
                    Option::Some(r) => Option::Some(r@),
                    Option::None => Option::None,
                },
            },
            EventBusMessage::Register(address) => SpecMessage::Register(address@),
        }
    }
}

impl Clone for EventBusMessage {
    /// A clone has the same view as the original.
    fn clone(&self) -> (r: Self)
        ensures
            r@ == self@,
    {
        match self {
            EventBusMessage::Ping => EventBusMessage::Ping,
            EventBusMessage::Pong => EventBusMessage::Pong,
            EventBusMessage::Send { address, headers, body } => {
                let a = address.clone();
                proof {
                    assert(a@ =~= address@);
                }
                EventBusMessage::Send { address: a, headers: headers.clone(), body: body.clone() }
            },
            EventBusMessage::Message { address, headers, body, reply_address } => {
                let a = address.clone();
                let ra = match reply_address {
                    Option::Some(r) => {
                        let r2 = r.clone();
                        proof {
                            assert(r2@ =~= r@);
                        }
                        Option::Some(r2)
                    },
                    Option::None => Option::None,
                };
                proof {
                    assert(a@ =~= address@);
                }
                EventBusMessage::Message {
                    address: a,
                    headers: headers.clone(),
                    body: body.clone(),
                    reply_address: ra,
                }
            },
            EventBusMessage::Register(address) => {
                let a = address.clone();
                proof {
                    assert(a@ =~= address@);
                }
                EventBusMessage::Register(a)
            },
        }
    }
}

/// The structured value a message encodes to.  The outbound `message`
/// form deliberately omits `headers`; inbound decode accepts it.
pub open spec fn msg_to_value(m: SpecMessage) -> SpecValue {
    match m {
        SpecMessage::Ping => SpecValue::Obj(
            seq![(type_key(), SpecValue::Str(ping_tag()))],
        ),
        SpecMessage::Pong => SpecValue::Obj(
            seq![(type_key(), SpecValue::Str(pong_tag()))],
        ),
        SpecMessage::Send { address, headers, body } => SpecValue::Obj(
            seq![
                (type_key(), SpecValue::Str(send_tag())),
                (address_key(), SpecValue::Str(address)),
                (headers_key(), headers),
                (body_key(), body),
            ],
        ),
        SpecMessage::Message { address, headers, body, reply_address } => {
            let reply_value = match reply_address {
                Option::Some(r) => SpecValue::Str(r),
                Option::None => SpecValue::Null,
            };
            SpecValue::Obj(
                seq![
                    (type_key(), SpecValue::Str(message_tag())),
                    (address_key(), SpecValue::Str(address)),
                    (body_key(), body),
                    (reply_key(), reply_value),
                ],
            )
        },
        SpecMessage::Register(address) => SpecValue::Obj(
            seq![
                (type_key(), SpecValue::Str(register_tag())),
                (address_key(), SpecValue::Str(address)),
            ],
        ),
    }
}

/// What a structured value decodes to: a message, `None` for a
/// recognized object whose `type` is an unknown string (the frame is
/// dropped), or an error for a missing or ill-shaped required field.
pub open spec fn value_to_msg(v: SpecValue) -> Result<Option<SpecMessage>, ()> {
    match v {
        SpecValue::Obj(ps) => match obj_get(ps, type_key()) {
            Option::Some(SpecValue::Str(t)) => if t == ping_tag() {
                Result::Ok(Option::Some(SpecMessage::Ping))
            } else if t == pong_tag() {
                Result::Ok(Option::Some(SpecMessage::Pong))
            } else if t == send_tag() {
                match (obj_get(ps, address_key()), obj_get(ps, headers_key()), obj_get(
                    ps,
                    body_key(),
                )) {
                    (
                        Option::Some(SpecValue::Str(a)),
                        Option::Some(h),
                        Option::Some(b),
                    ) => Result::Ok(
                        Option::Some(SpecMessage::Send { address: a, headers: h, body: b }),
                    ),
                    _ => Result::Err(()),
                }
            } else if t == message_tag() {
                match (obj_get(ps, address_key()), obj_get(ps, body_key())) {
                    (Option::Some(SpecValue::Str(a)), Option::Some(b)) => Result::Ok(
                        Option::Some(
                            SpecMessage::Message {
                                address: a,
                                headers: match obj_get(ps, headers_key()) {
                                    Option::Some(h) => h,
                                    Option::None => SpecValue::Null,
                                },
                                body: b,
                                reply_address: match obj_get(ps, reply_key()) {
                                    Option::Some(SpecValue::Str(r)) => Option::Some(r),
                                    _ => Option::None,
                                },
                            },
                        ),
                    ),
                    _ => Result::Err(()),
                }
            } else if t == register_tag() {
                match obj_get(ps, address_key()) {
                    Option::Some(SpecValue::Str(a)) => Result::Ok(
                        Option::Some(SpecMessage::Register(a)),
                    ),
                    _ => Result::Err(()),
                }
            } else {
                Result::Ok(Option::None)
            },
            _ => Result::Err(()),
        },
        _ => Result::Err(()),
    }
}

fn type_key_bytes() -> (r: Vec<u8>)
    ensures
        r@ == type_key(),
{
    let r = vec![116u8, 121u8, 112u8, 101u8];
    proof {
        assert(r@ =~= type_key());
    }
    r
}

fn address_key_bytes() -> (r: Vec<u8>)
    ensures
        r@ == address_key(),
{
    let r = vec![97u8, 100u8, 100u8, 114u8, 101u8, 115u8, 115u8];
    proof {
        assert(r@ =~= address_key());
    }
    r
}

fn headers_key_bytes() -> (r: Vec<u8>)
    ensures
        r@ == headers_key(),
{
    let r = vec![104u8, 101u8, 97u8, 100u8, 101u8, 114u8, 115u8];
    proof {
        assert(r@ =~= headers_key());
    }
    r
}

fn body_key_bytes() -> (r: Vec<u8>)
    ensures
        r@ == body_key(),
{
    let r = vec![98u8, 111u8, 100u8, 121u8];
    proof {
        assert(r@ =~= body_key());
    }
    r
}

fn reply_key_bytes() -> (r: Vec<u8>)
    ensures
        r@ == reply_key(),
{
    let r = vec![114u8, 101u8, 112u8, 108u8, 121u8, 65u8, 100u8, 100u8, 114u8, 101u8, 115u8, 115u8];
    proof {
        assert(r@ =~= reply_key());
    }
    r
}

fn ping_tag_bytes() -> (r: Vec<u8>)
    ensures
        r@ == ping_tag(),
{
    let r = vec![112u8, 105u8, 110u8, 103u8];
    proof {
        assert(r@ =~= ping_tag());
    }
    r
}

fn pong_tag_bytes() -> (r: Vec<u8>)
    ensures
        r@ == pong_tag(),
{
    let r = vec![112u8, 111u8, 110u8, 103u8];
    proof {
        assert(r@ =~= pong_tag());
    }
    r
}

fn send_tag_bytes() -> (r: Vec<u8>)
    ensures
        r@ == send_tag(),
{
    let r = vec![115u8, 101u8, 110u8, 100u8];
    proof {
        assert(r@ =~= send_tag());
    }
    r
}

fn message_tag_bytes() -> (r: Vec<u8>)
    ensures
        r@ == message_tag(),
{
    let r = vec![109u8, 101u8, 115u8, 115u8, 97u8, 103u8, 101u8];
    proof {
        assert(r@ =~= message_tag());
    }
    r
}

fn register_tag_bytes() -> (r: Vec<u8>)
    ensures
        r@ == register_tag(),
{
    let r = vec![114u8, 101u8, 103u8, 105u8, 115u8, 116u8, 101u8, 114u8];
    proof {
        assert(r@ =~= register_tag());
    }
    r
}

fn vec_u8_eq(a: &Vec<u8>, b: &Vec<u8>) -> (r: bool)
    ensures
        r == (a@ == b@),
{
    let n = a.len();
    if n != b.len() {
        return false;
    }
    let mut i: usize = 0;
    while i < n
        invariant
            i <= n,
            n == a@.len(),
            n == b@.len(),
            forall|j: int| 0 <= j < i ==> a@[j] == b@[j],
        decreases n - i,
    {
        if a[i] != b[i] {
            return false;
        }
        i = i + 1;
    }
    proof {
        assert(a@ =~= b@);
    }
    true
}

/// A lookup skipping a prefix of non-matching keys finds the same
/// binding as one over the whole member list.
proof fn lemma_obj_get_skip(s: Seq<(Seq<u8>, SpecValue)>, key: Seq<u8>, i: int)
    requires
        0 <= i <= s.len(),
        forall|j: int| 0 <= j < i ==> (#[trigger] s[j]).0 != key,
    ensures
        obj_get(s, key) == obj_get(s.subrange(i, s.len() as int), key),
    decreases i,
{
    if i > 0 {
        assert(s[0].0 != key);
        let s1 = s.drop_first();
        assert(forall|j: int| 0 <= j < i - 1 ==> (#[trigger] s1[j]).0 != key);
        lemma_obj_get_skip(s1, key, i - 1);
        assert(s1.subrange(i - 1, s1.len() as int) =~= s.subrange(i, s.len() as int));
    } else {
        assert(s.subrange(0, s.len() as int) =~= s);
    }
}

/// Finds the first member bound to `key`.
fn obj_find<'a>(ps: &'a Vec<(Vec<u8>, JsonValue)>, key: &Vec<u8>) -> (r: Option<&'a JsonValue>)
    ensures
        ({
            let sp = obj_to_spec(*ps, ps@.len() as int);
            match r {
                Option::Some(v) => obj_get(sp, key@) == Option::Some(v@),
                Option::None => obj_get(sp, key@) is None,
            }
        }),
{
    proof {
        lemma_obj_to_spec(*ps, ps@.len() as int);
    }
    let ghost sp = obj_to_spec(*ps, ps@.len() as int);
    let n = ps.len();
    let mut i: usize = 0;
    while i < n
        invariant
            i <= n,
            n == ps@.len(),
            sp == obj_to_spec(*ps, ps@.len() as int),
            sp.len() == n,
            forall|j: int| 0 <= j < n ==> #[trigger] sp[j] == (ps@[j].0@, ps@[j].1@),
            forall|j: int| 0 <= j < i ==> (#[trigger] sp[j]).0 != key@,
        decreases n - i,
    {
        if vec_u8_eq(&ps[i].0, key) {
            proof {
                lemma_obj_get_skip(sp, key@, i as int);
                let tail = sp.subrange(i as int, sp.len() as int);
                assert(tail[0] == sp[i as int]);
                assert(obj_get(tail, key@) == Option::Some(sp[i as int].1));
            }
            return Some(&ps[i].1);
        }
        i = i + 1;
    }
    proof {
        lemma_obj_get_skip(sp, key@, n as int);
        assert(sp.subrange(n as int, sp.len() as int).len() == 0);
    }
    None
}

impl EventBusMessage {
    /// Decodes a structured value by its `type` discriminant.  A
    /// missing or ill-shaped required field is a fatal shape error;
    /// an unrecognized discriminant yields no item, by the protocol's
    /// forward-compatibility policy.
    pub fn decode(src: &JsonValue) -> (r: Result<Option<EventBusMessage>, CodecError>)
        ensures
            r matches Ok(Some(m)) ==> value_to_msg(src@) == Ok::<Option<SpecMessage>, ()>(
                Some(m@),
            ),
            r matches Ok(None) ==> value_to_msg(src@) == Ok::<Option<SpecMessage>, ()>(None),
            r matches Err(e) ==> value_to_msg(src@) is Err && (e matches
                CodecError::MessageShape { value } && value@ == src@),
    {
        let ps = match src {
            JsonValue::Obj(ps) => ps,
            _ => {
                return Err(CodecError::MessageShape { value: src.clone() });
            },
        };
        proof {
            lemma_obj_to_spec(*ps, ps@.len() as int);
        }
        let tkey = type_key_bytes();
        let t = match obj_find(ps, &tkey) {
            Some(tv) => match tv {
                JsonValue::Str(t) => t,
                _ => {
                    return Err(CodecError::MessageShape { value: src.clone() });
                },
            },
            None => {
                return Err(CodecError::MessageShape { value: src.clone() });
            },
        };
        let tag_ping = ping_tag_bytes();
        let tag_pong = pong_tag_bytes();
        let tag_send = send_tag_bytes();
        let tag_message = message_tag_bytes();
        let tag_register = register_tag_bytes();
        if vec_u8_eq(t, &tag_ping) {
            Ok(Some(EventBusMessage::Ping))
        } else if vec_u8_eq(t, &tag_pong) {
            Ok(Some(EventBusMessage::Pong))
        } else if vec_u8_eq(t, &tag_send) {
            let akey = address_key_bytes();
            let address = match obj_find(ps, &akey) {
                Some(av) => match av {
                    JsonValue::Str(a) => a.clone(),
                    _ => {
                        return Err(CodecError::MessageShape { value: src.clone() });
                    },
                },
                None => {
                    return Err(CodecError::MessageShape { value: src.clone() });
                },
            };
            let hkey = headers_key_bytes();
            let headers = match obj_find(ps, &hkey) {
                Some(hv) => hv.clone(),
                None => {
                    return Err(CodecError::MessageShape { value: src.clone() });
                },
            };
            let bkey = body_key_bytes();
            let body = match obj_find(ps, &bkey) {
                Some(bv) => bv.clone(),
                None => {
                    return Err(CodecError::MessageShape { value: src.clone() });
                },
            };
            proof {
                assert(address@ =~= address@);
            }
            Ok(Some(EventBusMessage::Send { address, headers, body }))
        } else if vec_u8_eq(t, &tag_message) {
            let akey = address_key_bytes();
            let address = match obj_find(ps, &akey) {
                Some(av) => match av {
                    JsonValue::Str(a) => a.clone(),
                    _ => {
                        return Err(CodecError::MessageShape { value: src.clone() });
                    },
                },
                None => {
                    return Err(CodecError::MessageShape { value: src.clone() });
                },
            };
            let bkey = body_key_bytes();
            let body = match obj_find(ps, &bkey) {
                Some(bv) => bv.clone(),
                None => {
                    return Err(CodecError::MessageShape { value: src.clone() });
                },
            };
            let hkey = headers_key_bytes();
            let headers = match obj_find(ps, &hkey) {
                Some(hv) => hv.clone(),
                None => JsonValue::Null,
            };
            let rkey = reply_key_bytes();
            let reply_address = match obj_find(ps, &rkey) {
                Some(rv) => match rv {
                    JsonValue::Str(ra) => Some(ra.clone()),
                    _ => None,
                },
                None => None,
            };
            Ok(
                Some(
                    EventBusMessage::Message { address, headers, body, reply_address },
                ),
            )
        } else if vec_u8_eq(t, &tag_register) {
            let akey = address_key_bytes();
            let address = match obj_find(ps, &akey) {
                Some(av) => match av {
                    JsonValue::Str(a) => a.clone(),
                    _ => {
                        return Err(CodecError::MessageShape { value: src.clone() });
                    },
                },
                None => {
                    return Err(CodecError::MessageShape { value: src.clone() });
                },
            };
            Ok(Some(EventBusMessage::Register(address)))
        } else {
            Ok(None)
        }
    }
}

/// The event-message stage.  Stateless: configuration-free mapping
/// between structured values and typed messages.
#[derive(Clone, Copy, Debug)]
pub struct EventCodec;

impl EventCodec {
    pub fn new() -> Self {
        EventCodec
    }

    /// Builds the structured value for a message, with the matching
    /// discriminant and fields.  Never fails.
    pub fn encode_message(&self, item: EventBusMessage) -> (r: Result<JsonValue, CodecError>)
        ensures
            r matches Ok(v) && v@ == msg_to_value(item@),
    {
        let ghost m = item@;
        match item {
            EventBusMessage::Ping => {
                let mut ps: Vec<(Vec<u8>, JsonValue)> = Vec::new();
                ps.push((type_key_bytes(), JsonValue::Str(ping_tag_bytes())));
                let r = JsonValue::Obj(ps);
                proof {
                    lemma_obj_to_spec(ps, ps@.len() as int);
                    assert(obj_to_spec(ps, ps@.len() as int) =~~= seq![
                        (type_key(), SpecValue::Str(ping_tag())),
                    ]);
                    assert(r@ == msg_to_value(m));
                }
                Ok(r)
            },
            EventBusMessage::Pong => {
                let mut ps: Vec<(Vec<u8>, JsonValue)> = Vec::new();
                ps.push((type_key_bytes(), JsonValue::Str(pong_tag_bytes())));
                let r = JsonValue::Obj(ps);
                proof {
                    lemma_obj_to_spec(ps, ps@.len() as int);
                    assert(obj_to_spec(ps, ps@.len() as int) =~~= seq![
                        (type_key(), SpecValue::Str(pong_tag())),
                    ]);
                    assert(r@ == msg_to_value(m));
                }
                Ok(r)
            },
            EventBusMessage::Send { address, headers, body } => {
                let ghost a0 = address@;
                let ghost h0 = headers@;
                let ghost b0 = body@;
                let mut ps: Vec<(Vec<u8>, JsonValue)> = Vec::new();
                ps.push((type_key_bytes(), JsonValue::Str(send_tag_bytes())));
                ps.push((address_key_bytes(), JsonValue::Str(address)));
                ps.push((headers_key_bytes(), headers));
                ps.push((body_key_bytes(), body));
                let r = JsonValue::Obj(ps);
                proof {
                    assert(m == (SpecMessage::Send { address: a0, headers: h0, body: b0 }));
                    lemma_obj_to_spec(ps, ps@.len() as int);
                    assert(obj_to_spec(ps, ps@.len() as int) =~~= seq![
                        (type_key(), SpecValue::Str(send_tag())),
                        (address_key(), SpecValue::Str(a0)),
                        (headers_key(), h0),
                        (body_key(), b0),
                    ]);
                    assert(r@ == msg_to_value(m));
                }
                Ok(r)
            },
            EventBusMessage::Message { address, headers, body, reply_address } => {
                let ghost a0 = address@;
                let ghost h0 = headers@;
                let ghost b0 = body@;
                let ghost ra0: Option<Seq<u8>> = match reply_address {
                    Option::Some(ref ra) => Option::Some(ra@),
                    Option::None => Option::None,
                };
                let mut ps: Vec<(Vec<u8>, JsonValue)> = Vec::new();
                ps.push((type_key_bytes(), JsonValue::Str(message_tag_bytes())));
                ps.push((address_key_bytes(), JsonValue::Str(address)));
                ps.push((body_key_bytes(), body));
                let reply_value = match reply_address {
                    Some(ra) => JsonValue::Str(ra),
                    None => JsonValue::Null,
                };
                ps.push((reply_key_bytes(), reply_value));
                let r = JsonValue::Obj(ps);
                proof {
                    assert(m == (SpecMessage::Message {
                        address: a0,
                        headers: h0,
                        body: b0,
                        reply_address: ra0,
                    }));
                    assert(reply_value@ == (match ra0 {
                        Option::Some(rs) => SpecValue::Str(rs),
                        Option::None => SpecValue::Null,
                    }));
                    lemma_obj_to_spec(ps, ps@.len() as int);
                    assert(obj_to_spec(ps, ps@.len() as int) =~~= seq![
                        (type_key(), SpecValue::Str(message_tag())),
                        (address_key(), SpecValue::Str(a0)),
                        (body_key(), b0),
                        (
                            reply_key(),
                            match ra0 {
                                Option::Some(rs) => SpecValue::Str(rs),
                                Option::None => SpecValue::Null,
                            },
                        ),
                    ]);
                    assert(r@ == SpecValue::Obj(obj_to_spec(ps, ps@.len() as int)));
                    match ra0 {
                        Option::Some(rs) => {
                            assert(obj_to_spec(ps, ps@.len() as int) =~~= seq![
                                (type_key(), SpecValue::Str(message_tag())),
                                (address_key(), SpecValue::Str(a0)),
                                (body_key(), b0),
                                (reply_key(), SpecValue::Str(rs)),
                            ]);
                            assert(msg_to_value(m) == SpecValue::Obj(seq![
                                (type_key(), SpecValue::Str(message_tag())),
                                (address_key(), SpecValue::Str(a0)),
                                (body_key(), b0),
                                (reply_key(), SpecValue::Str(rs)),
                            ]));
                            assert(r@ == msg_to_value(m));
                        },
                        Option::None => {
                            assert(obj_to_spec(ps, ps@.len() as int) =~~= seq![
                                (type_key(), SpecValue::Str(message_tag())),
                                (address_key(), SpecValue::Str(a0)),
                                (body_key(), b0),
                                (reply_key(), SpecValue::Null),
                            ]);
                            assert(msg_to_value(m) == SpecValue::Obj(seq![
                                (type_key(), SpecValue::Str(message_tag())),
                                (address_key(), SpecValue::Str(a0)),
                                (body_key(), b0),
                                (reply_key(), SpecValue::Null),
                            ]));
                            assert(r@ == msg_to_value(m));
                        },
                    }
                }
                Ok(r)
            },
            EventBusMessage::Register(address) => {
                let ghost a0 = address@;
                let mut ps: Vec<(Vec<u8>, JsonValue)> = Vec::new();
                ps.push((type_key_bytes(), JsonValue::Str(register_tag_bytes())));
                ps.push((address_key_bytes(), JsonValue::Str(address)));
                let r = JsonValue::Obj(ps);
                proof {
                    lemma_obj_to_spec(ps, ps@.len() as int);
                    assert(obj_to_spec(ps, ps@.len() as int) =~~= seq![
                        (type_key(), SpecValue::Str(register_tag())),
                        (address_key(), SpecValue::Str(a0)),
                    ]);
                    assert(r@ == msg_to_value(m));
                }
                Ok(r)
            },
        }
    }
}

impl TypeDecoder<EventBusMessage> for EventCodec {
    type Source = JsonValue;

    type Error = CodecError;

    /// Decodes per `EventBusMessage::decode`, rendering the soft
    /// unknown-discriminant case as `Incomplete` (no item for this
    /// frame).
    fn decode(&mut self, src: &JsonValue) -> (r: Result<DecodeStep<EventBusMessage>, CodecError>)
        ensures
            r matches Ok(DecodeStep::Item(m)) ==> value_to_msg(src@) == Ok::<
                Option<SpecMessage>,
                (),
            >(Some(m@)),
            (r matches Ok(s) && s is Incomplete) ==> value_to_msg(src@) == Ok::<
                Option<SpecMessage>,
                (),
            >(None),
            r matches Err(e) ==> value_to_msg(src@) is Err && (e matches
                CodecError::MessageShape { value } && value@ == src@),
    {
        match EventBusMessage::decode(src) {
            Ok(Some(m)) => Ok(DecodeStep::Item(m)),
            Ok(None) => Ok(DecodeStep::Incomplete),
            Err(e) => Err(e),
        }
    }
}

impl TypeEncoder<EventBusMessage> for EventCodec {
    type Destination = JsonValue;

    type Error = CodecError;

    /// Always succeeds, with exactly the structured value of
    /// `msg_to_value`.
    fn encode(&mut self, item: EventBusMessage) -> (r: Result<JsonValue, CodecError>)
        ensures
            r matches Ok(v) && v@ == msg_to_value(item@),
    {
        self.encode_message(item)
    }
}

/// What survives one encode/decode round trip: every field is kept,
/// except that the outbound `message` form omits headers, so decode
/// fills them with null.
pub open spec fn scrub_headers(m: SpecMessage) -> SpecMessage {
    match m {
        SpecMessage::Message { address, headers, body, reply_address } => SpecMessage::Message {
            address,
            headers: SpecValue::Null,
            body,
            reply_address,
        },
        other => other,
    }
}

/// Encoding any message and decoding the result yields the message
/// back, except for the documented headers asymmetry on `message`.
pub proof fn lemma_message_round_trip(m: SpecMessage)
    ensures
        value_to_msg(msg_to_value(m)) == Ok::<Option<SpecMessage>, ()>(Some(scrub_headers(m))),
{
    match m {
        SpecMessage::Ping => {
            let ps = seq![(type_key(), SpecValue::Str(ping_tag()))];
            assert(obj_get(ps, type_key()) == Some(SpecValue::Str(ping_tag())));
        },
        SpecMessage::Pong => {
            let ps = seq![(type_key(), SpecValue::Str(pong_tag()))];
            assert(obj_get(ps, type_key()) == Some(SpecValue::Str(pong_tag())));
            assert(ping_tag()[1] != pong_tag()[1]);
        },
        SpecMessage::Send { address, headers, body } => {
            let ps = seq![
                (type_key(), SpecValue::Str(send_tag())),
                (address_key(), SpecValue::Str(address)),
                (headers_key(), headers),
                (body_key(), body),
            ];
            assert(obj_get(ps, type_key()) == Some(SpecValue::Str(send_tag())));
            assert(send_tag()[0] != ping_tag()[0]);
            assert(send_tag()[0] != pong_tag()[0]);
            assert(type_key().len() != address_key().len());
            assert(ps.subrange(1, 4) =~= seq![
                (address_key(), SpecValue::Str(address)),
                (headers_key(), headers),
                (body_key(), body),
            ]);
            lemma_obj_get_skip(ps, address_key(), 1);
            assert(obj_get(ps, address_key()) == Some(SpecValue::Str(address)));
            assert(address_key()[0] != headers_key()[0]);
            assert(type_key().len() != headers_key().len());
            assert(ps.subrange(2, 4) =~= seq![(headers_key(), headers), (body_key(), body)]);
            lemma_obj_get_skip(ps, headers_key(), 2);
            assert(obj_get(ps, headers_key()) == Some(headers));
            assert(type_key()[0] != body_key()[0]);
            assert(address_key().len() != body_key().len());
            assert(headers_key().len() != body_key().len());
            assert(ps.subrange(3, 4) =~= seq![(body_key(), body)]);
            lemma_obj_get_skip(ps, body_key(), 3);
            assert(obj_get(ps, body_key()) == Some(body));
        },
        SpecMessage::Message { address, headers, body, reply_address } => {
            let reply_value = match reply_address {
                Option::Some(r) => SpecValue::Str(r),
                Option::None => SpecValue::Null,
            };
            let ps = seq![
                (type_key(), SpecValue::Str(message_tag())),
                (address_key(), SpecValue::Str(address)),
                (body_key(), body),
                (reply_key(), reply_value),
            ];
            assert(obj_get(ps, type_key()) == Some(SpecValue::Str(message_tag())));
            assert(message_tag().len() != ping_tag().len());
            assert(message_tag().len() != pong_tag().len());
            assert(message_tag().len() != send_tag().len());
            assert(type_key().len() != address_key().len());
            assert(ps.subrange(1, 4) =~= seq![
                (address_key(), SpecValue::Str(address)),
                (body_key(), body),
                (reply_key(), reply_value),
            ]);
            lemma_obj_get_skip(ps, address_key(), 1);
            assert(obj_get(ps, address_key()) == Some(SpecValue::Str(address)));
            assert(type_key()[0] != body_key()[0]);
            assert(address_key().len() != body_key().len());
            assert(ps.subrange(2, 4) =~= seq![(body_key(), body), (reply_key(), reply_value)]);
            lemma_obj_get_skip(ps, body_key(), 2);
            assert(obj_get(ps, body_key()) == Some(body));
            assert(type_key().len() != headers_key().len());
            assert(address_key()[0] != headers_key()[0]);
            assert(body_key().len() != headers_key().len());
            assert(reply_key().len() != headers_key().len());
            assert(ps.subrange(4, 4) =~= Seq::<(Seq<u8>, SpecValue)>::empty());
            lemma_obj_get_skip(ps, headers_key(), 4);
            assert(obj_get(ps, headers_key()) is None);
            assert(type_key().len() != reply_key().len());
            assert(address_key().len() != reply_key().len());
            assert(body_key().len() != reply_key().len());
            assert(ps.subrange(3, 4) =~= seq![(reply_key(), reply_value)]);
            lemma_obj_get_skip(ps, reply_key(), 3);
            assert(obj_get(ps, reply_key()) == Some(reply_value));
        },
        SpecMessage::Register(address) => {
            let ps = seq![
                (type_key(), SpecValue::Str(register_tag())),
                (address_key(), SpecValue::Str(address)),
            ];
            assert(obj_get(ps, type_key()) == Some(SpecValue::Str(register_tag())));
            assert(register_tag().len() != ping_tag().len());
            assert(register_tag().len() != pong_tag().len());
            assert(register_tag().len() != send_tag().len());
            assert(register_tag().len() != message_tag().len());
            assert(type_key().len() != address_key().len());
            assert(ps.subrange(1, 2) =~= seq![(address_key(), SpecValue::Str(address))]);
            lemma_obj_get_skip(ps, address_key(), 1);
            assert(obj_get(ps, address_key()) == Some(SpecValue::Str(address)));
        },
    }
}


/// The fields a message must carry to fit the run-time tree: headers
/// and body (where they are sent) with numbers in the 64-bit range.
/// Headers on a `message` are not sent, so they are not constrained;
/// strings are escaped on the wire and never constrained.
pub open spec fn wf_msg(m: SpecMessage) -> bool {
    match m {
        SpecMessage::Send { headers, body, .. } => wf(headers) && wf(body),
        SpecMessage::Message { body, .. } => wf(body),
        _ => true,
    }
}

/// A well-formed message encodes to a well-formed value.
pub proof fn lemma_msg_value_wf(m: SpecMessage)
    requires
        wf_msg(m),
    ensures
        wf(msg_to_value(m)),
{
    reveal_with_fuel(all_wf_obj, 6);
    match m {
        SpecMessage::Ping => {
            let ps = seq![(type_key(), SpecValue::Str(ping_tag()))];
            assert(ps[0] == (type_key(), SpecValue::Str(ping_tag())));
            assert(all_wf_obj(ps, 1));
        },
        SpecMessage::Pong => {
            let ps = seq![(type_key(), SpecValue::Str(pong_tag()))];
            assert(ps[0] == (type_key(), SpecValue::Str(pong_tag())));
            assert(all_wf_obj(ps, 1));
        },
        SpecMessage::Send { address, headers, body } => {
            let ps = seq![
                (type_key(), SpecValue::Str(send_tag())),
                (address_key(), SpecValue::Str(address)),
                (headers_key(), headers),
                (body_key(), body),
            ];
            assert(all_wf_obj(ps, 4));
        },
        SpecMessage::Message { address, headers, body, reply_address } => {
            let reply_value = match reply_address {
                Option::Some(r) => SpecValue::Str(r),
                Option::None => SpecValue::Null,
            };
            let ps = seq![
                (type_key(), SpecValue::Str(message_tag())),
                (address_key(), SpecValue::Str(address)),
                (body_key(), body),
                (reply_key(), reply_value),
            ];
            assert(wf(reply_value));
            assert(all_wf_obj(ps, 4));
        },
        SpecMessage::Register(address) => {
            let ps = seq![
                (type_key(), SpecValue::Str(register_tag())),
                (address_key(), SpecValue::Str(address)),
            ];
            assert(all_wf_obj(ps, 2));
        },
    }
}

} // verus!
