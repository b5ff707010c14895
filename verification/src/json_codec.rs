//! The structured-value stage: a complete frame's bytes become one
//! structured value, and a value becomes its canonical text.
use vstd::prelude::*;

use crate::canonical::{code_point_bytes, hex_val, lemma_ser_injective, lemma_strip_ser_id,
    strip_out, strip_str, u_escape_at, u_val};
use crate::ser::push_escaped_byte;
use crate::parse::{parse_value, value_token_at};
use crate::ser::{ser, write_value};
use crate::value::{wf, JsonValue, SpecValue};
use crate::{CodecError, DecodeStep, TypeDecoder, TypeEncoder};

verus! {

/// What the structured-value stage accepts: bytes whose whitespace
/// outside string literals erases to the canonical text of one
/// well-formed value.  This admits whitespace anywhere outside
/// strings, the redundant `\/` escape, and `\uXXXX` escapes in
/// either hex case (normalized to the code point's canonical
/// spelling: ASCII escapes below 0x80, UTF-8 bytes above; surrogate
/// code points are refused).  The erasure is deliberately
/// token-blind, so whitespace splitting a token is also ignored.
/// Numbers must be in their canonical spelling (the module doc of
/// `parse` states the accepted spellings exactly).
pub open spec fn denotes(s: Seq<u8>, sv: SpecValue) -> bool {
    wf(sv) && strip_out(s) == ser(sv)
}

/// The value of a hex digit character in either case, or the
/// sentinel 0xFFFF.
fn hexv(c: u8) -> (r: u16)
    ensures
        hex_val(c) >= 0 ==> r as int == hex_val(c),
        hex_val(c) < 0 ==> r == 0xFFFF,
{
    if 48 <= c && c <= 57 {
        (c - 48) as u16
    } else if 97 <= c && c <= 102 {
        (c - 87) as u16
    } else if 65 <= c && c <= 70 {
        (c - 55) as u16
    } else {
        0xFFFF
    }
}

/// Removes whitespace outside string literals and normalizes the
/// redundant escape spellings, per `strip_out`.
fn strip_whitespace(src: &Vec<u8>) -> (r: Vec<u8>)
    ensures
        r@ == strip_out(src@),
{
    let n = src.len();
    let mut out: Vec<u8> = Vec::new();
    let mut i: usize = 0;
    let mut in_str = false;
    proof {
        assert(src@.subrange(0, n as int) =~= src@);
    }
    while i < n
        invariant
            i <= n,
            n == src@.len(),
            strip_out(src@) == out@ + (if in_str {
                strip_str(src@.subrange(i as int, n as int))
            } else {
                strip_out(src@.subrange(i as int, n as int))
            }),
        decreases n - i,
    {
        let b = src[i];
        let ghost suffix = src@.subrange(i as int, n as int);
        proof {
            assert(suffix[0] == b);
            assert(suffix.drop_first() =~= src@.subrange(i + 1, n as int));
        }
        if in_str {
            if b == 34 {
                out.push(34);
                in_str = false;
                i = i + 1;
            } else if b == 92 {
                if i + 1 < n {
                    proof {
                        assert(suffix.skip(2) =~= src@.subrange(i + 2, n as int));
                        assert(suffix[1] == src@[i + 1]);
                    }
                    let e = src[i + 1];
                    if e == 47 {
                        out.push(47);
                        i = i + 2;
                    } else if e == 117 && n - i >= 6 {
                        proof {
                            assert(suffix.skip(6) =~= src@.subrange(i + 6, n as int));
                            assert(suffix[2] == src@[i + 2] && suffix[3] == src@[i + 3]
                                && suffix[4] == src@[i + 4] && suffix[5] == src@[i + 5]);
                        }
                        let h1 = hexv(src[i + 2]);
                        let h2 = hexv(src[i + 3]);
                        let h3 = hexv(src[i + 4]);
                        let h4 = hexv(src[i + 5]);
                        if h1 != 0xFFFF && h2 != 0xFFFF && h3 != 0xFFFF && h4 != 0xFFFF {
                            let v: u16 = h1 * 4096 + h2 * 256 + h3 * 16 + h4;
                            proof {
                                assert(v as int == u_val(suffix));
                            }
                            if !(0xD800 <= v && v < 0xE000) {
                                proof {
                                    assert(u_escape_at(suffix));
                                }
                                if v <= 0x7F {
                                    push_escaped_byte(v as u8, &mut out);
                                    proof {
                                        assert(crate::ser::esc_byte((v as u8))
                                            == code_point_bytes(u_val(suffix)));
                                    }
                                } else if v <= 0x7FF {
                                    out.push((0xC0 + v / 64) as u8);
                                    out.push((0x80 + v % 64) as u8);
                                } else {
                                    out.push((0xE0 + v / 4096) as u8);
                                    out.push((0x80 + (v / 64) % 64) as u8);
                                    out.push((0x80 + v % 64) as u8);
                                }
                                i = i + 6;
                            } else {
                                out.push(92);
                                out.push(117);
                                i = i + 2;
                            }
                        } else {
                            out.push(92);
                            out.push(117);
                            i = i + 2;
                        }
                    } else {
                        out.push(92);
                        out.push(e);
                        i = i + 2;
                    }
                } else {
                    out.push(92);
                    i = i + 1;
                }
            } else {
                out.push(b);
                i = i + 1;
            }
        } else {
            if b == 34 {
                out.push(34);
                in_str = true;
                i = i + 1;
            } else if b == 32 || b == 9 || b == 10 || b == 13 {
                i = i + 1;
            } else {
                out.push(b);
                i = i + 1;
            }
        }
        proof {
            assert(strip_out(src@) =~= out@ + (if in_str {
                strip_str(src@.subrange(i as int, n as int))
            } else {
                strip_out(src@.subrange(i as int, n as int))
            }));
        }
    }
    proof {
        assert(src@.subrange(n as int, n as int) =~= Seq::<u8>::empty());
        assert(strip_out(src@) =~= out@);
    }
    out
}

/// The structured-value stage.  Stateless: each call handles one
/// whole frame.
#[derive(Clone, Copy, Debug)]
pub struct JsonCodec;

impl JsonCodec {
    pub fn new() -> Self {
        JsonCodec
    }

    /// Parses a whole frame's bytes as one structured value, with
    /// whitespace outside strings ignored; anything else is a fatal
    /// syntax error carrying the offending bytes.  Success and
    /// failure are exact: the result is `Ok` if and only if the
    /// bytes denote a value, and then it is that value.
    pub fn decode_value(&self, src: &Vec<u8>) -> (r: Result<JsonValue, CodecError>)
        ensures
            r matches Ok(v) ==> wf(v@) && denotes(src@, v@),
            r matches Ok(v) ==> forall|sv: SpecValue| denotes(src@, sv) ==> v@ == sv,
            r matches Err(e) ==> (e matches CodecError::ValueSyntax { bytes } && bytes@ == src@)
                && !(exists|sv: SpecValue| denotes(src@, sv)),
            (exists|sv: SpecValue| denotes(src@, sv)) ==> r is Ok,
    {
        let ghost acc = exists|sv: SpecValue| denotes(src@, sv);
        let ghost gsv: SpecValue = if acc {
            choose|sv: SpecValue| denotes(src@, sv)
        } else {
            SpecValue::Null
        };
        let core = strip_whitespace(src);
        proof {
            if acc {
                assert(denotes(src@, gsv));
                crate::canonical::lemma_ser_first_byte(gsv);
                assert(core@.subrange(0, core@.len() as int) =~= core@);
                assert(value_token_at(core@, 0, core@.len() as int, gsv));
            }
        }
        match parse_value(&core, 0) {
            Some((v, end)) => {
                if end == core.len() {
                    proof {
                        assert(core@.subrange(0, core@.len() as int) =~= core@);
                        assert(denotes(src@, v@));
                        assert forall|sv: SpecValue| denotes(src@, sv) implies v@ == sv by {
                            lemma_ser_injective(v@, sv);
                        }
                    }
                    Ok(v)
                } else {
                    proof {
                        if acc {
                            let r1 = core@.subrange(end as int, core@.len() as int);
                            assert(core@.subrange(0, end as int) + r1 =~= core@);
                            assert(ser(v@) + r1 == ser(gsv) + Seq::<u8>::empty()) by {
                                assert(ser(gsv) + Seq::<u8>::empty() =~= ser(gsv));
                            }
                            crate::canonical::lemma_ser_unique(v@, gsv, r1, Seq::empty());
                            assert(r1.len() == 0);
                            assert(false);
                        }
                    }
                    let bytes = src.clone();
                    proof {
                        assert(bytes@ =~= src@);
                    }
                    Err(CodecError::ValueSyntax { bytes })
                }
            },
            None => {
                proof {
                    if acc {
                        assert(false);
                    }
                }
                let bytes = src.clone();
                proof {
                    assert(bytes@ =~= src@);
                }
                Err(CodecError::ValueSyntax { bytes })
            },
        }
    }

    /// Writes any value as its canonical text, escaping strings as
    /// needed.  Never fails: every tree is representable.
    pub fn encode_value(&self, item: JsonValue) -> (r: Result<Vec<u8>, CodecError>)
        ensures
            r matches Ok(b) && b@ == ser(item@),
    {
        let mut out: Vec<u8> = Vec::new();
        write_value(&item, &mut out);
        Ok(out)
    }
}

impl TypeDecoder<JsonValue> for JsonCodec {
    type Source = Vec<u8>;

    type Error = CodecError;

    /// Decodes per `decode_value`.  A complete frame is never
    /// "incomplete" at this stage: the result is an item exactly for
    /// bytes that denote a value, else a fatal syntax error.
    fn decode(&mut self, src: &Vec<u8>) -> (r: Result<DecodeStep<JsonValue>, CodecError>)
        ensures
            r matches Ok(s) ==> s is Item,
            r matches Ok(DecodeStep::Item(v)) ==> wf(v@) && denotes(src@, v@),
            r matches Ok(DecodeStep::Item(v)) ==> forall|sv: SpecValue|
                denotes(src@, sv) ==> v@ == sv,
            (exists|sv: SpecValue| denotes(src@, sv)) ==> r is Ok,
            r matches Err(e) ==> (e matches CodecError::ValueSyntax { bytes } && bytes@ == src@)
                && !(exists|sv: SpecValue| denotes(src@, sv)),
    {
        match self.decode_value(src) {
            Ok(v) => Ok(DecodeStep::Item(v)),
            Err(e) => Err(e),
        }
    }
}

impl TypeEncoder<JsonValue> for JsonCodec {
    type Destination = Vec<u8>;

    type Error = CodecError;

    /// Serializes per `encode_value`.
    fn encode(&mut self, item: JsonValue) -> (r: Result<Vec<u8>, CodecError>)
        ensures
            r matches Ok(b) && b@ == ser(item@),
    {
        self.encode_value(item)
    }
}

} // verus!
