//! Canonical wire text for structured values: the serialized form is a
//! single deterministic byte sequence per value (no whitespace, members
//! in tree order, strings escaped minimally).
use vstd::prelude::*;

use crate::value::{
    lemma_obj_to_spec, lemma_seq_to_spec, lemma_sz_obj_elem, lemma_sz_seq_elem, obj_to_spec,
    seq_to_spec, sz, sz_obj, sz_seq, JsonValue, SpecValue,
};

verus! {

/// The lower-case hex digit character for `n < 16`.
pub open spec fn hex_digit(n: nat) -> u8 {
    if n < 10 {
        (n + 48) as u8
    } else {
        (n + 87) as u8
    }
}

/// How one string byte is written: quote and backslash get a
/// backslash escape, the common control bytes their short escapes,
/// the remaining control bytes a `\u00XX` escape, and every other
/// byte stands as itself.
pub open spec fn esc_byte(b: u8) -> Seq<u8> {
    if b == 34 {
        seq![92u8, 34u8]
    } else if b == 92 {
        seq![92u8, 92u8]
    } else if b >= 32 {
        seq![b]
    } else if b == 8 {
        seq![92u8, 98u8]
    } else if b == 9 {
        seq![92u8, 116u8]
    } else if b == 10 {
        seq![92u8, 110u8]
    } else if b == 12 {
        seq![92u8, 102u8]
    } else if b == 13 {
        seq![92u8, 114u8]
    } else {
        seq![92u8, 117u8, 48u8, 48u8, hex_digit((b / 16) as nat), hex_digit((b % 16) as nat)]
    }
}

/// The escaped text of a whole string.
pub open spec fn esc(s: Seq<u8>) -> Seq<u8>
    decreases s.len(),
{
    if s.len() == 0 {
        Seq::empty()
    } else {
        esc_byte(s[0]) + esc(s.drop_first())
    }
}

/// Escaping one more byte appends that byte's escape.
pub proof fn lemma_esc_push(t: Seq<u8>, b: u8)
    ensures
        esc(t.push(b)) == esc(t) + esc_byte(b),
    decreases t.len(),
{
    if t.len() == 0 {
        assert(t.push(b)[0] == b);
        assert(t.push(b).drop_first() =~= Seq::<u8>::empty());
        assert(esc(Seq::<u8>::empty()) == Seq::<u8>::empty());
        assert(esc(t.push(b)) =~= esc(t) + esc_byte(b));
    } else {
        assert(t.push(b).drop_first() =~= t.drop_first().push(b));
        lemma_esc_push(t.drop_first(), b);
        assert(esc(t.push(b)) =~= esc(t) + esc_byte(b));
    }
}

/// Escaping a concatenation concatenates the escapes.
pub proof fn lemma_esc_concat(a: Seq<u8>, b: Seq<u8>)
    ensures
        esc(a + b) == esc(a) + esc(b),
    decreases a.len(),
{
    if a.len() == 0 {
        assert(a + b =~= b);
        assert(esc(Seq::<u8>::empty()) == Seq::<u8>::empty());
        assert(esc(a) + esc(b) =~= esc(b));
    } else {
        assert((a + b)[0] == a[0]);
        assert((a + b).drop_first() =~= a.drop_first() + b);
        lemma_esc_concat(a.drop_first(), b);
        assert(esc(a + b) =~= esc(a) + esc(b));
    }
}

/// Decimal digits of `n`, most significant first.
pub open spec fn dec_digits(n: nat) -> Seq<u8>
    decreases n,
{
    if n < 10 {
        seq![(n + 48) as u8]
    } else {
        dec_digits(n / 10).push((n % 10 + 48) as u8)
    }
}

/// Canonical text of an integer: optional minus sign, then digits
/// without leading zeros.
pub open spec fn ser_int(i: int) -> Seq<u8> {
    if i < 0 {
        seq![45u8] + dec_digits((-i) as nat)
    } else {
        dec_digits(i as nat)
    }
}

/// Canonical text of a structured value.
pub open spec fn ser(v: SpecValue) -> Seq<u8>
    decreases v,
{
    match v {
        SpecValue::Null => seq![110u8, 117u8, 108u8, 108u8],
        SpecValue::Bool(b) => if b {
            seq![116u8, 114u8, 117u8, 101u8]
        } else {
            seq![102u8, 97u8, 108u8, 115u8, 101u8]
        },
        SpecValue::Int(i) => ser_int(i),
        SpecValue::Str(s) => seq![34u8] + esc(s) + seq![34u8],
        SpecValue::Arr(es) => seq![91u8] + ser_arr(es, es.len() as int) + seq![93u8],
        SpecValue::Obj(ps) => seq![123u8] + ser_obj(ps, ps.len() as int) + seq![125u8],
    }
}

/// Text of the first `k` array elements, joined by commas.
pub open spec fn ser_arr(es: Seq<SpecValue>, k: int) -> Seq<u8>
    decreases es, k,
{
    if k <= 0 || k > es.len() {
        Seq::empty()
    } else if k == 1 {
        ser(es[0])
    } else {
        ser_arr(es, k - 1) + seq![44u8] + ser(es[k - 1])
    }
}

/// Text of one object member: quoted key, colon, value.
pub open spec fn ser_member(p: (Seq<u8>, SpecValue)) -> Seq<u8>
    decreases p, 0int,
{
    seq![34u8] + esc(p.0) + seq![34u8, 58u8] + ser(p.1)
}

/// Text of the first `k` object members, joined by commas.
pub open spec fn ser_obj(ps: Seq<(Seq<u8>, SpecValue)>, k: int) -> Seq<u8>
    decreases ps, k,
{
    if k <= 0 || k > ps.len() {
        Seq::empty()
    } else if k == 1 {
        ser_member(ps[0])
    } else {
        ser_obj(ps, k - 1) + seq![44u8] + ser_member(ps[k - 1])
    }
}

/// The joined text of a prefix of elements does not depend on the
/// elements after it.
pub proof fn lemma_ser_arr_push(es: Seq<SpecValue>, e: SpecValue, k: int)
    requires
        0 <= k <= es.len(),
    ensures
        ser_arr(es.push(e), k) == ser_arr(es, k),
    decreases k,
{
    if k > 0 {
        lemma_ser_arr_push(es, e, k - 1);
    }
}

/// The joined text of a prefix of members does not depend on the
/// members after it.
pub proof fn lemma_ser_obj_push(ps: Seq<(Seq<u8>, SpecValue)>, p: (Seq<u8>, SpecValue), k: int)
    requires
        0 <= k <= ps.len(),
    ensures
        ser_obj(ps.push(p), k) == ser_obj(ps, k),
    decreases k,
{
    if k > 0 {
        lemma_ser_obj_push(ps, p, k - 1);
    }
}

/// Appending a low digit to a number appends its digit character.
pub proof fn lemma_dec_digits_step(n: nat, d: nat)
    requires
        n >= 1,
        d < 10,
    ensures
        dec_digits(n * 10 + d) == dec_digits(n).push((d + 48) as u8),
{
    let m = n * 10 + d;
    assert(m >= 10 && m / 10 == n && m % 10 == d) by (nonlinear_arith)
        requires
            n >= 1,
            d < 10,
            m == n * 10 + d,
    ;
}

/// Writes the decimal digits of `n`.
fn write_digits(n: u64, out: &mut Vec<u8>)
    ensures
        final(out)@ == old(out)@ + dec_digits(n as nat),
    decreases n,
{
    if n < 10 {
        out.push((n + 48) as u8);
        proof {
            assert(out@ =~= old(out)@ + dec_digits(n as nat));
        }
    } else {
        write_digits(n / 10, out);
        out.push(((n % 10) + 48) as u8);
        proof {
            assert(out@ =~= old(out)@ + dec_digits(n as nat));
        }
    }
}

/// Writes the canonical text of `i`.
fn write_int(i: i64, out: &mut Vec<u8>)
    ensures
        final(out)@ == old(out)@ + ser_int(i as int),
{
    if i >= 0 {
        write_digits(i as u64, out);
    } else {
        out.push(45u8);
        let mag: u64 = if i == i64::MIN {
            9223372036854775808u64
        } else {
            (-i) as u64
        };
        proof {
            assert(mag as nat == (-(i as int)) as nat);
        }
        write_digits(mag, out);
        proof {
            assert(out@ =~= old(out)@ + ser_int(i as int));
        }
    }
}

/// Writes one string byte in its canonical in-string spelling.
pub(crate) fn push_escaped_byte(b: u8, out: &mut Vec<u8>)
    ensures
        final(out)@ == old(out)@ + esc_byte(b),
{
    if b == 34 {
        out.push(92u8);
        out.push(34u8);
    } else if b == 92 {
        out.push(92u8);
        out.push(92u8);
    } else if b >= 32 {
        out.push(b);
    } else if b == 8 {
        out.push(92u8);
        out.push(98u8);
    } else if b == 9 {
        out.push(92u8);
        out.push(116u8);
    } else if b == 10 {
        out.push(92u8);
        out.push(110u8);
    } else if b == 12 {
        out.push(92u8);
        out.push(102u8);
    } else if b == 13 {
        out.push(92u8);
        out.push(114u8);
    } else {
        out.push(92u8);
        out.push(117u8);
        out.push(48u8);
        out.push(48u8);
        let hi = b / 16;
        let lo = b % 16;
        out.push(if hi < 10 {
            hi + 48
        } else {
            hi + 87
        });
        out.push(if lo < 10 {
            lo + 48
        } else {
            lo + 87
        });
    }
    proof {
        assert(out@ =~= old(out)@ + esc_byte(b));
    }
}

/// Writes a quoted, escaped string.
fn write_str_escaped(bytes: &Vec<u8>, out: &mut Vec<u8>)
    ensures
        final(out)@ == old(out)@ + seq![34u8] + esc(bytes@) + seq![34u8],
{
    out.push(34u8);
    let n = bytes.len();
    let mut i: usize = 0;
    while i < n
        invariant
            i <= n,
            n == bytes@.len(),
            out@ == old(out)@ + seq![34u8] + esc(bytes@.subrange(0, i as int)),
        decreases n - i,
    {
        let b = bytes[i];
        let ghost pre = bytes@.subrange(0, i as int);
        proof {
            assert(bytes@.subrange(0, i + 1) =~= pre.push(b));
            lemma_esc_push(pre, b);
        }
        push_escaped_byte(b, out);
        proof {
            assert(out@ =~= old(out)@ + seq![34u8] + esc(bytes@.subrange(0, i + 1)));
        }
        i = i + 1;
    }
    out.push(34u8);
    proof {
        assert(bytes@.subrange(0, n as int) =~= bytes@);
        assert(out@ =~= old(out)@ + seq![34u8] + esc(bytes@) + seq![34u8]);
    }
}

/// Writes the canonical text of `v` after the bytes already in `out`.
pub fn write_value(v: &JsonValue, out: &mut Vec<u8>)
    ensures
        final(out)@ == old(out)@ + ser(v@),
    decreases sz(*v),
{
    match v {
        JsonValue::Null => {
            out.push(110u8);
            out.push(117u8);
            out.push(108u8);
            out.push(108u8);
            proof {
                assert(out@ =~= old(out)@ + ser(v@));
            }
        },
        JsonValue::Bool(b) => {
            if *b {
                out.push(116u8);
                out.push(114u8);
                out.push(117u8);
                out.push(101u8);
            } else {
                out.push(102u8);
                out.push(97u8);
                out.push(108u8);
                out.push(115u8);
                out.push(101u8);
            }
            proof {
                assert(out@ =~= old(out)@ + ser(v@));
            }
        },
        JsonValue::Int(i) => {
            write_int(*i, out);
        },
        JsonValue::Str(s) => {
            write_str_escaped(s, out);
            proof {
                assert(out@ =~= old(out)@ + ser(v@));
            }
        },
        JsonValue::Arr(es) => {
            let ghost spec_es = seq_to_spec(*es, es@.len() as int);
            proof {
                lemma_seq_to_spec(*es, es@.len() as int);
            }
            out.push(91u8);
            let mut i: usize = 0;
            while i < es.len()
                invariant
                    i <= es.len(),
                    *v == JsonValue::Arr(*es),
                    spec_es == seq_to_spec(*es, es@.len() as int),
                    spec_es.len() == es@.len(),
                    forall|j: int| 0 <= j < es@.len() ==> spec_es[j] == (#[trigger] es@[j])@,
                    out@ == old(out)@ + seq![91u8] + ser_arr(spec_es, i as int),
                decreases es.len() - i,
            {
                if i > 0 {
                    out.push(44u8);
                }
                proof {
                    lemma_sz_seq_elem(*es, es@.len() as int, i as int);
                }
                write_value(&es[i], out);
                proof {
                    assert(out@ =~= old(out)@ + seq![91u8] + ser_arr(spec_es, i + 1));
                }
                i = i + 1;
            }
            out.push(93u8);
            proof {
                assert(out@ =~= old(out)@ + ser(v@));
            }
        },
        JsonValue::Obj(ps) => {
            let ghost spec_ps = obj_to_spec(*ps, ps@.len() as int);
            proof {
                lemma_obj_to_spec(*ps, ps@.len() as int);
            }
            out.push(123u8);
            let mut i: usize = 0;
            while i < ps.len()
                invariant
                    i <= ps.len(),
                    *v == JsonValue::Obj(*ps),
                    spec_ps == obj_to_spec(*ps, ps@.len() as int),
                    spec_ps.len() == ps@.len(),
                    forall|j: int|
                        0 <= j < ps@.len() ==> (#[trigger] spec_ps[j]) == (
                        ps@[j].0@,
                        ps@[j].1@,
                        ),
                    out@ == old(out)@ + seq![123u8] + ser_obj(spec_ps, i as int),
                decreases ps.len() - i,
            {
                if i > 0 {
                    out.push(44u8);
                }
                write_str_escaped(&ps[i].0, out);
                out.push(58u8);
                proof {
                    lemma_sz_obj_elem(*ps, ps@.len() as int, i as int);
                }
                write_value(&ps[i].1, out);
                proof {
                    assert(spec_ps[i as int] == (ps@[i as int].0@, ps@[i as int].1@));
                    assert(ser_member(spec_ps[i as int]) =~= seq![34u8] + esc(ps@[i as int].0@)
                        + seq![34u8, 58u8] + ser(ps@[i as int].1@));
                    assert(out@ =~= old(out)@ + seq![123u8] + ser_obj(spec_ps, i + 1));
                }
                i = i + 1;
            }
            out.push(125u8);
            proof {
                assert(out@ =~= old(out)@ + ser(v@));
            }
        },
    }
}

} // verus!
