//! Uniqueness of the canonical text: two well-formed values whose
//! texts agree (up to a rest that does not extend a number) are the
//! same value.  This is what lets a caller conclude that whatever
//! parses back from a serialization is the value that was written.
use vstd::prelude::*;

use crate::ser::{dec_digits, esc, esc_byte, hex_digit, ser, ser_arr, ser_member, ser_obj};
use crate::value::{all_wf, all_wf_obj, wf, SpecValue};

verus! {

/// The rest does not begin with a decimal digit, so it cannot extend
/// a number's text.
pub open spec fn digit_boundary(r: Seq<u8>) -> bool {
    r.len() == 0 || !(48 <= r[0] <= 57)
}

/// Shape facts about decimal digit runs.
pub proof fn lemma_dec_digits_props(n: nat)
    ensures
        1 <= dec_digits(n).len(),
        forall|i: int| 0 <= i < dec_digits(n).len() ==> 48 <= #[trigger] dec_digits(n)[i] <= 57,
        n < 10 ==> dec_digits(n).len() == 1,
        n >= 10 ==> dec_digits(n).len() >= 2,
        n >= 1 ==> dec_digits(n)[0] != 48,
    decreases n,
{
    if n >= 10 {
        lemma_dec_digits_props(n / 10);
    }
}

/// Digit runs determine their value.
pub proof fn lemma_dec_digits_inj(n1: nat, n2: nat)
    requires
        dec_digits(n1) == dec_digits(n2),
    ensures
        n1 == n2,
    decreases n1,
{
    lemma_dec_digits_props(n1);
    lemma_dec_digits_props(n2);
    if n1 < 10 && n2 < 10 {
        assert(dec_digits(n1)[0] == dec_digits(n2)[0]);
    } else if n1 >= 10 && n2 >= 10 {
        let d1 = dec_digits(n1 / 10);
        let d2 = dec_digits(n2 / 10);
        assert(dec_digits(n1) == d1.push((n1 % 10 + 48) as u8));
        assert(dec_digits(n2) == d2.push((n2 % 10 + 48) as u8));
        assert(d1.len() == d2.len());
        assert(d1 =~= d2) by {
            assert(forall|i: int|
                0 <= i < d1.len() ==> d1[i] == dec_digits(n1)[i] && d2[i] == dec_digits(n2)[i]);
        }
        lemma_dec_digits_inj(n1 / 10, n2 / 10);
        assert(d1.push((n1 % 10 + 48) as u8)[d1.len() as int] == (n1 % 10 + 48) as u8);
        assert(d2.push((n2 % 10 + 48) as u8)[d2.len() as int] == (n2 % 10 + 48) as u8);
        assert(dec_digits(n1)[d1.len() as int] == dec_digits(n2)[d2.len() as int]);
        assert((n1 % 10 + 48) as u8 == (n2 % 10 + 48) as u8);
        assert(n1 % 10 + 48 < 256 && n2 % 10 + 48 < 256);
        assert(n1 % 10 == n2 % 10);
        assert(n1 == 10 * (n1 / 10) + n1 % 10);
        assert(n2 == 10 * (n2 / 10) + n2 % 10);
    }
}

/// A digit run followed by a non-digit rest determines both the
/// value and the rest.
pub proof fn lemma_dec_digits_prefix(n1: nat, n2: nat, r1: Seq<u8>, r2: Seq<u8>)
    requires
        dec_digits(n1) + r1 == dec_digits(n2) + r2,
        digit_boundary(r1),
        digit_boundary(r2),
    ensures
        n1 == n2,
        r1 == r2,
{
    lemma_dec_digits_props(n1);
    lemma_dec_digits_props(n2);
    let d1 = dec_digits(n1);
    let d2 = dec_digits(n2);
    let whole = d1 + r1;
    assert((d1 + r1).len() == (d2 + r2).len());
    assert(d1.len() + r1.len() == d2.len() + r2.len());
    if d1.len() < d2.len() {
        assert(r1.len() > 0);
        assert(whole[d1.len() as int] == r1[0]);
        assert(whole[d1.len() as int] == d2[d1.len() as int]);
        assert(false);
    }
    if d2.len() < d1.len() {
        assert(r2.len() > 0);
        assert(whole[d2.len() as int] == r2[0]);
        assert(whole[d2.len() as int] == d1[d2.len() as int]);
        assert(false);
    }
    assert(d1 =~= d2) by {
        assert(forall|i: int| 0 <= i < d1.len() ==> d1[i] == whole[i] && d2[i] == whole[i]);
    }
    lemma_dec_digits_inj(n1, n2);
    assert(r1 =~= r2) by {
        assert(forall|i: int|
            0 <= i < r1.len() ==> r1[i] == whole[d1.len() + i] && r2[i] == whole[d1.len() + i]);
    }
}

/// The first byte of a value's text classifies its variant.
pub proof fn lemma_ser_first_byte(v: SpecValue)
    ensures
        ser(v).len() >= 1,
        v is Null ==> ser(v)[0] == 110,
        v is Bool ==> (ser(v)[0] == 116 || ser(v)[0] == 102),
        v is Int ==> (ser(v)[0] == 45 || 48 <= ser(v)[0] <= 57),
        v is Str ==> ser(v)[0] == 34,
        v is Arr ==> ser(v)[0] == 91,
        v is Obj ==> ser(v)[0] == 123,
{
    match v {
        SpecValue::Int(i) => {
            if i < 0 {
                lemma_dec_digits_props((-i) as nat);
            } else {
                lemma_dec_digits_props(i as nat);
            }
        },
        _ => {},
    }
}

/// Escaped string content followed by its closing quote determines
/// both the content and what follows: no escape sequence contains a
/// bare quote, and each byte's escape starts distinctively.
pub proof fn lemma_esc_unique(sa: Seq<u8>, sb: Seq<u8>, ta: Seq<u8>, tb: Seq<u8>)
    requires
        esc(sa) + seq![34u8] + ta == esc(sb) + seq![34u8] + tb,
    ensures
        sa == sb,
        ta == tb,
    decreases sa.len(),
{
    let whole = esc(sa) + seq![34u8] + ta;
    assert(whole.len() == esc(sa).len() + 1 + ta.len());
    assert(whole.len() == esc(sb).len() + 1 + tb.len());
    if sa.len() == 0 && sb.len() == 0 {
        assert(whole =~= seq![34u8] + ta);
        assert(whole =~= seq![34u8] + tb);
        lemma_concat_cancel_left(seq![34u8], ta, tb);
    } else if sa.len() == 0 {
        assert(whole[0] == 34);
        assert(esc(sb) == esc_byte(sb[0]) + esc(sb.drop_first()));
        assert(whole[0] == esc_byte(sb[0])[0]);
        assert(esc_byte(sb[0])[0] != 34);
        assert(false);
    } else if sb.len() == 0 {
        assert(whole[0] == 34);
        assert(esc(sa) == esc_byte(sa[0]) + esc(sa.drop_first()));
        assert(whole[0] == esc_byte(sa[0])[0]);
        assert(esc_byte(sa[0])[0] != 34);
        assert(false);
    } else {
        let x = sa[0];
        let y = sb[0];
        assert(esc(sa) == esc_byte(x) + esc(sa.drop_first()));
        assert(esc(sb) == esc_byte(y) + esc(sb.drop_first()));
        assert(whole =~= esc_byte(x) + (esc(sa.drop_first()) + seq![34u8] + ta));
        assert(whole =~= esc_byte(y) + (esc(sb.drop_first()) + seq![34u8] + tb));
        assert(whole[0] == esc_byte(x)[0]);
        assert(whole[0] == esc_byte(y)[0]);
        if esc_byte(x)[0] != 92 {
            // both bytes stand as themselves
            assert(esc_byte(x) == seq![x]);
            assert(esc_byte(y)[0] == esc_byte(x)[0]);
            assert(esc_byte(y) == seq![y]);
            assert(x == y);
        } else {
            assert(esc_byte(y)[0] == 92);
            assert(esc_byte(x).len() >= 2 && esc_byte(y).len() >= 2);
            assert(whole[1] == esc_byte(x)[1]);
            assert(whole[1] == esc_byte(y)[1]);
            if esc_byte(x)[1] == 117 {
                // \u00XX on both sides: the hex digits fix the byte
                assert(esc_byte(y)[1] == 117);
                assert(esc_byte(x).len() == 6 && esc_byte(y).len() == 6);
                assert(whole[4] == esc_byte(x)[4] && whole[5] == esc_byte(x)[5]);
                assert(whole[4] == esc_byte(y)[4] && whole[5] == esc_byte(y)[5]);
                assert(hex_digit((x / 16) as nat) == hex_digit((y / 16) as nat));
                assert(hex_digit((x % 16) as nat) == hex_digit((y % 16) as nat));
                assert(x / 16 == y / 16 && x % 16 == y % 16);
                assert(x == y);
            } else {
                // a short escape on both sides: the second byte fixes it
                assert(esc_byte(y)[1] != 117);
                assert(x == y);
            }
        }
        lemma_concat_cancel_left(
            esc_byte(x),
            esc(sa.drop_first()) + seq![34u8] + ta,
            esc(sb.drop_first()) + seq![34u8] + tb,
        );
        lemma_esc_unique(sa.drop_first(), sb.drop_first(), ta, tb);
        assert(sa.len() == sb.len());
        assert(sa =~= sb) by {
            assert(forall|j: int|
                1 <= j < sa.len() ==> sa[j] == sa.drop_first()[j - 1] && sb[j]
                    == sb.drop_first()[j - 1]);
        }
    }
}

/// The text of elements `i..` of an array, commas between them, with
/// the closing bracket.
pub open spec fn arr_close(es: Seq<SpecValue>, i: int) -> Seq<u8>
    decreases es, es.len() - i,
{
    if i < 0 || i >= es.len() {
        seq![93u8]
    } else if i == es.len() - 1 {
        ser(es[i]) + seq![93u8]
    } else {
        ser(es[i]) + seq![44u8] + arr_close(es, i + 1)
    }
}

/// The text of members `i..` of an object, commas between them, with
/// the closing brace.
pub open spec fn obj_close(ps: Seq<(Seq<u8>, SpecValue)>, i: int) -> Seq<u8>
    decreases ps, ps.len() - i,
{
    if i < 0 || i >= ps.len() {
        seq![125u8]
    } else if i == ps.len() - 1 {
        ser_member(ps[i]) + seq![125u8]
    } else {
        ser_member(ps[i]) + seq![44u8] + obj_close(ps, i + 1)
    }
}

/// The left-built join plus the closing bracket equals the
/// right-built tail text.
pub proof fn lemma_arr_close_split(es: Seq<SpecValue>, i: int)
    requires
        0 <= i < es.len(),
    ensures
        ser_arr(es, es.len() as int) + seq![93u8] == ser_arr(es, i) + (if i == 0 {
            Seq::<u8>::empty()
        } else {
            seq![44u8]
        }) + arr_close(es, i),
    decreases es.len() - i,
{
    if i == es.len() - 1 {
        assert(ser_arr(es, i) + (if i == 0 {
            Seq::<u8>::empty()
        } else {
            seq![44u8]
        }) + (ser(es[i]) + seq![93u8]) =~= ser_arr(es, es.len() as int) + seq![93u8]);
    } else {
        lemma_arr_close_split(es, i + 1);
        assert(ser_arr(es, i + 1) == ser_arr(es, i) + (if i == 0 {
            Seq::<u8>::empty()
        } else {
            seq![44u8]
        }) + ser(es[i]));
        assert(ser_arr(es, i) + (if i == 0 {
            Seq::<u8>::empty()
        } else {
            seq![44u8]
        }) + (ser(es[i]) + seq![44u8] + arr_close(es, i + 1)) =~= ser_arr(es, i + 1) + seq![44u8]
            + arr_close(es, i + 1));
    }
}

pub proof fn lemma_obj_close_split(ps: Seq<(Seq<u8>, SpecValue)>, i: int)
    requires
        0 <= i < ps.len(),
    ensures
        ser_obj(ps, ps.len() as int) + seq![125u8] == ser_obj(ps, i) + (if i == 0 {
            Seq::<u8>::empty()
        } else {
            seq![44u8]
        }) + obj_close(ps, i),
    decreases ps.len() - i,
{
    if i == ps.len() - 1 {
        assert(ser_obj(ps, i) + (if i == 0 {
            Seq::<u8>::empty()
        } else {
            seq![44u8]
        }) + (ser_member(ps[i]) + seq![125u8]) =~= ser_obj(ps, ps.len() as int) + seq![125u8]);
    } else {
        lemma_obj_close_split(ps, i + 1);
        assert(ser_obj(ps, i + 1) == ser_obj(ps, i) + (if i == 0 {
            Seq::<u8>::empty()
        } else {
            seq![44u8]
        }) + ser_member(ps[i]));
        assert(ser_obj(ps, i) + (if i == 0 {
            Seq::<u8>::empty()
        } else {
            seq![44u8]
        }) + (ser_member(ps[i]) + seq![44u8] + obj_close(ps, i + 1)) =~= ser_obj(ps, i + 1)
            + seq![44u8] + obj_close(ps, i + 1));
    }
}

/// A value's whole text: bracket, tail text.
pub proof fn lemma_arr_text(es: Seq<SpecValue>)
    ensures
        ser(SpecValue::Arr(es)) == seq![91u8] + arr_close(es, 0),
{
    if es.len() == 0 {
        assert(ser(SpecValue::Arr(es)) =~= seq![91u8] + arr_close(es, 0));
    } else {
        lemma_arr_close_split(es, 0);
        assert(ser_arr(es, 0) + Seq::<u8>::empty() + arr_close(es, 0) =~= arr_close(es, 0));
        assert(ser(SpecValue::Arr(es)) =~= seq![91u8] + (ser_arr(es, es.len() as int)
            + seq![93u8]));
        assert(ser(SpecValue::Arr(es)) == seq![91u8] + arr_close(es, 0));
    }
}

pub proof fn lemma_obj_text(ps: Seq<(Seq<u8>, SpecValue)>)
    ensures
        ser(SpecValue::Obj(ps)) == seq![123u8] + obj_close(ps, 0),
{
    if ps.len() == 0 {
        assert(ser(SpecValue::Obj(ps)) =~= seq![123u8] + obj_close(ps, 0));
    } else {
        lemma_obj_close_split(ps, 0);
        assert(ser_obj(ps, 0) + Seq::<u8>::empty() + obj_close(ps, 0) =~= obj_close(ps, 0));
        assert(ser(SpecValue::Obj(ps)) =~= seq![123u8] + (ser_obj(ps, ps.len() as int)
            + seq![125u8]));
        assert(ser(SpecValue::Obj(ps)) == seq![123u8] + obj_close(ps, 0));
    }
}

/// Two well-formed values with the same canonical text are equal.
pub proof fn lemma_ser_injective(a: SpecValue, b: SpecValue)
    requires
        wf(a),
        wf(b),
        ser(a) == ser(b),
    ensures
        a == b,
{
    assert(ser(a) + Seq::<u8>::empty() =~= ser(a));
    assert(ser(b) + Seq::<u8>::empty() =~= ser(b));
    lemma_ser_unique(a, b, Seq::empty(), Seq::empty());
}

} // verus!
verus! {

/// Equal sequences with an equal prefix have equal tails.
pub proof fn lemma_concat_cancel_left(p: Seq<u8>, x: Seq<u8>, y: Seq<u8>)
    requires
        p + x == p + y,
    ensures
        x == y,
{
    assert((p + x).len() == (p + y).len());
    assert((p + x).len() == p.len() + x.len());
    assert((p + y).len() == p.len() + y.len());
    assert(x.len() == y.len());
    assert forall|i: int| 0 <= i < x.len() implies x[i] == y[i] by {
        assert(x[i] == (p + x)[p.len() + i]);
        assert(y[i] == (p + y)[p.len() + i]);
    }
    assert(x =~= y);
}

/// Canonical texts are prefix-unambiguous: if two well-formed
/// values' texts agree, and neither rest could extend a number, the
/// values and the rests are the same.
pub proof fn lemma_ser_unique(a: SpecValue, b: SpecValue, ra: Seq<u8>, rb: Seq<u8>)
    requires
        wf(a),
        wf(b),
        ser(a) + ra == ser(b) + rb,
        a is Int ==> digit_boundary(ra),
        b is Int ==> digit_boundary(rb),
    ensures
        a == b,
        ra == rb,
    decreases a, 0int,
{
    lemma_ser_first_byte(a);
    lemma_ser_first_byte(b);
    let whole = ser(a) + ra;
    assert(whole[0] == ser(a)[0]);
    assert(whole[0] == ser(b)[0]);
    assert(whole.len() == ser(a).len() + ra.len());
    assert(whole.len() == ser(b).len() + rb.len());
    match a {
        SpecValue::Null => {
            match b {
                SpecValue::Null => {
                    lemma_concat_cancel_left(ser(a), ra, rb);
                },
                _ => {
                    assert(false);
                },
            }
        },
        SpecValue::Bool(x) => {
            match b {
                SpecValue::Bool(y) => {
                    if x != y {
                        assert(false);
                    }
                    lemma_concat_cancel_left(ser(a), ra, rb);
                },
                _ => {
                    assert(false);
                },
            }
        },
        SpecValue::Int(va) => {
            match b {
                SpecValue::Int(vb) => {
                    if va >= 0 && vb >= 0 {
                        lemma_dec_digits_prefix(va as nat, vb as nat, ra, rb);
                    } else if va < 0 && vb < 0 {
                        let da = dec_digits((-va) as nat);
                        let db = dec_digits((-vb) as nat);
                        assert(whole =~= seq![45u8] + (da + ra));
                        assert(whole =~= seq![45u8] + (db + rb));
                        lemma_concat_cancel_left(seq![45u8], da + ra, db + rb);
                        lemma_dec_digits_prefix((-va) as nat, (-vb) as nat, ra, rb);
                    } else if va < 0 {
                        lemma_dec_digits_props(vb as nat);
                        assert(false);
                    } else {
                        lemma_dec_digits_props(va as nat);
                        assert(false);
                    }
                },
                _ => {
                    assert(false);
                },
            }
        },
        SpecValue::Str(sa) => {
            match b {
                SpecValue::Str(sb) => {
                    assert(whole =~= seq![34u8] + (esc(sa) + seq![34u8] + ra));
                    assert(whole =~= seq![34u8] + (esc(sb) + seq![34u8] + rb));
                    lemma_concat_cancel_left(
                        seq![34u8],
                        esc(sa) + seq![34u8] + ra,
                        esc(sb) + seq![34u8] + rb,
                    );
                    lemma_esc_unique(sa, sb, ra, rb);
                },
                _ => {
                    assert(false);
                },
            }
        },
        SpecValue::Arr(esa) => {
            match b {
                SpecValue::Arr(esb) => {
                    lemma_arr_text(esa);
                    lemma_arr_text(esb);
                    assert(whole =~= seq![91u8] + (arr_close(esa, 0) + ra));
                    assert(whole =~= seq![91u8] + (arr_close(esb, 0) + rb));
                    lemma_concat_cancel_left(
                        seq![91u8],
                        arr_close(esa, 0) + ra,
                        arr_close(esb, 0) + rb,
                    );
                    lemma_arr_close_unique(esa, 0, esb, 0, ra, rb);
                    assert(esa =~= esb);
                },
                _ => {
                    assert(false);
                },
            }
        },
        SpecValue::Obj(psa) => {
            match b {
                SpecValue::Obj(psb) => {
                    lemma_obj_text(psa);
                    lemma_obj_text(psb);
                    assert(whole =~= seq![123u8] + (obj_close(psa, 0) + ra));
                    assert(whole =~= seq![123u8] + (obj_close(psb, 0) + rb));
                    lemma_concat_cancel_left(
                        seq![123u8],
                        obj_close(psa, 0) + ra,
                        obj_close(psb, 0) + rb,
                    );
                    lemma_obj_close_unique(psa, 0, psb, 0, ra, rb);
                    assert(psa =~= psb);
                },
                _ => {
                    assert(false);
                },
            }
        },
    }
}

proof fn lemma_arr_close_unique(
    esa: Seq<SpecValue>,
    ia: int,
    esb: Seq<SpecValue>,
    ib: int,
    ra: Seq<u8>,
    rb: Seq<u8>,
)
    requires
        0 <= ia <= esa.len(),
        0 <= ib <= esb.len(),
        all_wf(esa, esa.len() as int),
        all_wf(esb, esb.len() as int),
        arr_close(esa, ia) + ra == arr_close(esb, ib) + rb,
    ensures
        esa.len() - ia == esb.len() - ib,
        forall|j: int| ia <= j < esa.len() ==> #[trigger] esa[j] == esb[j - ia + ib],
        ra == rb,
    decreases esa, esa.len() - ia + 1,
{
    let whole = arr_close(esa, ia) + ra;
    if ia == esa.len() && ib == esb.len() {
        lemma_concat_cancel_left(seq![93u8], ra, rb);
    } else if ia == esa.len() {
        crate::value::lemma_all_wf_elem(esb, esb.len() as int, ib);
        lemma_ser_first_byte(esb[ib]);
        assert(whole[0] == 93);
        assert(whole[0] == ser(esb[ib])[0]);
        assert(false);
    } else if ib == esb.len() {
        crate::value::lemma_all_wf_elem(esa, esa.len() as int, ia);
        lemma_ser_first_byte(esa[ia]);
        assert(whole[0] == 93);
        assert(whole[0] == ser(esa[ia])[0]);
        assert(false);
    } else {
        crate::value::lemma_all_wf_elem(esa, esa.len() as int, ia);
        crate::value::lemma_all_wf_elem(esb, esb.len() as int, ib);
        let resta = (if ia == esa.len() - 1 {
            seq![93u8]
        } else {
            seq![44u8] + arr_close(esa, ia + 1)
        }) + ra;
        let restb = (if ib == esb.len() - 1 {
            seq![93u8]
        } else {
            seq![44u8] + arr_close(esb, ib + 1)
        }) + rb;
        assert(ser(esa[ia]) + resta =~= arr_close(esa, ia) + ra);
        assert(ser(esb[ib]) + restb =~= arr_close(esb, ib) + rb);
        assert(resta[0] == 93 || resta[0] == 44);
        assert(restb[0] == 93 || restb[0] == 44);
        lemma_ser_unique(esa[ia], esb[ib], resta, restb);
        if ia == esa.len() - 1 && ib == esb.len() - 1 {
            lemma_concat_cancel_left(seq![93u8], ra, rb);
        } else if ia == esa.len() - 1 {
            assert(resta[0] == 93 && restb[0] == 44);
            assert(false);
        } else if ib == esb.len() - 1 {
            assert(resta[0] == 44 && restb[0] == 93);
            assert(false);
        } else {
            assert(resta =~= seq![44u8] + (arr_close(esa, ia + 1) + ra));
            assert(restb =~= seq![44u8] + (arr_close(esb, ib + 1) + rb));
            lemma_concat_cancel_left(
                seq![44u8],
                arr_close(esa, ia + 1) + ra,
                arr_close(esb, ib + 1) + rb,
            );
            lemma_arr_close_unique(esa, ia + 1, esb, ib + 1, ra, rb);
        }
    }
}

#[verifier::rlimit(80)]
#[verifier::spinoff_prover]
proof fn lemma_obj_close_unique(
    psa: Seq<(Seq<u8>, SpecValue)>,
    ia: int,
    psb: Seq<(Seq<u8>, SpecValue)>,
    ib: int,
    ra: Seq<u8>,
    rb: Seq<u8>,
)
    requires
        0 <= ia <= psa.len(),
        0 <= ib <= psb.len(),
        all_wf_obj(psa, psa.len() as int),
        all_wf_obj(psb, psb.len() as int),
        obj_close(psa, ia) + ra == obj_close(psb, ib) + rb,
    ensures
        psa.len() - ia == psb.len() - ib,
        forall|j: int| ia <= j < psa.len() ==> #[trigger] psa[j] == psb[j - ia + ib],
        ra == rb,
    decreases psa, psa.len() - ia + 1,
{
    let whole = obj_close(psa, ia) + ra;
    if ia == psa.len() && ib == psb.len() {
        lemma_concat_cancel_left(seq![125u8], ra, rb);
    } else if ia == psa.len() {
        assert(whole[0] == 125);
        assert(whole[0] == ser_member(psb[ib])[0]);
        assert(false);
    } else if ib == psb.len() {
        assert(whole[0] == 125);
        assert(whole[0] == ser_member(psa[ia])[0]);
        assert(false);
    } else {
        crate::value::lemma_all_wf_obj_elem(psa, psa.len() as int, ia);
        crate::value::lemma_all_wf_obj_elem(psb, psb.len() as int, ib);
        let ka = psa[ia].0;
        let kb = psb[ib].0;
        let va = psa[ia].1;
        let vb = psb[ib].1;
        let resta = (if ia == psa.len() - 1 {
            seq![125u8]
        } else {
            seq![44u8] + obj_close(psa, ia + 1)
        }) + ra;
        let restb = (if ib == psb.len() - 1 {
            seq![125u8]
        } else {
            seq![44u8] + obj_close(psb, ib + 1)
        }) + rb;
        let ta = seq![58u8] + ser(va) + resta;
        let tb = seq![58u8] + ser(vb) + restb;
        assert(seq![34u8] + (esc(ka) + seq![34u8] + ta) =~= obj_close(psa, ia) + ra);
        assert(seq![34u8] + (esc(kb) + seq![34u8] + tb) =~= obj_close(psb, ib) + rb);
        lemma_concat_cancel_left(seq![34u8], esc(ka) + seq![34u8] + ta, esc(kb) + seq![34u8] + tb);
        lemma_esc_unique(ka, kb, ta, tb);
        assert(ta =~= seq![58u8] + (ser(va) + resta));
        assert(tb =~= seq![58u8] + (ser(vb) + restb));
        lemma_concat_cancel_left(seq![58u8], ser(va) + resta, ser(vb) + restb);
        assert(resta[0] == 125 || resta[0] == 44);
        assert(restb[0] == 125 || restb[0] == 44);
        lemma_ser_unique(va, vb, resta, restb);
        if ia == psa.len() - 1 && ib == psb.len() - 1 {
            lemma_concat_cancel_left(seq![125u8], ra, rb);
            assert(psa[ia] == psb[ib]);
        } else if ia == psa.len() - 1 {
            assert(resta[0] == 125 && restb[0] == 44);
            assert(false);
        } else if ib == psb.len() - 1 {
            assert(resta[0] == 44 && restb[0] == 125);
            assert(false);
        } else {
            assert(resta =~= seq![44u8] + (obj_close(psa, ia + 1) + ra));
            assert(restb =~= seq![44u8] + (obj_close(psb, ib + 1) + rb));
            lemma_concat_cancel_left(
                seq![44u8],
                obj_close(psa, ia + 1) + ra,
                obj_close(psb, ib + 1) + rb,
            );
            lemma_obj_close_unique(psa, ia + 1, psb, ib + 1, ra, rb);
            assert(psa[ia] == psb[ib]);
        }
    }
}

} // verus!

verus! {

/// A digit run that begins another one names a value no larger.
pub proof fn lemma_dec_digits_prefix_le(a: nat, b: nat)
    requires
        dec_digits(a).len() <= dec_digits(b).len(),
        dec_digits(a) == dec_digits(b).subrange(0, dec_digits(a).len() as int),
    ensures
        a <= b,
    decreases b,
{
    let da = dec_digits(a);
    let db = dec_digits(b);
    lemma_dec_digits_props(a);
    lemma_dec_digits_props(b);
    if da.len() == db.len() {
        assert(da =~= db);
        lemma_dec_digits_inj(a, b);
    } else {
        assert(b >= 10);
        let db1 = dec_digits(b / 10);
        assert(db == db1.push((b % 10 + 48) as u8));
        assert(da == db1.subrange(0, da.len() as int)) by {
            assert(forall|i: int| 0 <= i < da.len() ==> da[i] == db[i] && db1[i] == db[i]);
            assert(da =~= db1.subrange(0, da.len() as int));
        }
        lemma_dec_digits_prefix_le(a, b / 10);
        assert(b / 10 <= b);
    }
}

} // verus!

verus! {

/// What follows inside an array after `i` elements are consumed:
/// either the closing bracket, or a comma and the remaining tail.
pub open spec fn rest_after_arr(es: Seq<SpecValue>, i: int) -> Seq<u8> {
    if i >= es.len() {
        seq![93u8]
    } else {
        seq![44u8] + arr_close(es, i)
    }
}

/// What follows inside an object after `i` members are consumed.
pub open spec fn rest_after_obj(ps: Seq<(Seq<u8>, SpecValue)>, i: int) -> Seq<u8> {
    if i >= ps.len() {
        seq![125u8]
    } else {
        seq![44u8] + obj_close(ps, i)
    }
}

/// The tail text decomposes as one element's text and the rest.
pub proof fn lemma_arr_close_step(es: Seq<SpecValue>, i: int)
    requires
        0 <= i < es.len(),
    ensures
        arr_close(es, i) == ser(es[i]) + rest_after_arr(es, i + 1),
{
    if i == es.len() - 1 {
        assert(arr_close(es, i) =~= ser(es[i]) + rest_after_arr(es, i + 1));
    } else {
        assert(arr_close(es, i) =~= ser(es[i]) + (seq![44u8] + arr_close(es, i + 1)));
    }
}

pub proof fn lemma_obj_close_step(ps: Seq<(Seq<u8>, SpecValue)>, i: int)
    requires
        0 <= i < ps.len(),
    ensures
        obj_close(ps, i) == ser_member(ps[i]) + rest_after_obj(ps, i + 1),
{
    if i == ps.len() - 1 {
        assert(obj_close(ps, i) =~= ser_member(ps[i]) + rest_after_obj(ps, i + 1));
    } else {
        assert(obj_close(ps, i) =~= ser_member(ps[i]) + (seq![44u8] + obj_close(ps, i + 1)));
    }
}

/// Two member texts that agree (up to rests that cannot extend a
/// number) name the same key, the same value, and the same rests.
pub proof fn lemma_member_unique(
    ka: Seq<u8>,
    va: SpecValue,
    kb: Seq<u8>,
    vb: SpecValue,
    ra: Seq<u8>,
    rb: Seq<u8>,
)
    requires
        wf(va),
        wf(vb),
        ser_member((ka, va)) + ra == ser_member((kb, vb)) + rb,
        va is Int ==> digit_boundary(ra),
        vb is Int ==> digit_boundary(rb),
    ensures
        ka == kb,
        va == vb,
        ra == rb,
{
    let ta = seq![58u8] + ser(va) + ra;
    let tb = seq![58u8] + ser(vb) + rb;
    assert(ser_member((ka, va)) + ra =~= seq![34u8] + (esc(ka) + seq![34u8] + ta));
    assert(ser_member((kb, vb)) + rb =~= seq![34u8] + (esc(kb) + seq![34u8] + tb));
    lemma_concat_cancel_left(seq![34u8], esc(ka) + seq![34u8] + ta, esc(kb) + seq![34u8] + tb);
    lemma_esc_unique(ka, kb, ta, tb);
    assert(ta =~= seq![58u8] + (ser(va) + ra));
    assert(tb =~= seq![58u8] + (ser(vb) + rb));
    lemma_concat_cancel_left(seq![58u8], ser(va) + ra, ser(vb) + rb);
    lemma_ser_unique(va, vb, ra, rb);
}

} // verus!
verus! {

/// Whitespace erasure outside string literals, starting outside a
/// string: whitespace bytes are dropped, strings are entered at a
/// quote and copied verbatim.
pub open spec fn strip_out(s: Seq<u8>) -> Seq<u8>
    decreases s.len(),
{
    if s.len() == 0 {
        Seq::empty()
    } else if s[0] == 34 {
        seq![34u8] + strip_str(s.drop_first())
    } else if crate::parse::is_ws(s[0]) {
        strip_out(s.drop_first())
    } else {
        seq![s[0]] + strip_out(s.drop_first())
    }
}

/// The value of a hex digit character in either case, or -1.
pub open spec fn hex_val(c: u8) -> int {
    if 48 <= c <= 57 {
        c - 48
    } else if 97 <= c <= 102 {
        c - 87
    } else if 65 <= c <= 70 {
        c - 55
    } else {
        -1
    }
}

/// The code point named by a `\uXXXX` escape at the head of `s`.
pub open spec fn u_val(s: Seq<u8>) -> int
    recommends
        s.len() >= 6,
{
    hex_val(s[2]) * 4096 + hex_val(s[3]) * 256 + hex_val(s[4]) * 16 + hex_val(s[5])
}

/// A `\uXXXX` escape at the head of `s` names a code point outside
/// the surrogate range.
pub open spec fn u_escape_at(s: Seq<u8>) -> bool {
    s.len() >= 6 && s[1] == 117 && hex_val(s[2]) >= 0 && hex_val(s[3]) >= 0 && hex_val(s[4]) >= 0
        && hex_val(s[5]) >= 0 && !(0xD800 <= u_val(s) < 0xE000)
}

/// The canonical in-string bytes for a code point: the canonical
/// escape of an ASCII byte, else its UTF-8 encoding.
pub open spec fn code_point_bytes(v: int) -> Seq<u8> {
    if v <= 0x7F {
        esc_byte(v as u8)
    } else if v <= 0x7FF {
        seq![(0xC0 + v / 64) as u8, (0x80 + v % 64) as u8]
    } else {
        seq![(0xE0 + v / 4096) as u8, (0x80 + (v / 64) % 64) as u8, (0x80 + v % 64) as u8]
    }
}

/// Whitespace erasure inside a string literal: every byte is kept,
/// escape pairs are skipped atomically, and an unescaped quote
/// leaves the string.  Two escapes are normalized on the way: the
/// redundant `\/` becomes a plain slash, and a non-surrogate
/// `\uXXXX` becomes the canonical spelling of its code point.
pub open spec fn strip_str(s: Seq<u8>) -> Seq<u8>
    decreases s.len(),
{
    if s.len() == 0 {
        Seq::empty()
    } else if s[0] == 34 {
        seq![34u8] + strip_out(s.drop_first())
    } else if s[0] == 92 {
        if s.len() == 1 {
            seq![92u8]
        } else if s[1] == 47 {
            seq![47u8] + strip_str(s.skip(2))
        } else if u_escape_at(s) {
            code_point_bytes(u_val(s)) + strip_str(s.skip(6))
        } else {
            seq![92u8, s[1]] + strip_str(s.skip(2))
        }
    } else {
        seq![s[0]] + strip_str(s.drop_first())
    }
}

/// A run of bytes that are neither quotes nor whitespace passes
/// through untouched outside a string.
proof fn lemma_strip_out_plain(t: Seq<u8>, rest: Seq<u8>)
    requires
        forall|i: int| 0 <= i < t.len() ==> #[trigger] t[i] != 34 && !crate::parse::is_ws(t[i]),
    ensures
        strip_out(t + rest) == t + strip_out(rest),
    decreases t.len(),
{
    if t.len() == 0 {
        assert(t + rest =~= rest);
        assert(t + strip_out(rest) =~= strip_out(rest));
    } else {
        assert((t + rest)[0] == t[0]);
        assert((t + rest).drop_first() =~= t.drop_first() + rest);
        lemma_strip_out_plain(t.drop_first(), rest);
        assert(strip_out(t + rest) =~= t + strip_out(rest));
    }
}

/// A run of bytes that are neither quotes nor backslashes passes
/// through untouched inside a string.
proof fn lemma_strip_str_plain(t: Seq<u8>, rest: Seq<u8>)
    requires
        forall|i: int| 0 <= i < t.len() ==> #[trigger] t[i] != 34 && t[i] != 92,
    ensures
        strip_str(t + rest) == t + strip_str(rest),
    decreases t.len(),
{
    if t.len() == 0 {
        assert(t + rest =~= rest);
        assert(t + strip_str(rest) =~= strip_str(rest));
    } else {
        assert((t + rest)[0] == t[0]);
        assert((t + rest).drop_first() =~= t.drop_first() + rest);
        lemma_strip_str_plain(t.drop_first(), rest);
        assert(strip_str(t + rest) =~= t + strip_str(rest));
    }
}

/// Escaped string content passes through untouched inside a string.
proof fn lemma_strip_str_esc(c: Seq<u8>, rest: Seq<u8>)
    ensures
        strip_str(esc(c) + rest) == esc(c) + strip_str(rest),
    decreases c.len(),
{
    if c.len() == 0 {
        assert(esc(c) + rest =~= rest);
        assert(esc(c) + strip_str(rest) =~= strip_str(rest));
    } else {
        let b = c[0];
        let tail = esc(c.drop_first()) + rest;
        assert(esc(c) == esc_byte(b) + esc(c.drop_first()));
        assert(esc(c) + rest =~= esc_byte(b) + tail);
        lemma_strip_str_esc(c.drop_first(), rest);
        if b == 34 || b == 92 || b < 32 {
            // an escape sequence: backslash plus one byte, or the
            // six-byte \u form whose last four are hex characters
            let e = esc_byte(b);
            assert(e[0] == 92);
            if e.len() == 2 {
                assert((esc_byte(b) + tail)[0] == 92);
                assert((esc_byte(b) + tail)[1] == e[1]);
                assert(e[1] != 47);
                assert(e[1] != 117);
                assert(!u_escape_at(esc_byte(b) + tail));
                assert((esc_byte(b) + tail).skip(2) =~= tail);
                assert(strip_str(esc(c) + rest) =~= esc(c) + strip_str(rest));
            } else {
                // the canonical \u00XX escape re-emits itself
                assert(e.len() == 6);
                assert(e[1] == 117);
                let w = esc_byte(b) + tail;
                assert(w[0] == 92 && w[1] == 117 && w[2] == 48 && w[3] == 48 && w[4] == e[4]
                    && w[5] == e[5]);
                assert(hex_val(48) == 0);
                assert(hex_val(hex_digit((b / 16) as nat)) == b / 16);
                assert(hex_val(hex_digit((b % 16) as nat)) == b % 16);
                assert(u_val(w) == (b / 16) * 16 + b % 16);
                assert(u_val(w) == b);
                assert(u_escape_at(w));
                assert(code_point_bytes(u_val(w)) == esc_byte(b));
                assert(w.skip(6) =~= tail);
                assert(strip_str(esc(c) + rest) =~= esc(c) + strip_str(rest));
            }
        } else {
            assert(esc_byte(b) == seq![b]);
            assert((esc_byte(b) + tail)[0] == b);
            assert((esc_byte(b) + tail).drop_first() =~= tail);
            assert(strip_str(esc(c) + rest) =~= esc(c) + strip_str(rest));
        }
    }
}

/// Canonical text passes through whitespace erasure untouched: it
/// holds no whitespace outside its string literals.
pub proof fn lemma_strip_ser(v: SpecValue, rest: Seq<u8>)
    ensures
        strip_out(ser(v) + rest) == ser(v) + strip_out(rest),
    decreases v, 1int,
{
    match v {
        SpecValue::Null => {
            lemma_strip_out_plain(ser(v), rest);
        },
        SpecValue::Bool(_) => {
            lemma_strip_out_plain(ser(v), rest);
        },
        SpecValue::Int(i) => {
            if i < 0 {
                lemma_dec_digits_props((-i) as nat);
            } else {
                lemma_dec_digits_props(i as nat);
            }
            lemma_strip_out_plain(ser(v), rest);
        },
        SpecValue::Str(sc) => {
            lemma_strip_quoted(sc, rest);
        },
        SpecValue::Arr(es) => {
            let inner = ser_arr(es, es.len() as int) + (seq![93u8] + rest);
            assert(ser(v) + rest =~= seq![91u8] + inner);
            assert((seq![91u8] + inner)[0] == 91);
            assert((seq![91u8] + inner).drop_first() =~= inner);
            lemma_strip_arr(es, es.len() as int, seq![93u8] + rest);
            lemma_strip_out_plain(seq![93u8], rest);
            assert(seq![93u8] + rest =~= seq![93u8] + rest);
            assert(strip_out(ser(v) + rest) =~= ser(v) + strip_out(rest));
        },
        SpecValue::Obj(ps) => {
            let inner = ser_obj(ps, ps.len() as int) + (seq![125u8] + rest);
            assert(ser(v) + rest =~= seq![123u8] + inner);
            assert((seq![123u8] + inner)[0] == 123);
            assert((seq![123u8] + inner).drop_first() =~= inner);
            lemma_strip_obj(ps, ps.len() as int, seq![125u8] + rest);
            lemma_strip_out_plain(seq![125u8], rest);
            assert(strip_out(ser(v) + rest) =~= ser(v) + strip_out(rest));
        },
    }
}

/// A quoted, escaped string passes through untouched.
proof fn lemma_strip_quoted(sc: Seq<u8>, rest: Seq<u8>)
    ensures
        strip_out(seq![34u8] + esc(sc) + seq![34u8] + rest) == seq![34u8] + esc(sc) + seq![34u8]
            + strip_out(rest),
{
    let q = seq![34u8] + esc(sc) + seq![34u8] + rest;
    assert(q =~= seq![34u8] + (esc(sc) + (seq![34u8] + rest)));
    assert(q[0] == 34);
    assert(q.drop_first() =~= esc(sc) + (seq![34u8] + rest));
    lemma_strip_str_esc(sc, seq![34u8] + rest);
    assert((seq![34u8] + rest)[0] == 34);
    assert((seq![34u8] + rest).drop_first() =~= rest);
    assert(strip_str(seq![34u8] + rest) == seq![34u8] + strip_out(rest));
    assert(strip_out(q) =~= seq![34u8] + esc(sc) + seq![34u8] + strip_out(rest));
}

proof fn lemma_strip_arr(es: Seq<SpecValue>, k: int, rest: Seq<u8>)
    ensures
        strip_out(ser_arr(es, k) + rest) == ser_arr(es, k) + strip_out(rest),
    decreases es, k, 2int,
{
    if k <= 0 || k > es.len() {
        assert(ser_arr(es, k) + rest =~= rest);
        assert(ser_arr(es, k) + strip_out(rest) =~= strip_out(rest));
    } else if k == 1 {
        lemma_strip_ser(es[0], rest);
    } else {
        let piece = seq![44u8] + (ser(es[k - 1]) + rest);
        assert(ser_arr(es, k) + rest =~= ser_arr(es, k - 1) + piece);
        lemma_strip_arr(es, k - 1, piece);
        lemma_strip_out_plain(seq![44u8], ser(es[k - 1]) + rest);
        lemma_strip_ser(es[k - 1], rest);
        assert(strip_out(ser_arr(es, k) + rest) =~= ser_arr(es, k) + strip_out(rest));
    }
}

proof fn lemma_strip_obj(ps: Seq<(Seq<u8>, SpecValue)>, k: int, rest: Seq<u8>)
    ensures
        strip_out(ser_obj(ps, k) + rest) == ser_obj(ps, k) + strip_out(rest),
    decreases ps, k, 2int,
{
    if k <= 0 || k > ps.len() {
        assert(ser_obj(ps, k) + rest =~= rest);
        assert(ser_obj(ps, k) + strip_out(rest) =~= strip_out(rest));
    } else if k == 1 {
        lemma_strip_member(ps[0], rest);
    } else {
        let piece = seq![44u8] + (ser_member(ps[k - 1]) + rest);
        assert(ser_obj(ps, k) + rest =~= ser_obj(ps, k - 1) + piece);
        lemma_strip_obj(ps, k - 1, piece);
        lemma_strip_out_plain(seq![44u8], ser_member(ps[k - 1]) + rest);
        lemma_strip_member(ps[k - 1], rest);
        assert(strip_out(ser_obj(ps, k) + rest) =~= ser_obj(ps, k) + strip_out(rest));
    }
}

proof fn lemma_strip_member(p: (Seq<u8>, SpecValue), rest: Seq<u8>)
    ensures
        strip_out(ser_member(p) + rest) == ser_member(p) + strip_out(rest),
    decreases p, 0int,
{
    let after_key = seq![58u8] + (ser(p.1) + rest);
    assert(ser_member(p) + rest =~= seq![34u8] + esc(p.0) + seq![34u8] + after_key);
    lemma_strip_quoted(p.0, after_key);
    lemma_strip_out_plain(seq![58u8], ser(p.1) + rest);
    lemma_strip_ser(p.1, rest);
    assert(strip_out(ser_member(p) + rest) =~= ser_member(p) + strip_out(rest));
}

/// The identity itself: canonical text is already whitespace-free
/// outside strings.
pub proof fn lemma_strip_ser_id(v: SpecValue)
    ensures
        strip_out(ser(v)) == ser(v),
{
    lemma_strip_ser(v, Seq::empty());
    assert(ser(v) + Seq::<u8>::empty() =~= ser(v));
    assert(strip_out(Seq::<u8>::empty()) == Seq::<u8>::empty());
    assert(ser(v) + strip_out(Seq::<u8>::empty()) =~= ser(v));
}

} // verus!
