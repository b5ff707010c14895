//! Parser for the wire text produced by `ser`.  Parsing is exact: a
//! parse succeeds only on the canonical text of a value -- escapes in
//! their canonical spelling, no whitespace between tokens -- and the
//! accepted bytes are then precisely `ser` of the result.  One level
//! up, where a frame is decoded, the bytes first pass through a
//! verified normalization that removes whitespace outside strings
//! and rewrites `\/` and `\uXXXX` escapes to their canonical
//! spelling, so those freedoms of JSON are accepted there.  Number
//! spellings are not normalized: `-0`, exponent and fraction forms,
//! and integers beyond the 64-bit signed range are syntax errors.
use vstd::prelude::*;

use crate::canonical::{
    arr_close, lemma_arr_close_step, lemma_arr_text, lemma_obj_close_step, lemma_obj_text,
    lemma_member_unique, lemma_ser_first_byte, lemma_ser_unique, rest_after_arr, rest_after_obj,
};
use crate::ser::{dec_digits, esc, esc_byte, lemma_dec_digits_step, lemma_esc_concat,
    lemma_esc_push, lemma_ser_arr_push, lemma_ser_obj_push, ser, ser_arr, ser_int, ser_member,
    ser_obj};
use crate::value::{all_wf, all_wf_obj, lemma_all_wf_elem, lemma_all_wf_intro,
    lemma_all_wf_obj_elem, lemma_all_wf_obj_intro, lemma_obj_to_spec, lemma_seq_to_spec,
    obj_to_spec, seq_to_spec, wf, JsonValue, SpecValue};

verus! {

/// A whitespace byte: space, tab, line feed or carriage return.
pub open spec fn is_ws(b: u8) -> bool {
    b == 32 || b == 9 || b == 10 || b == 13
}

/// A quoted string token: opening quote, escaped content, closing
/// quote.
pub open spec fn string_token_at(s: Seq<u8>, pos: int, end: int, c: Seq<u8>) -> bool {
    pos < end <= s.len() && s.subrange(pos, end) == seq![34u8] + esc(c) + seq![34u8]
}

/// Reads a quoted string starting at `pos`, decoding the canonical
/// escapes; on success the consumed bytes are the opening quote, the
/// escaped text of the returned content, and the closing quote.  It
/// succeeds whenever such a token is there.
#[verifier::rlimit(80)]
fn parse_string(s: &Vec<u8>, pos: usize) -> (r: Option<(Vec<u8>, usize)>)
    requires
        pos < s@.len(),
        s@[pos as int] == 34,
    ensures
        r matches Some(p) ==> ({
            &&& pos + 2 <= p.1 <= s@.len()
            &&& s@.subrange(pos as int, p.1 as int) == seq![34u8] + esc(p.0@) + seq![34u8]
        }),
        (exists|c: Seq<u8>, end: int| string_token_at(s@, pos as int, end, c)) ==> r is Some,
{
    let ghost ghas = exists|c: Seq<u8>, end: int| string_token_at(s@, pos as int, end, c);
    let ghost gw: (Seq<u8>, int) = if ghas {
        choose|c: Seq<u8>, end: int| string_token_at(s@, pos as int, end, c)
    } else {
        (Seq::empty(), 0)
    };
    let ghost gc = gw.0;
    let ghost gend = gw.1;
    proof {
        if ghas {
            assert(string_token_at(s@, pos as int, gend, gc));
            assert(s@.subrange(pos as int, gend).len() == gend - pos);
            assert(gend == pos + 2 + esc(gc).len());
        }
    }
    let n = s.len();
    let mut content: Vec<u8> = Vec::new();
    let ghost mut gk: int = 0;
    let mut i: usize = pos + 1;
    loop
        invariant
            n == s@.len(),
            pos + 1 <= i <= s@.len(),
            pos < s@.len(),
            s@[pos as int] == 34,
            s@.subrange(pos + 1, i as int) == esc(content@),
            ghas ==> string_token_at(s@, pos as int, gend, gc) && gend == pos + 2 + esc(gc).len()
                && 0 <= gk <= gc.len() && content@ == gc.subrange(0, gk) && i == pos + 1 + esc(
                gc.subrange(0, gk),
            ).len(),
            ghas == exists|c: Seq<u8>, end: int| string_token_at(s@, pos as int, end, c),
        decreases s@.len() - i,
    {
        proof {
            if ghas {
                let pre = gc.subrange(0, gk);
                let suf = gc.subrange(gk, gc.len() as int);
                assert(gc =~= pre + suf);
                lemma_esc_concat(pre, suf);
                assert(forall|j: int|
                    0 <= j < gend - pos ==> s@[pos + j] == (#[trigger] s@.subrange(
                        pos as int,
                        gend,
                    )[j]));
                if gk < gc.len() {
                    assert(suf[0] == gc[gk]);
                    assert(esc(suf) == esc_byte(gc[gk]) + esc(suf.drop_first()));
                    assert(esc(gc).len() == esc(pre).len() + esc(suf).len());
                    assert(esc(suf).len() == esc_byte(gc[gk]).len() + esc(
                        suf.drop_first(),
                    ).len());
                    assert forall|j: int| 0 <= j < esc_byte(gc[gk]).len() implies s@[i + j] == (
                    #[trigger] esc_byte(gc[gk])[j]) by {
                        assert(s@[i + j] == s@.subrange(pos as int, gend)[i - pos + j]);
                        assert(s@.subrange(pos as int, gend)[i - pos + j] == (seq![34u8] + esc(gc)
                            + seq![34u8])[i - pos + j]);
                        assert((seq![34u8] + esc(gc) + seq![34u8])[i - pos + j] == esc(gc)[i - pos
                            - 1 + j]);
                        assert(esc(gc)[i - pos - 1 + j] == esc(suf)[j]);
                        assert(esc(suf)[j] == esc_byte(gc[gk])[j]);
                    }
                    assert(i + esc_byte(gc[gk]).len() <= gend - 1);
                } else {
                    assert(content@ =~= gc);
                    assert(i == gend - 1);
                    assert(s@[i as int] == (seq![34u8] + esc(gc) + seq![34u8])[i - pos]);
                    assert(s@[i as int] == 34);
                }
            }
        }
        if i == n {
            proof {
                if ghas {
                    assert(false);
                }
            }
            return None;
        }
        let b = s[i];
        if b == 34 {
            proof {
                if ghas && gk < gc.len() {
                    assert(esc_byte(gc[gk])[0] != 34);
                    assert(false);
                }
                assert(s@.subrange(pos as int, (i + 1) as int) =~= seq![34u8] + esc(content@)
                    + seq![34u8]);
            }
            return Some((content, i + 1));
        }
        if b == 92 {
            proof {
                if ghas {
                    assert(gk < gc.len());
                    assert(esc_byte(gc[gk])[0] == 92);
                    assert(esc_byte(gc[gk]).len() >= 2);
                }
            }
            if n - i < 2 {
                proof {
                    if ghas {
                        assert(false);
                    }
                }
                return None;
            }
            let e = s[i + 1];
            let decoded: u8 = if e == 34 {
                34
            } else if e == 92 {
                92
            } else if e == 98 {
                8
            } else if e == 116 {
                9
            } else if e == 110 {
                10
            } else if e == 102 {
                12
            } else if e == 114 {
                13
            } else {
                255
            };
            if decoded != 255 {
                proof {
                    let ghost pre = gc.subrange(0, gk);
                    assert(s@.subrange(pos + 1, (i + 2) as int) =~= esc(content@) + seq![
                        92u8,
                        e,
                    ]);
                    lemma_esc_push(content@, decoded);
                    assert(esc_byte(decoded) =~= seq![92u8, e]);
                    assert(s@.subrange(pos + 1, (i + 2) as int) =~= esc(content@.push(decoded)));
                    if ghas {
                        assert(esc_byte(gc[gk])[1] == e);
                        assert(gc[gk] == decoded);
                        assert(gc.subrange(0, gk + 1) =~= pre.push(gc[gk]));
                        lemma_esc_push(pre, gc[gk]);
                        gk = gk + 1;
                    }
                }
                content.push(decoded);
                i = i + 2;
                continue;
            }
            if e != 117 {
                proof {
                    if ghas {
                        assert(esc_byte(gc[gk])[1] == e);
                        assert(false);
                    }
                }
                return None;
            }
            // canonical \u00XX, lower-case hex, for the remaining
            // control bytes only
            if n - i < 6 {
                proof {
                    if ghas {
                        assert(esc_byte(gc[gk]).len() == 6);
                        assert(false);
                    }
                }
                return None;
            }
            let d2 = s[i + 2];
            let d3 = s[i + 3];
            let d4 = s[i + 4];
            let d5 = s[i + 5];
            let h4: u8 = if 48 <= d4 && d4 <= 57 {
                d4 - 48
            } else if 97 <= d4 && d4 <= 102 {
                d4 - 87
            } else {
                255
            };
            let h5: u8 = if 48 <= d5 && d5 <= 57 {
                d5 - 48
            } else if 97 <= d5 && d5 <= 102 {
                d5 - 87
            } else {
                255
            };
            proof {
                if ghas {
                    assert(esc_byte(gc[gk]).len() == 6);
                    assert(d2 == esc_byte(gc[gk])[2] && d3 == esc_byte(gc[gk])[3] && d4
                        == esc_byte(gc[gk])[4] && d5 == esc_byte(gc[gk])[5]);
                }
            }
            if !(d2 == 48 && d3 == 48 && h4 != 255 && h5 != 255) {
                proof {
                    if ghas {
                        assert(false);
                    }
                }
                return None;
            }
            let v = h4 * 16 + h5;
            if !(v < 32 && v != 8 && v != 9 && v != 10 && v != 12 && v != 13) {
                proof {
                    if ghas {
                        let b0 = gc[gk];
                        assert(d4 == crate::ser::hex_digit((b0 / 16) as nat));
                        assert(d5 == crate::ser::hex_digit((b0 % 16) as nat));
                        assert(h4 == b0 / 16 && h5 == b0 % 16);
                        assert(v == b0);
                        assert(false);
                    }
                }
                return None;
            }
            proof {
                let ghost pre = gc.subrange(0, gk);
                assert(esc_byte(v) =~= seq![92u8, 117u8, 48u8, 48u8, d4, d5]) by {
                    assert(crate::ser::hex_digit((v / 16) as nat) == d4);
                    assert(crate::ser::hex_digit((v % 16) as nat) == d5);
                }
                assert(s@.subrange(pos + 1, (i + 6) as int) =~= esc(content@) + seq![
                    92u8,
                    117u8,
                    48u8,
                    48u8,
                    d4,
                    d5,
                ]);
                lemma_esc_push(content@, v);
                assert(s@.subrange(pos + 1, (i + 6) as int) =~= esc(content@.push(v)));
                if ghas {
                    let b0 = gc[gk];
                    assert(d4 == crate::ser::hex_digit((b0 / 16) as nat));
                    assert(d5 == crate::ser::hex_digit((b0 % 16) as nat));
                    assert(h4 == b0 / 16 && h5 == b0 % 16);
                    assert(v == b0);
                    assert(gc.subrange(0, gk + 1) =~= pre.push(gc[gk]));
                    lemma_esc_push(pre, gc[gk]);
                    gk = gk + 1;
                }
            }
            content.push(v);
            i = i + 6;
            continue;
        }
        if b < 32 {
            proof {
                if ghas {
                    if gk < gc.len() {
                        assert(esc_byte(gc[gk])[0] == b);
                        assert(false);
                    }
                }
            }
            return None;
        }
        proof {
            let ghost pre = gc.subrange(0, gk);
            assert(esc_byte(b) =~= seq![b]);
            assert(s@.subrange(pos + 1, (i + 1) as int) =~= esc(content@) + seq![b]);
            lemma_esc_push(content@, b);
            assert(s@.subrange(pos + 1, (i + 1) as int) =~= esc(content@.push(b)));
            if ghas {
                assert(gk < gc.len());
                assert(esc_byte(gc[gk])[0] == b);
                assert(gc[gk] == b);
                assert(gc.subrange(0, gk + 1) =~= pre.push(gc[gk]));
                lemma_esc_push(pre, gc[gk]);
                gk = gk + 1;
            }
        }
        content.push(b);
        i = i + 1;
    }
}

/// A canonical integer token whose text cannot extend to the right.
pub open spec fn int_token_at(s: Seq<u8>, pos: int, end: int, n: int) -> bool {
    pos < end <= s.len() && i64::MIN <= n <= i64::MAX && s.subrange(pos, end) == ser_int(n) && (end
        == s.len() || !(48 <= s[end] <= 57))
}

/// Reads a canonical integer starting at `pos`; on success the
/// consumed bytes are exactly the canonical text of the result, and
/// the byte after them (if any) is not a digit.  It succeeds
/// whenever such a token is there.
fn parse_int(s: &Vec<u8>, pos: usize) -> (r: Option<(i64, usize)>)
    requires
        pos < s@.len(),
        s@[pos as int] == 45 || 48 <= s@[pos as int] <= 57,
    ensures
        r matches Some(p) ==> ({
            &&& pos < p.1 <= s@.len()
            &&& s@.subrange(pos as int, p.1 as int) == ser_int(p.0 as int)
            &&& (p.1 == s@.len() || !(48 <= s@[p.1 as int] <= 57))
        }),
        (exists|n: int, end: int| int_token_at(s@, pos as int, end, n)) ==> r is Some,
{
    let ghost ghas = exists|n: int, end: int| int_token_at(s@, pos as int, end, n);
    let ghost gw: (int, int) = if ghas {
        choose|n: int, end: int| int_token_at(s@, pos as int, end, n)
    } else {
        (0, 0)
    };
    let ghost gn = gw.0;
    let ghost gend = gw.1;
    let ghost gmag: nat = if gn < 0 {
        (-gn) as nat
    } else {
        gn as nat
    };
    let ghost gneg = gn < 0;
    let ghost gd = crate::ser::dec_digits(gmag);
    let ghost gds: int = if gneg {
        pos + 1
    } else {
        pos as int
    };
    proof {
        if ghas {
            assert(int_token_at(s@, pos as int, gend, gn));
            crate::canonical::lemma_dec_digits_props(gmag);
            assert(s@.subrange(pos as int, gend).len() == gend - pos);
            if gneg {
                assert(ser_int(gn) == seq![45u8] + gd);
                assert(gend == pos + 1 + gd.len());
                assert(forall|j: int|
                    0 <= j < gd.len() ==> (seq![45u8] + gd)[1 + j] == gd[j]);
                assert(forall|j: int|
                    0 <= j < gend - pos ==> s@[pos + j] == (#[trigger] s@.subrange(
                        pos as int,
                        gend,
                    )[j]));
                assert(s@[pos as int] == s@.subrange(pos as int, gend)[0]);
                assert((seq![45u8] + gd)[0] == 45);
                assert(forall|j: int| 0 <= j < gd.len() ==> s@[gds + j] == gd[j]);
                assert(s@[pos as int] == 45);
            } else {
                assert(ser_int(gn) == gd);
                assert(gend == pos + gd.len());
                assert(forall|j: int|
                    0 <= j < gend - pos ==> s@[pos + j] == (#[trigger] s@.subrange(
                        pos as int,
                        gend,
                    )[j]));
                assert(s@[pos as int] == s@.subrange(pos as int, gend)[0]);
                assert(forall|j: int| 0 <= j < gd.len() ==> s@[gds + j] == gd[j]);
                assert(s@[pos as int] == gd[0]);
            }
        }
    }
    let n = s.len();
    let neg = s[pos] == 45;
    proof {
        if ghas {
            assert(neg == gneg);
        }
    }
    let dstart: usize = if neg {
        pos + 1
    } else {
        pos
    };
    if dstart == n {
        proof {
            if ghas {
                assert(s@[gds] == gd[0]);
                assert(false);
            }
        }
        return None;
    }
    let d0 = s[dstart];
    if !(48 <= d0 && d0 <= 57) {
        proof {
            if ghas {
                assert(s@[gds] == gd[0]);
                assert(false);
            }
        }
        return None;
    }
    if d0 == 48 {
        // a leading zero stands alone, and "-0" is not canonical
        if neg {
            proof {
                if ghas {
                    assert(gmag >= 1);
                    assert(s@[gds] == gd[0]);
                    assert(false);
                }
            }
            return None;
        }
        if pos + 1 < n && 48 <= s[pos + 1] && s[pos + 1] <= 57 {
            proof {
                if ghas {
                    assert(s@[gds] == gd[0]);
                    assert(gmag == 0);
                    assert(gend == pos + 1);
                    assert(false);
                }
            }
            return None;
        }
        proof {
            assert(s@.subrange(pos as int, (pos + 1) as int) =~= seq![48u8]);
            assert(dec_digits(0) == seq![48u8]);
        }
        return Some((0i64, pos + 1));
    }
    let mut val: u64 = (d0 - 48) as u64;
    let mut i: usize = dstart + 1;
    proof {
        assert(s@.subrange(dstart as int, (dstart + 1) as int) =~= seq![d0]);
        assert(dec_digits(val as nat) == seq![d0]);
    }
    loop
        invariant
            dstart < i <= s@.len(),
            dstart < s@.len(),
            ghas ==> dstart == gds,
            1 <= val <= 9223372036854775808u64,
            s@.subrange(dstart as int, i as int) == dec_digits(val as nat),
            ghas ==> int_token_at(s@, pos as int, gend, gn) && gend == gds + gd.len() && gd
                == crate::ser::dec_digits(gmag) && gmag == (if gn < 0 {
                (-gn) as nat
            } else {
                gn as nat
            }) && (forall|j: int| 0 <= j < gd.len() ==> s@[gds + j] == gd[j]) && i <= gds
                + gd.len() && gneg == (gn < 0) && neg == gneg,
            n == s@.len(),
            ghas == exists|n0: int, end: int| int_token_at(s@, pos as int, end, n0),
        ensures
            dstart < i <= s@.len(),
            1 <= val <= 9223372036854775808u64,
            s@.subrange(dstart as int, i as int) == dec_digits(val as nat),
            i == s@.len() || !(48 <= s@[i as int] <= 57),
            ghas ==> i == gds + gd.len(),
        decreases s@.len() - i,
    {
        proof {
            if ghas {
                crate::canonical::lemma_dec_digits_props(gmag);
                crate::canonical::lemma_dec_digits_props(val as nat);
                assert(dec_digits(val as nat).len() == i - dstart);
                assert(forall|j: int|
                    0 <= j < i - dstart ==> dec_digits(val as nat)[j] == (
                    #[trigger] s@.subrange(dstart as int, i as int)[j]));
                assert(forall|j: int|
                    0 <= j < i - dstart ==> dec_digits(val as nat)[j] == gd[j]);
            }
        }
        if i == n {
            proof {
                if ghas {
                    if i < gds + gd.len() {
                        assert(s@[i as int] == gd[i - gds]);
                        assert(i < gend);
                        assert(false);
                    }
                }
            }
            break;
        }
        let b = s[i];
        if !(48 <= b && b <= 57) {
            proof {
                if ghas {
                    if i < gds + gd.len() {
                        assert(s@[i as int] == gd[i - gds]);
                        assert(false);
                    }
                }
            }
            break;
        }
        proof {
            if ghas {
                if i == gds + gd.len() {
                    assert(i == gend);
                    assert(false);
                }
                assert(i < gds + gd.len());
                crate::ser::lemma_dec_digits_step(val as nat, (b - 48) as nat);
                assert(s@.subrange(dstart as int, (i + 1) as int) =~= s@.subrange(
                    dstart as int,
                    i as int,
                ).push(b));
                assert(dec_digits((val * 10 + (b - 48)) as nat) == dec_digits(
                    val as nat,
                ).push(b));
                assert(dec_digits((val * 10 + (b - 48)) as nat) =~= gd.subrange(
                    0,
                    i + 1 - gds,
                )) by {
                    assert(forall|j: int|
                        0 <= j < i - gds ==> dec_digits((val * 10 + (b - 48)) as nat)[j] == gd[j]);
                    assert(dec_digits((val * 10 + (b - 48)) as nat)[i - gds] == b);
                    assert(gd[i - gds] == s@[i as int]);
                }
                crate::canonical::lemma_dec_digits_prefix_le((val * 10 + (b - 48)) as nat, gmag);
                assert(val * 10 + (b - 48) <= 9223372036854775808);
            }
        }
        if val > 922337203685477580u64 {
            proof {
                if ghas {
                    assert(false);
                }
            }
            return None;
        }
        let d = (b - 48) as u64;
        let new_val = val * 10 + d;
        if new_val > 9223372036854775808u64 {
            proof {
                if ghas {
                    assert(false);
                }
            }
            return None;
        }
        proof {
            crate::ser::lemma_dec_digits_step(val as nat, d as nat);
            assert(s@.subrange(dstart as int, (i + 1) as int) =~= s@.subrange(
                dstart as int,
                i as int,
            ).push(b));
        }
        val = new_val;
        i = i + 1;
    }
    proof {
        if ghas {
            assert(dec_digits(val as nat) =~= gd) by {
                assert(dec_digits(val as nat).len() == i - dstart);
                assert(forall|j: int|
                    0 <= j < i - dstart ==> dec_digits(val as nat)[j] == (
                    #[trigger] s@.subrange(dstart as int, i as int)[j]));
                assert(forall|j: int|
                    0 <= j < i - dstart ==> dec_digits(val as nat)[j] == gd[j]);
            }
            crate::canonical::lemma_dec_digits_inj(val as nat, gmag);
            assert(val as nat == gmag);
        }
    }
    if neg {
        let res: i64 = if val == 9223372036854775808u64 {
            i64::MIN
        } else {
            -(val as i64)
        };
        proof {
            assert((-(res as int)) as nat == val as nat);
            assert(s@.subrange(pos as int, i as int) =~= seq![45u8] + s@.subrange(
                dstart as int,
                i as int,
            ));
        }
        Some((res, i))
    } else {
        if val > 9223372036854775807u64 {
            proof {
                if ghas {
                    assert(gmag == gn as nat);
                    assert(false);
                }
            }
            return None;
        }
        let res: i64 = val as i64;
        Some((res, i))
    }
}

/// A whole-value token whose text cannot extend to the right.
pub open spec fn value_token_at(s: Seq<u8>, pos: int, end: int, sv: SpecValue) -> bool {
    pos < end <= s.len() && wf(sv) && s.subrange(pos, end) == ser(sv) && (end == s.len() || !(48
        <= s[end] <= 57))
}

/// A member token (key, colon, value) whose text cannot extend to
/// the right.
pub open spec fn member_token_at(s: Seq<u8>, pos: int, end: int, k: Seq<u8>, v: SpecValue) -> bool {
    pos < end <= s.len() && wf(v) && s.subrange(pos, end) == ser_member((k, v)) && (end == s.len()
        || !(48 <= s[end] <= 57))
}

/// Inside an array tail, the next element is a whole-value token.
proof fn lemma_arr_elem_token(s: Seq<u8>, cur: int, gend: int, ges: Seq<SpecValue>, wi: int)
    requires
        0 <= wi < ges.len(),
        all_wf(ges, ges.len() as int),
        0 <= cur <= gend <= s.len(),
        s.subrange(cur, gend) == arr_close(ges, wi),
    ensures
        value_token_at(s, cur, cur + ser(ges[wi]).len(), ges[wi]),
        cur + ser(ges[wi]).len() < gend,
{
    lemma_arr_close_step(ges, wi);
    lemma_all_wf_elem(ges, ges.len() as int, wi);
    lemma_ser_first_byte(ges[wi]);
    let el = ser(ges[wi]).len() as int;
    let ra = rest_after_arr(ges, wi + 1);
    assert(s.subrange(cur, gend).len() == gend - cur);
    assert((ser(ges[wi]) + ra).len() == el + ra.len());
    assert(gend - cur == el + ra.len());
    assert(forall|j: int|
        0 <= j < gend - cur ==> s[cur + j] == (#[trigger] s.subrange(cur, gend)[j]));
    assert(s.subrange(cur, cur + el) =~= ser(ges[wi])) by {
        assert(forall|j: int|
            0 <= j < el ==> s.subrange(cur, cur + el)[j] == s[cur + j] && (ser(ges[wi])
                + ra)[j] == ser(ges[wi])[j]);
    }
    assert(s[cur + el] == (ser(ges[wi]) + ra)[el]);
    assert(ra[0] == 93 || ra[0] == 44);
    assert(s[cur + el] == 93 || s[cur + el] == 44);
}

/// The element the parser read inside an array tail is the witness
/// element, and the tail continues exactly after it.
proof fn lemma_arr_elem_match(
    s: Seq<u8>,
    cur: int,
    gend: int,
    ges: Seq<SpecValue>,
    wi: int,
    e: SpecValue,
    end2: int,
)
    requires
        0 <= wi < ges.len(),
        all_wf(ges, ges.len() as int),
        0 <= cur <= gend <= s.len(),
        s.subrange(cur, gend) == arr_close(ges, wi),
        wf(e),
        cur < end2 <= s.len(),
        s.subrange(cur, end2) == ser(e),
        e is Int ==> (end2 == s.len() || !(48 <= s[end2] <= 57)),
    ensures
        e == ges[wi],
        end2 < gend,
        s.subrange(end2, gend) == rest_after_arr(ges, wi + 1),
{
    lemma_arr_close_step(ges, wi);
    lemma_all_wf_elem(ges, ges.len() as int, wi);
    let el = ser(ges[wi]).len() as int;
    let ra = rest_after_arr(ges, wi + 1);
    let tail = s.subrange(cur, s.len() as int);
    let r1 = s.subrange(end2, s.len() as int);
    let r2 = ra + s.subrange(gend, s.len() as int);
    assert(tail =~= ser(e) + r1);
    assert(tail =~= (ser(ges[wi]) + ra) + s.subrange(gend, s.len() as int)) by {
        assert(forall|j: int|
            0 <= j < gend - cur ==> s[cur + j] == (#[trigger] s.subrange(cur, gend)[j]));
    }
    assert(tail =~= ser(ges[wi]) + r2);
    assert(ra[0] == 93 || ra[0] == 44);
    assert(r2[0] == ra[0]);
    lemma_ser_unique(e, ges[wi], r1, r2);
    assert(end2 - cur == el);
    assert(gend - end2 == ra.len());
    assert(s.subrange(end2, gend) =~= ra) by {
        assert(forall|j: int|
            0 <= j < ra.len() ==> s.subrange(end2, gend)[j] == s[end2 + j] && r1[j] == s[end2
                + j] && r2[j] == ra[j]);
    }
}

/// Inside an object tail, the next member is a whole member token.
proof fn lemma_obj_member_token(
    s: Seq<u8>,
    cur: int,
    gend: int,
    gps: Seq<(Seq<u8>, SpecValue)>,
    wi: int,
)
    requires
        0 <= wi < gps.len(),
        all_wf_obj(gps, gps.len() as int),
        0 <= cur <= gend <= s.len(),
        s.subrange(cur, gend) == crate::canonical::obj_close(gps, wi),
    ensures
        member_token_at(s, cur, cur + ser_member(gps[wi]).len(), gps[wi].0, gps[wi].1),
        cur + ser_member(gps[wi]).len() < gend,
        s[cur] == 34,
{
    lemma_obj_close_step(gps, wi);
    lemma_all_wf_obj_elem(gps, gps.len() as int, wi);
    let el = ser_member(gps[wi]).len() as int;
    let ra = rest_after_obj(gps, wi + 1);
    assert(s.subrange(cur, gend).len() == gend - cur);
    assert((ser_member(gps[wi]) + ra).len() == el + ra.len());
    assert(gend - cur == el + ra.len());
    assert(forall|j: int|
        0 <= j < gend - cur ==> s[cur + j] == (#[trigger] s.subrange(cur, gend)[j]));
    assert(s.subrange(cur, cur + el) =~= ser_member(gps[wi])) by {
        assert(forall|j: int|
            0 <= j < el ==> s.subrange(cur, cur + el)[j] == s[cur + j] && (ser_member(gps[wi])
                + ra)[j] == ser_member(gps[wi])[j]);
    }
    assert(s[cur + el] == (ser_member(gps[wi]) + ra)[el]);
    assert(ra[0] == 125 || ra[0] == 44);
    assert(s[cur] == (ser_member(gps[wi]) + ra)[0]);
    assert(ser_member(gps[wi])[0] == 34);
}

/// The member the parser read inside an object tail is the witness
/// member, and the tail continues exactly after it.
proof fn lemma_obj_member_match(
    s: Seq<u8>,
    cur: int,
    gend: int,
    gps: Seq<(Seq<u8>, SpecValue)>,
    wi: int,
    k: Seq<u8>,
    v: SpecValue,
    end2: int,
)
    requires
        0 <= wi < gps.len(),
        all_wf_obj(gps, gps.len() as int),
        0 <= cur <= gend <= s.len(),
        s.subrange(cur, gend) == crate::canonical::obj_close(gps, wi),
        wf(v),
        cur < end2 <= s.len(),
        s.subrange(cur, end2) == ser_member((k, v)),
        v is Int ==> (end2 == s.len() || !(48 <= s[end2] <= 57)),
    ensures
        k == gps[wi].0,
        v == gps[wi].1,
        end2 < gend,
        s.subrange(end2, gend) == rest_after_obj(gps, wi + 1),
{
    lemma_obj_close_step(gps, wi);
    lemma_all_wf_obj_elem(gps, gps.len() as int, wi);
    let el = ser_member(gps[wi]).len() as int;
    let ra = rest_after_obj(gps, wi + 1);
    let tail = s.subrange(cur, s.len() as int);
    let r1 = s.subrange(end2, s.len() as int);
    let r2 = ra + s.subrange(gend, s.len() as int);
    assert(tail =~= ser_member((k, v)) + r1);
    assert(tail =~= (ser_member(gps[wi]) + ra) + s.subrange(gend, s.len() as int)) by {
        assert(forall|j: int|
            0 <= j < gend - cur ==> s[cur + j] == (#[trigger] s.subrange(cur, gend)[j]));
    }
    assert(tail =~= ser_member(gps[wi]) + r2);
    assert(ra[0] == 125 || ra[0] == 44);
    assert(r2[0] == ra[0]);
    assert(gps[wi] == (gps[wi].0, gps[wi].1));
    lemma_member_unique(k, v, gps[wi].0, gps[wi].1, r1, r2);
    assert(end2 - cur == el);
    assert(gend - end2 == ra.len());
    assert(s.subrange(end2, gend) =~= ra) by {
        assert(forall|j: int|
            0 <= j < ra.len() ==> s.subrange(end2, gend)[j] == s[end2 + j] && r1[j] == s[end2
                + j] && r2[j] == ra[j]);
    }
}

/// Reads one canonical value starting at `pos`.  On success the
/// consumed bytes are exactly the value's canonical text; a number's
/// text is read to its full extent.  It succeeds whenever a
/// whole-value token is there.
pub fn parse_value(s: &Vec<u8>, pos: usize) -> (r: Option<(JsonValue, usize)>)
    requires
        pos <= s@.len(),
    ensures
        r matches Some(p) ==> ({
            &&& pos < p.1 <= s@.len()
            &&& wf(p.0@)
            &&& s@.subrange(pos as int, p.1 as int) == ser(p.0@)
        }),
        r matches Some(p) ==> (p.0@ is Int ==> (p.1 == s@.len() || !(48 <= s@[p.1 as int]
            <= 57))),
        (exists|sv: SpecValue, end: int| value_token_at(s@, pos as int, end, sv)) ==> r is Some,
    decreases s@.len() - pos,
{
    let ghost ghas = exists|sv: SpecValue, end: int| value_token_at(s@, pos as int, end, sv);
    let ghost gw: (SpecValue, int) = if ghas {
        choose|sv: SpecValue, end: int| value_token_at(s@, pos as int, end, sv)
    } else {
        (SpecValue::Null, 0)
    };
    let ghost gsv = gw.0;
    let ghost gend = gw.1;
    proof {
        if ghas {
            assert(value_token_at(s@, pos as int, gend, gsv));
            lemma_ser_first_byte(gsv);
            assert(s@.subrange(pos as int, gend).len() == gend - pos);
            assert(forall|j: int|
                0 <= j < gend - pos ==> s@[pos + j] == (#[trigger] s@.subrange(
                    pos as int,
                    gend,
                )[j]));
            assert(s@[pos as int] == ser(gsv)[0]);
        }
    }
    if pos == s.len() {
        proof {
            if ghas {
                assert(false);
            }
        }
        return None;
    }
    let c = s[pos];
    if c == 110 {
        // null
        if s.len() - pos >= 4 && s[pos + 1] == 117 && s[pos + 2] == 108 && s[pos + 3] == 108 {
            proof {
                assert(s@.subrange(pos as int, (pos + 4) as int) =~= seq![
                    110u8,
                    117u8,
                    108u8,
                    108u8,
                ]);
            }
            Some((JsonValue::Null, pos + 4))
        } else {
            proof {
                if ghas {
                    match gsv {
                        SpecValue::Null => {
                            assert(gend == pos + 4);
                            assert(s@[pos + 1] == ser(gsv)[1] && s@[pos + 2] == ser(gsv)[2]
                                && s@[pos + 3] == ser(gsv)[3]);
                            assert(false);
                        },
                        _ => {
                            assert(false);
                        },
                    }
                }
            }
            None
        }
    } else if c == 116 {
        // true
        if s.len() - pos >= 4 && s[pos + 1] == 114 && s[pos + 2] == 117 && s[pos + 3] == 101 {
            proof {
                assert(s@.subrange(pos as int, (pos + 4) as int) =~= seq![
                    116u8,
                    114u8,
                    117u8,
                    101u8,
                ]);
            }
            Some((JsonValue::Bool(true), pos + 4))
        } else {
            proof {
                if ghas {
                    match gsv {
                        SpecValue::Bool(b) => {
                            assert(b);
                            assert(gend == pos + 4);
                            assert(s@[pos + 1] == ser(gsv)[1] && s@[pos + 2] == ser(gsv)[2]
                                && s@[pos + 3] == ser(gsv)[3]);
                            assert(false);
                        },
                        _ => {
                            assert(false);
                        },
                    }
                }
            }
            None
        }
    } else if c == 102 {
        // false
        if s.len() - pos >= 5 && s[pos + 1] == 97 && s[pos + 2] == 108 && s[pos + 3] == 115 && s[pos
            + 4] == 101 {
            proof {
                assert(s@.subrange(pos as int, (pos + 5) as int) =~= seq![
                    102u8,
                    97u8,
                    108u8,
                    115u8,
                    101u8,
                ]);
            }
            Some((JsonValue::Bool(false), pos + 5))
        } else {
            proof {
                if ghas {
                    match gsv {
                        SpecValue::Bool(b) => {
                            assert(!b);
                            assert(gend == pos + 5);
                            assert(s@[pos + 1] == ser(gsv)[1] && s@[pos + 2] == ser(gsv)[2]
                                && s@[pos + 3] == ser(gsv)[3] && s@[pos + 4] == ser(gsv)[4]);
                            assert(false);
                        },
                        _ => {
                            assert(false);
                        },
                    }
                }
            }
            None
        }
    } else if c == 34 {
        proof {
            if ghas {
                match gsv {
                    SpecValue::Str(content) => {
                        assert(string_token_at(s@, pos as int, gend, content));
                    },
                    _ => {
                        assert(false);
                    },
                }
            }
        }
        match parse_string(s, pos) {
            Some((content, end)) => Some((JsonValue::Str(content), end)),
            None => None,
        }
    } else if c == 45 || (48 <= c && c <= 57) {
        proof {
            if ghas {
                match gsv {
                    SpecValue::Int(nv) => {
                        assert(int_token_at(s@, pos as int, gend, nv));
                    },
                    _ => {
                        assert(false);
                    },
                }
            }
        }
        match parse_int(s, pos) {
            Some((i, end)) => Some((JsonValue::Int(i), end)),
            None => None,
        }
    } else if c == 91 {
        // array
        let ghost ges: Seq<SpecValue> = if ghas {
            gsv->Arr_0
        } else {
            Seq::empty()
        };
        proof {
            if ghas {
                match gsv {
                    SpecValue::Arr(es0) => {
                        assert(ges == es0);
                    },
                    _ => {
                        assert(false);
                    },
                }
                lemma_arr_text(ges);
                assert(s@.subrange(pos + 1, gend) =~= arr_close(ges, 0)) by {
                    assert((seq![91u8] + arr_close(ges, 0)).len() == 1 + arr_close(ges, 0).len());
                    assert(forall|j: int|
                        0 <= j < gend - pos - 1 ==> s@.subrange(pos + 1, gend)[j] == s@[pos + 1
                            + j] && (seq![91u8] + arr_close(ges, 0))[1 + j] == arr_close(
                            ges,
                            0,
                        )[j]);
                }
            }
        }
        if pos + 1 < s.len() && s[pos + 1] == 93 {
            let es: Vec<JsonValue> = Vec::new();
            let r = JsonValue::Arr(es);
            proof {
                assert(seq_to_spec(es, 0) =~= Seq::<SpecValue>::empty());
                assert(s@.subrange(pos as int, (pos + 2) as int) =~= seq![91u8, 93u8]);
                assert(s@.subrange(pos as int, (pos + 2) as int) == ser(r@));
            }
            return Some((r, pos + 2));
        }
        proof {
            if ghas && ges.len() == 0 {
                assert(arr_close(ges, 0) == seq![93u8]);
                assert(s@.subrange(pos + 1, gend).len() == gend - pos - 1);
                assert(gend == pos + 2);
                assert(s@[pos + 1] == s@.subrange(pos + 1, gend)[0]);
                assert(s@[pos + 1] == 93);
                assert(false);
            }
            if ghas {
                lemma_arr_elem_token(s@, pos + 1, gend, ges, 0);
            }
        }
        let mut es: Vec<JsonValue> = Vec::new();
        let ghost mut sv: Seq<SpecValue> = Seq::empty();
        let mut cur: usize = pos + 1;
        match parse_value(s, cur) {
            None => {
                proof {
                    if ghas {
                        assert(false);
                    }
                }
                return None;
            },
            Some((e0, end0)) => {
                proof {
                    sv = sv.push(e0@);
                    if ghas {
                        lemma_arr_elem_match(s@, pos + 1, gend, ges, 0, e0@, end0 as int);
                    }
                }
                es.push(e0);
                cur = end0;
            },
        }
        loop
            invariant
                pos < s@.len(),
                s@[pos as int] == 91,
                pos + 1 <= cur <= s@.len(),
                1 <= es@.len(),
                sv.len() == es@.len(),
                forall|j: int| 0 <= j < sv.len() ==> sv[j] == (#[trigger] es@[j])@,
                forall|j: int| 0 <= j < sv.len() ==> wf(#[trigger] sv[j]),
                s@.subrange(pos + 1, cur as int) == ser_arr(sv, sv.len() as int),
                ghas ==> value_token_at(s@, pos as int, gend, gsv) && gsv == SpecValue::Arr(ges)
                    && all_wf(ges, ges.len() as int) && 1 <= sv.len() <= ges.len() && cur < gend
                    && (forall|j: int| 0 <= j < sv.len() ==> sv[j] == ges[j]) && s@.subrange(
                    cur as int,
                    gend,
                ) == rest_after_arr(ges, sv.len() as int),
                ghas == exists|sv0: SpecValue, end: int| value_token_at(s@, pos as int, end, sv0),
            decreases s@.len() - cur,
        {
            proof {
                if ghas {
                    assert(s@.subrange(cur as int, gend).len() == gend - cur);
                    assert(s@[cur as int] == s@.subrange(cur as int, gend)[0]);
                }
            }
            if cur == s.len() {
                proof {
                    if ghas {
                        assert(false);
                    }
                }
                return None;
            }
            let t = s[cur];
            if t == 93 {
                let r = JsonValue::Arr(es);
                proof {
                    lemma_seq_to_spec(es, es@.len() as int);
                    assert(seq_to_spec(es, es@.len() as int) =~= sv);
                    lemma_all_wf_intro(sv, sv.len() as int);
                    assert(wf(r@));
                    assert(s@.subrange(pos as int, (cur + 1) as int) =~= seq![91u8] + ser_arr(
                        sv,
                        sv.len() as int,
                    ) + seq![93u8]);
                }
                return Some((r, cur + 1));
            }
            if t != 44 {
                proof {
                    if ghas {
                        assert(rest_after_arr(ges, sv.len() as int)[0] == 93 || rest_after_arr(
                            ges,
                            sv.len() as int,
                        )[0] == 44);
                        assert(false);
                    }
                }
                return None;
            }
            proof {
                if ghas {
                    if sv.len() == ges.len() {
                        assert(rest_after_arr(ges, sv.len() as int) == seq![93u8]);
                        assert(false);
                    }
                    assert(s@.subrange(cur + 1, gend) =~= arr_close(ges, sv.len() as int)) by {
                        assert(forall|j: int|
                            0 <= j < gend - cur - 1 ==> s@.subrange(cur + 1, gend)[j] == s@[cur + 1
                                + j] && s@.subrange(cur as int, gend)[1 + j] == s@[cur + 1 + j]
                                && (seq![44u8] + arr_close(ges, sv.len() as int))[1 + j]
                                == arr_close(ges, sv.len() as int)[j]);
                    }
                    lemma_arr_elem_token(s@, cur + 1, gend, ges, sv.len() as int);
                }
            }
            match parse_value(s, cur + 1) {
                None => {
                    proof {
                        if ghas {
                            assert(false);
                        }
                    }
                    return None;
                },
                Some((e, end)) => {
                    proof {
                        lemma_ser_arr_push(sv, e@, sv.len() as int);
                        assert(s@.subrange(pos + 1, end as int) =~= s@.subrange(
                            pos + 1,
                            cur as int,
                        ) + seq![44u8] + s@.subrange((cur + 1) as int, end as int));
                        if ghas {
                            lemma_arr_elem_match(
                                s@,
                                cur + 1,
                                gend,
                                ges,
                                sv.len() as int,
                                e@,
                                end as int,
                            );
                        }
                        sv = sv.push(e@);
                    }
                    es.push(e);
                    cur = end;
                },
            }
        }
    } else if c == 123 {
        // object
        let ghost gps: Seq<(Seq<u8>, SpecValue)> = if ghas {
            gsv->Obj_0
        } else {
            Seq::empty()
        };
        proof {
            if ghas {
                match gsv {
                    SpecValue::Obj(ps0) => {
                        assert(gps == ps0);
                    },
                    _ => {
                        assert(false);
                    },
                }
                lemma_obj_text(gps);
                assert(s@.subrange(pos + 1, gend) =~= crate::canonical::obj_close(gps, 0)) by {
                    assert((seq![123u8] + crate::canonical::obj_close(gps, 0)).len() == 1
                        + crate::canonical::obj_close(gps, 0).len());
                    assert(forall|j: int|
                        0 <= j < gend - pos - 1 ==> s@.subrange(pos + 1, gend)[j] == s@[pos + 1
                            + j] && (seq![123u8] + crate::canonical::obj_close(gps, 0))[1 + j]
                            == crate::canonical::obj_close(gps, 0)[j]);
                }
            }
        }
        if pos + 1 < s.len() && s[pos + 1] == 125 {
            let ps: Vec<(Vec<u8>, JsonValue)> = Vec::new();
            let r = JsonValue::Obj(ps);
            proof {
                assert(obj_to_spec(ps, 0) =~= Seq::<(Seq<u8>, SpecValue)>::empty());
                assert(s@.subrange(pos as int, (pos + 2) as int) =~= seq![123u8, 125u8]);
                assert(s@.subrange(pos as int, (pos + 2) as int) == ser(r@));
            }
            return Some((r, pos + 2));
        }
        proof {
            if ghas && gps.len() == 0 {
                assert(crate::canonical::obj_close(gps, 0) == seq![125u8]);
                assert(s@.subrange(pos + 1, gend).len() == gend - pos - 1);
                assert(gend == pos + 2);
                assert(s@[pos + 1] == s@.subrange(pos + 1, gend)[0]);
                assert(s@[pos + 1] == 125);
                assert(false);
            }
            if ghas {
                lemma_obj_member_token(s@, pos + 1, gend, gps, 0);
            }
        }
        let mut ps: Vec<(Vec<u8>, JsonValue)> = Vec::new();
        let ghost mut sp: Seq<(Seq<u8>, SpecValue)> = Seq::empty();
        let mut cur: usize = pos + 1;
        if cur == s.len() || s[cur] != 34 {
            proof {
                if ghas {
                    assert(false);
                }
            }
            return None;
        }
        match parse_member(s, cur) {
            None => {
                proof {
                    if ghas {
                        assert(false);
                    }
                }
                return None;
            },
            Some(((k0, v0), end0)) => {
                proof {
                    sp = sp.push((k0@, v0@));
                    if ghas {
                        lemma_obj_member_match(s@, pos + 1, gend, gps, 0, k0@, v0@, end0 as int);
                    }
                }
                ps.push((k0, v0));
                cur = end0;
            },
        }
        loop
            invariant
                pos < s@.len(),
                s@[pos as int] == 123,
                pos + 1 <= cur <= s@.len(),
                1 <= ps@.len(),
                sp.len() == ps@.len(),
                forall|j: int|
                    0 <= j < sp.len() ==> sp[j] == ((#[trigger] ps@[j]).0@, ps@[j].1@),
                forall|j: int| 0 <= j < sp.len() ==> wf((#[trigger] sp[j]).1),
                s@.subrange(pos + 1, cur as int) == ser_obj(sp, sp.len() as int),
                ghas ==> value_token_at(s@, pos as int, gend, gsv) && gsv == SpecValue::Obj(gps)
                    && all_wf_obj(gps, gps.len() as int) && 1 <= sp.len() <= gps.len() && cur
                    < gend && (forall|j: int| 0 <= j < sp.len() ==> sp[j] == gps[j])
                    && s@.subrange(cur as int, gend) == rest_after_obj(gps, sp.len() as int),
                ghas == exists|sv0: SpecValue, end: int| value_token_at(s@, pos as int, end, sv0),
            decreases s@.len() - cur,
        {
            proof {
                if ghas {
                    assert(s@.subrange(cur as int, gend).len() == gend - cur);
                    assert(s@[cur as int] == s@.subrange(cur as int, gend)[0]);
                }
            }
            if cur == s.len() {
                proof {
                    if ghas {
                        assert(false);
                    }
                }
                return None;
            }
            let t = s[cur];
            if t == 125 {
                let r = JsonValue::Obj(ps);
                proof {
                    lemma_obj_to_spec(ps, ps@.len() as int);
                    assert(obj_to_spec(ps, ps@.len() as int) =~= sp);
                    lemma_all_wf_obj_intro(sp, sp.len() as int);
                    assert(wf(r@));
                    assert(s@.subrange(pos as int, (cur + 1) as int) =~= seq![123u8] + ser_obj(
                        sp,
                        sp.len() as int,
                    ) + seq![125u8]);
                }
                return Some((r, cur + 1));
            }
            if t != 44 {
                proof {
                    if ghas {
                        assert(rest_after_obj(gps, sp.len() as int)[0] == 125 || rest_after_obj(
                            gps,
                            sp.len() as int,
                        )[0] == 44);
                        assert(false);
                    }
                }
                return None;
            }
            proof {
                if ghas {
                    if sp.len() == gps.len() {
                        assert(rest_after_obj(gps, sp.len() as int) == seq![125u8]);
                        assert(false);
                    }
                    assert(s@.subrange(cur + 1, gend) =~= crate::canonical::obj_close(
                        gps,
                        sp.len() as int,
                    )) by {
                        assert(forall|j: int|
                            0 <= j < gend - cur - 1 ==> s@.subrange(cur + 1, gend)[j] == s@[cur + 1
                                + j] && s@.subrange(cur as int, gend)[1 + j] == s@[cur + 1 + j]
                                && (seq![44u8] + crate::canonical::obj_close(
                                gps,
                                sp.len() as int,
                            ))[1 + j] == crate::canonical::obj_close(gps, sp.len() as int)[j]);
                    }
                    lemma_obj_member_token(s@, cur + 1, gend, gps, sp.len() as int);
                }
            }
            if cur + 1 == s.len() || s[cur + 1] != 34 {
                proof {
                    if ghas {
                        assert(false);
                    }
                }
                return None;
            }
            match parse_member(s, cur + 1) {
                None => {
                    proof {
                        if ghas {
                            assert(false);
                        }
                    }
                    return None;
                },
                Some(((k, v), end)) => {
                    proof {
                        lemma_ser_obj_push(sp, (k@, v@), sp.len() as int);
                        assert(s@.subrange(pos + 1, end as int) =~= s@.subrange(
                            pos + 1,
                            cur as int,
                        ) + seq![44u8] + s@.subrange((cur + 1) as int, end as int));
                        if ghas {
                            lemma_obj_member_match(
                                s@,
                                cur + 1,
                                gend,
                                gps,
                                sp.len() as int,
                                k@,
                                v@,
                                end as int,
                            );
                        }
                        sp = sp.push((k@, v@));
                    }
                    ps.push((k, v));
                    cur = end;
                },
            }
        }
    } else {
        proof {
            if ghas {
                assert(false);
            }
        }
        None
    }
}

/// Reads one object member (quoted key, colon, value) starting at the
/// opening quote of the key.  It succeeds whenever a whole member
/// token is there.
#[verifier::rlimit(60)]
fn parse_member(s: &Vec<u8>, pos: usize) -> (r: Option<((Vec<u8>, JsonValue), usize)>)
    requires
        pos < s@.len(),
        s@[pos as int] == 34,
    ensures
        r matches Some(p) ==> ({
            &&& pos < p.1 <= s@.len()
            &&& wf(p.0.1@)
            &&& s@.subrange(pos as int, p.1 as int) == ser_member((p.0.0@, p.0.1@))
        }),
        r matches Some(p) ==> (p.0.1@ is Int ==> (p.1 == s@.len() || !(48 <= s@[p.1 as int]
            <= 57))),
        (exists|k: Seq<u8>, v: SpecValue, end: int| member_token_at(s@, pos as int, end, k, v))
            ==> r is Some,
    decreases s@.len() - pos, 1int,
{
    let ghost ghas = exists|k: Seq<u8>, v: SpecValue, end: int|
        member_token_at(s@, pos as int, end, k, v);
    let ghost gw: (Seq<u8>, SpecValue, int) = if ghas {
        choose|k: Seq<u8>, v: SpecValue, end: int| member_token_at(s@, pos as int, end, k, v)
    } else {
        (Seq::empty(), SpecValue::Null, 0)
    };
    let ghost gk = gw.0;
    let ghost gv = gw.1;
    let ghost gend = gw.2;
    proof {
        if ghas {
            assert(member_token_at(s@, pos as int, gend, gk, gv));
            assert(s@.subrange(pos as int, gend).len() == gend - pos);
            assert(forall|j: int|
                0 <= j < gend - pos ==> s@[pos + j] == (#[trigger] s@.subrange(
                    pos as int,
                    gend,
                )[j]));
            let kend = pos + 2 + esc(gk).len();
            assert(ser_member((gk, gv)) =~= (seq![34u8] + esc(gk) + seq![34u8]) + (seq![58u8]
                + ser(gv)));
            assert(s@.subrange(pos as int, kend) =~= seq![34u8] + esc(gk) + seq![34u8]) by {
                assert(forall|j: int|
                    0 <= j < kend - pos ==> s@.subrange(pos as int, kend)[j] == s@[pos + j]
                        && ser_member((gk, gv))[j] == ((seq![34u8] + esc(gk) + seq![34u8]) + (seq![
                        58u8,
                    ] + ser(gv)))[j] && ((seq![34u8] + esc(gk) + seq![34u8]) + (seq![58u8] + ser(
                        gv,
                    )))[j] == (seq![34u8] + esc(gk) + seq![34u8])[j]);
            }
            assert(string_token_at(s@, pos as int, kend, gk));
        }
    }
    match parse_string(s, pos) {
        None => {
            proof {
                if ghas {
                    assert(false);
                }
            }
            None
        },
        Some((key, kend)) => {
            proof {
                if ghas {
                    let aa = s@.subrange(kend as int, s@.len() as int);
                    let bb = seq![58u8] + (ser(gv) + s@.subrange(gend, s@.len() as int));
                    assert(s@.subrange(pos as int, s@.len() as int) =~= s@.subrange(
                        pos as int,
                        kend as int,
                    ) + aa);
                    assert((seq![34u8] + esc(key@) + seq![34u8]) + aa =~= seq![34u8] + (esc(key@)
                        + seq![34u8] + aa));
                    assert(s@.subrange(pos as int, s@.len() as int) == seq![34u8] + (esc(key@)
                        + seq![34u8] + aa));
                    assert(s@.subrange(pos as int, s@.len() as int) =~= s@.subrange(
                        pos as int,
                        gend,
                    ) + s@.subrange(gend, s@.len() as int));
                    assert(ser_member((gk, gv)) + s@.subrange(gend, s@.len() as int) =~= seq![34u8]
                        + (esc(gk) + seq![34u8] + bb));
                    assert(s@.subrange(pos as int, s@.len() as int) == seq![34u8] + (esc(gk)
                        + seq![34u8] + bb));
                    crate::canonical::lemma_concat_cancel_left(
                        seq![34u8],
                        esc(key@) + seq![34u8] + aa,
                        esc(gk) + seq![34u8] + bb,
                    );
                    crate::canonical::lemma_esc_unique(key@, gk, aa, bb);
                    assert(aa.len() == bb.len());
                    assert(aa[0] == 58);
                    assert(kend < s@.len());
                    assert(s@[kend as int] == 58);
                }
            }
            if kend == s.len() || s[kend] != 58 {
                proof {
                    if ghas {
                        assert(false);
                    }
                }
                return None;
            }
            proof {
                if ghas {
                    let aa = s@.subrange(kend as int, s@.len() as int);
                    let bb = seq![58u8] + (ser(gv) + s@.subrange(gend, s@.len() as int));
                    assert(aa == bb);
                    assert(gend == kend + 1 + ser(gv).len());
                    assert(s@.subrange(kend + 1, gend) =~= ser(gv)) by {
                        assert(forall|j: int|
                            0 <= j < s@.len() - kend ==> s@[kend + j] == (#[trigger] aa[j]));
                        assert(forall|j: int|
                            0 <= j < ser(gv).len() ==> bb[1 + j] == (ser(gv)
                                + s@.subrange(gend, s@.len() as int))[j]);
                        assert(forall|j: int|
                            0 <= j < ser(gv).len() ==> (ser(gv) + s@.subrange(
                                gend,
                                s@.len() as int,
                            ))[j] == ser(gv)[j]);
                        assert(forall|j: int|
                            0 <= j < gend - kend - 1 ==> (#[trigger] s@.subrange(
                                kend + 1,
                                gend,
                            )[j]) == s@[kend + 1 + j]);
                    }
                    assert(value_token_at(s@, kend + 1, gend, gv));
                }
            }
            match parse_value(s, kend + 1) {
                None => {
                    proof {
                        if ghas {
                            assert(false);
                        }
                    }
                    None
                },
                Some((v, end)) => {
                    proof {
                        assert(s@.subrange(pos as int, end as int) =~= s@.subrange(
                            pos as int,
                            kend as int,
                        ) + seq![58u8] + s@.subrange((kend + 1) as int, end as int));
                        assert(s@.subrange(pos as int, end as int) =~= ser_member((key@, v@)));
                    }
                    Some(((key, v), end))
                },
            }
        },
    }
}

} // verus!
