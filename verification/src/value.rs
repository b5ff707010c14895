//! The structured value tree: a JSON-shaped intermediate representation
//! between raw frame bytes and typed event-bus messages.
use vstd::prelude::*;

verus! {

/// Mathematical model of a structured value: a finite tree over
/// sequences.  Object member order is kept as written; numbers are
/// 64-bit signed integers; strings are byte strings (UTF-8 passes
/// through untouched).
#[verifier::ext_equal]
pub enum SpecValue {
    Null,
    Bool(bool),
    Int(int),
    Str(Seq<u8>),
    Arr(Seq<SpecValue>),
    Obj(Seq<(Seq<u8>, SpecValue)>),
}

/// A structured value as held at run time.  Its view is a `SpecValue`.
///
/// Strings and object keys are byte strings: UTF-8 text passes
/// through untouched, but the codec does not itself validate UTF-8,
/// so a caller who puts non-UTF-8 bytes in a string gets them back
/// byte-for-byte rather than an error.  Numbers are 64-bit signed
/// integers: literals outside that range -- including the upper half
/// of the unsigned 64-bit range -- are syntax errors on decode.
#[derive(Debug)]
pub enum JsonValue {
    Null,
    Bool(bool),
    Int(i64),
    Str(Vec<u8>),
    Arr(Vec<JsonValue>),
    Obj(Vec<(Vec<u8>, JsonValue)>),
}

pub open spec fn to_spec(v: JsonValue) -> SpecValue
    decreases v,
{
    match v {
        JsonValue::Null => SpecValue::Null,
        JsonValue::Bool(b) => SpecValue::Bool(b),
        JsonValue::Int(i) => SpecValue::Int(i as int),
        JsonValue::Str(s) => SpecValue::Str(s@),
        JsonValue::Arr(es) => SpecValue::Arr(seq_to_spec(es, es@.len() as int)),
        JsonValue::Obj(ps) => SpecValue::Obj(obj_to_spec(ps, ps@.len() as int)),
    }
}

/// The views of the first `k` elements of `es`.
pub open spec fn seq_to_spec(es: Vec<JsonValue>, k: int) -> Seq<SpecValue>
    decreases es, k,
{
    if k <= 0 || k > es@.len() {
        Seq::empty()
    } else {
        seq_to_spec(es, k - 1).push(to_spec(es@[k - 1]))
    }
}

/// The views of the first `k` members of `ps`.
pub open spec fn obj_to_spec(ps: Vec<(Vec<u8>, JsonValue)>, k: int) -> Seq<(Seq<u8>, SpecValue)>
    decreases ps, k,
{
    if k <= 0 || k > ps@.len() {
        Seq::empty()
    } else {
        obj_to_spec(ps, k - 1).push((ps@[k - 1].0@, to_spec(ps@[k - 1].1)))
    }
}

impl View for JsonValue {
    type V = SpecValue;

    open spec fn view(&self) -> SpecValue {
        to_spec(*self)
    }
}

pub proof fn lemma_seq_to_spec(es: Vec<JsonValue>, k: int)
    requires
        0 <= k <= es@.len(),
    ensures
        seq_to_spec(es, k).len() == k,
        forall|i: int| 0 <= i < k ==> seq_to_spec(es, k)[i] == to_spec(es@[i]),
    decreases k,
{
    if k > 0 {
        lemma_seq_to_spec(es, k - 1);
    }
}

pub proof fn lemma_obj_to_spec(ps: Vec<(Vec<u8>, JsonValue)>, k: int)
    requires
        0 <= k <= ps@.len(),
    ensures
        obj_to_spec(ps, k).len() == k,
        forall|i: int|
            0 <= i < k ==> obj_to_spec(ps, k)[i] == (ps@[i].0@, to_spec(ps@[i].1)),
    decreases k,
{
    if k > 0 {
        lemma_obj_to_spec(ps, k - 1);
    }
}

/// Size of the run-time tree, used as a termination measure for
/// executable recursion over values.
pub open spec fn sz(v: JsonValue) -> nat
    decreases v,
{
    match v {
        JsonValue::Null => 1,
        JsonValue::Bool(_) => 1,
        JsonValue::Int(_) => 1,
        JsonValue::Str(_) => 1,
        JsonValue::Arr(es) => 1 + sz_seq(es, es@.len() as int),
        JsonValue::Obj(ps) => 1 + sz_obj(ps, ps@.len() as int),
    }
}

pub open spec fn sz_seq(es: Vec<JsonValue>, k: int) -> nat
    decreases es, k,
{
    if k <= 0 || k > es@.len() {
        0
    } else {
        sz_seq(es, k - 1) + sz(es@[k - 1])
    }
}

pub open spec fn sz_obj(ps: Vec<(Vec<u8>, JsonValue)>, k: int) -> nat
    decreases ps, k,
{
    if k <= 0 || k > ps@.len() {
        0
    } else {
        sz_obj(ps, k - 1) + sz(ps@[k - 1].1)
    }
}

pub proof fn lemma_sz_seq_elem(es: Vec<JsonValue>, k: int, i: int)
    requires
        0 <= i < k <= es@.len(),
    ensures
        sz(es@[i]) <= sz_seq(es, k),
    decreases k,
{
    if i < k - 1 {
        lemma_sz_seq_elem(es, k - 1, i);
    }
}

pub proof fn lemma_sz_obj_elem(ps: Vec<(Vec<u8>, JsonValue)>, k: int, i: int)
    requires
        0 <= i < k <= ps@.len(),
    ensures
        sz(ps@[i].1) <= sz_obj(ps, k),
    decreases k,
{
    if i < k - 1 {
        lemma_sz_obj_elem(ps, k - 1, i);
    }
}

/// A value the run-time tree can hold: every string is a byte string
/// (strings are escaped on the wire, so all of them are
/// representable), and every number fits a 64-bit signed integer.
pub open spec fn wf(v: SpecValue) -> bool
    decreases v,
{
    match v {
        SpecValue::Null => true,
        SpecValue::Bool(_) => true,
        SpecValue::Int(i) => i64::MIN <= i <= i64::MAX,
        SpecValue::Str(_) => true,
        SpecValue::Arr(es) => all_wf(es, es.len() as int),
        SpecValue::Obj(ps) => all_wf_obj(ps, ps.len() as int),
    }
}

/// The first `k` elements are all representable.
pub open spec fn all_wf(es: Seq<SpecValue>, k: int) -> bool
    decreases es, k,
{
    if k <= 0 || k > es.len() {
        true
    } else {
        all_wf(es, k - 1) && wf(es[k - 1])
    }
}

/// The first `k` members all have representable values.
pub open spec fn all_wf_obj(ps: Seq<(Seq<u8>, SpecValue)>, k: int) -> bool
    decreases ps, k,
{
    if k <= 0 || k > ps.len() {
        true
    } else {
        all_wf_obj(ps, k - 1) && wf(ps[k - 1].1)
    }
}

pub proof fn lemma_all_wf_elem(es: Seq<SpecValue>, k: int, i: int)
    requires
        0 <= i < k <= es.len(),
    ensures
        all_wf(es, k) ==> wf(es[i]),
    decreases k,
{
    if i < k - 1 {
        lemma_all_wf_elem(es, k - 1, i);
    }
}

pub proof fn lemma_all_wf_intro(es: Seq<SpecValue>, k: int)
    requires
        k <= es.len(),
        forall|j: int| 0 <= j < k ==> wf(#[trigger] es[j]),
    ensures
        all_wf(es, k),
    decreases k,
{
    if k > 0 {
        lemma_all_wf_intro(es, k - 1);
    }
}

pub proof fn lemma_all_wf_obj_elem(ps: Seq<(Seq<u8>, SpecValue)>, k: int, i: int)
    requires
        0 <= i < k <= ps.len(),
    ensures
        all_wf_obj(ps, k) ==> wf(ps[i].1),
    decreases k,
{
    if i < k - 1 {
        lemma_all_wf_obj_elem(ps, k - 1, i);
    }
}

pub proof fn lemma_all_wf_obj_intro(ps: Seq<(Seq<u8>, SpecValue)>, k: int)
    requires
        k <= ps.len(),
        forall|j: int| 0 <= j < k ==> wf((#[trigger] ps[j]).1),
    ensures
        all_wf_obj(ps, k),
    decreases k,
{
    if k > 0 {
        lemma_all_wf_obj_intro(ps, k - 1);
    }
}

/// First value bound to `key`, if any.  Duplicate keys are accepted
/// on decode and the first binding wins; the codec itself never
/// produces an object with a repeated key, so the choice only shows
/// on foreign input.
pub open spec fn obj_get(ps: Seq<(Seq<u8>, SpecValue)>, key: Seq<u8>) -> Option<SpecValue>
    decreases ps.len(),
{
    if ps.len() == 0 {
        Option::None
    } else if ps[0].0 == key {
        Option::Some(ps[0].1)
    } else {
        obj_get(ps.drop_first(), key)
    }
}

impl Clone for JsonValue {
    /// A clone has the same view as the original.
    fn clone(&self) -> (r: Self)
        ensures
            r@ == self@,
        decreases sz(*self),
    {
        match self {
            JsonValue::Null => JsonValue::Null,
            JsonValue::Bool(b) => JsonValue::Bool(*b),
            JsonValue::Int(i) => JsonValue::Int(*i),
            JsonValue::Str(s) => {
                let s2 = s.clone();
                proof {
                    assert(s2@ =~= s@);
                }
                JsonValue::Str(s2)
            },
            JsonValue::Arr(es) => {
                let mut es2: Vec<JsonValue> = Vec::new();
                let mut i: usize = 0;
                while i < es.len()
                    invariant
                        i <= es.len(),
                        *self == JsonValue::Arr(*es),
                        es2@.len() == i,
                        forall|j: int| 0 <= j < i ==> to_spec(#[trigger] es2@[j]) == to_spec(es@[j]),
                    decreases es.len() - i,
                {
                    proof {
                        lemma_sz_seq_elem(*es, es@.len() as int, i as int);
                    }
                    let e2 = es[i].clone();
                    es2.push(e2);
                    i = i + 1;
                }
                let r = JsonValue::Arr(es2);
                proof {
                    lemma_seq_to_spec(es2, es2@.len() as int);
                    lemma_seq_to_spec(*es, es@.len() as int);
                    assert(seq_to_spec(es2, es2@.len() as int) =~= seq_to_spec(
                        *es,
                        es@.len() as int,
                    ));
                }
                r
            },
            JsonValue::Obj(ps) => {
                let mut ps2: Vec<(Vec<u8>, JsonValue)> = Vec::new();
                let mut i: usize = 0;
                while i < ps.len()
                    invariant
                        i <= ps.len(),
                        *self == JsonValue::Obj(*ps),
                        ps2@.len() == i,
                        forall|j: int|
                            0 <= j < i ==> (#[trigger] ps2@[j]).0@ == ps@[j].0@ && to_spec(
                                ps2@[j].1,
                            ) == to_spec(ps@[j].1),
                    decreases ps.len() - i,
                {
                    proof {
                        lemma_sz_obj_elem(*ps, ps@.len() as int, i as int);
                    }
                    let k2 = ps[i].0.clone();
                    let v2 = ps[i].1.clone();
                    proof {
                        assert(k2@ =~= ps@[i as int].0@);
                    }
                    ps2.push((k2, v2));
                    i = i + 1;
                }
                let r = JsonValue::Obj(ps2);
                proof {
                    lemma_obj_to_spec(ps2, ps2@.len() as int);
                    lemma_obj_to_spec(*ps, ps@.len() as int);
                    assert(obj_to_spec(ps2, ps2@.len() as int) =~= obj_to_spec(
                        *ps,
                        ps@.len() as int,
                    ));
                }
                r
            },
        }
    }
}

} // verus!
