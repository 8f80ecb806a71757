//! The forward bridge: lowering typed data into a dynamic value tree.
//!
//! [`enc`] is the specification: a total function from a typed tree to
//! the one canonical `Value` tree that represents it.  [`to_value`] is
//! the executable bridge, proved to compute exactly [`enc`].
//!
//! A `Value` can also act as a source itself; driving it through the
//! sink normalizes it ([`norm_enc`], executable as [`Value::serialize`]):
//! nonnegative integers land in the unsigned bucket and an extension
//! datum is represented as a two-element sequence of tag and bytes, so
//! that the result stays protocol-compatible.

use vstd::prelude::*;
use crate::error::Error;
use crate::typed::SpecTyped;
use crate::typed::SpecVariantValue;
use crate::typed::Typed;
use crate::typed::VariantValue;
use crate::typed::typed_dview_list;
use crate::typed::typed_dview_pairs;
use crate::value::SpecValue;
use crate::value::Value;
use crate::value::dview_list;
use crate::value::dview_pairs;

verus! {

broadcast use crate::value::lemma_dview_list, crate::value::lemma_dview_pairs,
    crate::typed::lemma_typed_dview_list, crate::typed::lemma_typed_dview_pairs;

/// An integer, bucketed by sign: nonnegative values are always
/// represented unsigned, only negatives use the signed variant.
pub open spec fn bucket_i64(n: i64) -> SpecValue {
    if n < 0 {
        SpecValue::I64(n)
    } else {
        SpecValue::U64(n as u64)
    }
}

/// The tag of an extension datum, bucketed by sign like any integer.
pub open spec fn bucket_i8(n: i8) -> SpecValue {
    if n < 0 {
        SpecValue::I64(n as i64)
    } else {
        SpecValue::U64(n as u64)
    }
}

/// What driving a `Value` through the sink produces: the same tree with
/// every integer normalized into its sign bucket and every extension
/// datum represented as a two-element sequence of tag and bytes.
pub open spec fn norm_enc(v: SpecValue) -> SpecValue
    decreases v, 1int,
{
    match v {
        SpecValue::Nil => SpecValue::Nil,
        SpecValue::Boolean(b) => SpecValue::Boolean(b),
        SpecValue::I64(n) => bucket_i64(n),
        SpecValue::U64(n) => SpecValue::U64(n),
        SpecValue::F32(bits) => SpecValue::F32(bits),
        SpecValue::F64(bits) => SpecValue::F64(bits),
        SpecValue::Str(s) => SpecValue::Str(s),
        SpecValue::Bin(b) => SpecValue::Bin(b),
        SpecValue::Array(elems) => SpecValue::Array(norm_enc_list(elems)),
        SpecValue::Mapping(pairs) => SpecValue::Mapping(norm_enc_pairs(pairs)),
        SpecValue::Ext(tag, data) => SpecValue::Array(seq![bucket_i8(tag), SpecValue::Bin(data)]),
    }
}

/// [`norm_enc`] applied to every element of a sequence.
pub open spec fn norm_enc_list(elems: Seq<SpecValue>) -> Seq<SpecValue>
    decreases elems, 0int,
{
    if elems.len() == 0 {
        Seq::empty()
    } else {
        seq![norm_enc(elems[0])] + norm_enc_list(elems.subrange(1, elems.len() as int))
    }
}

/// [`norm_enc`] applied to both components of every pair.
pub open spec fn norm_enc_pairs(pairs: Seq<(SpecValue, SpecValue)>) -> Seq<(SpecValue, SpecValue)>
    decreases pairs, 0int,
{
    if pairs.len() == 0 {
        Seq::empty()
    } else {
        proof {
            assert(decreases_to!(pairs => pairs[0]));
        }
        seq![(norm_enc(pairs[0].0), norm_enc(pairs[0].1))] + norm_enc_pairs(pairs.subrange(1, pairs.len() as int))
    }
}

/// How [`norm_enc_list`] acts on each index.
pub broadcast proof fn lemma_norm_enc_list(elems: Seq<SpecValue>)
    ensures
        (#[trigger] norm_enc_list(elems)).len() == elems.len(),
        forall|i: int| 0 <= i < elems.len() ==> norm_enc_list(elems)[i] == norm_enc(elems[i]),
    decreases elems.len(),
{
    if elems.len() > 0 {
        lemma_norm_enc_list(elems.subrange(1, elems.len() as int));
    }
}

/// How [`norm_enc_pairs`] acts on each index.
pub broadcast proof fn lemma_norm_enc_pairs(pairs: Seq<(SpecValue, SpecValue)>)
    ensures
        (#[trigger] norm_enc_pairs(pairs)).len() == pairs.len(),
        forall|i: int| 0 <= i < pairs.len() ==> norm_enc_pairs(pairs)[i] == (norm_enc(pairs[i].0), norm_enc(pairs[i].1)),
    decreases pairs.len(),
{
    if pairs.len() > 0 {
        lemma_norm_enc_pairs(pairs.subrange(1, pairs.len() as int));
    }
}

/// The specification of the forward bridge: the canonical `Value` tree
/// representing a typed tree.
///
/// Unit and absent options become `Nil`; integers land in their sign
/// bucket; a character becomes a one-character text; sequences, tuples
/// and records become arrays of their values in order; a newtype and a
/// present option are transparent; an enumeration value becomes an array
/// holding the variant index and, unless the variant is payload-free,
/// one array of its payload values.
pub open spec fn enc(t: SpecTyped) -> SpecValue
    decreases t, 1int,
{
    match t {
        SpecTyped::Unit => SpecValue::Nil,
        SpecTyped::Bool(b) => SpecValue::Boolean(b),
        SpecTyped::UInt(n) => SpecValue::U64(n),
        SpecTyped::SInt(n) => bucket_i64(n),
        SpecTyped::F32(bits) => SpecValue::F32(bits),
        SpecTyped::F64(bits) => SpecValue::F64(bits),
        SpecTyped::Char(c) => SpecValue::Str(seq![c]),
        SpecTyped::Str(s) => SpecValue::Str(s),
        SpecTyped::Bytes(b) => SpecValue::Bin(b),
        SpecTyped::Opt(o) => match o {
            Option::None => SpecValue::Nil,
            Option::Some(inner) => enc(*inner),
        },
        SpecTyped::List(ts) => SpecValue::Array(enc_list(ts)),
        SpecTyped::Tuple(ts) => SpecValue::Array(enc_list(ts)),
        SpecTyped::Mapping(ps) => SpecValue::Mapping(enc_pairs(ps)),
        SpecTyped::Newtype(inner) => enc(*inner),
        SpecTyped::Record(ts) => SpecValue::Array(enc_list(ts)),
        SpecTyped::Variant(id, data) => match data {
            SpecVariantValue::Unit => SpecValue::Array(seq![SpecValue::U64(id as u64)]),
            SpecVariantValue::Newtype(inner) => SpecValue::Array(
                seq![SpecValue::U64(id as u64), SpecValue::Array(seq![enc(*inner)])],
            ),
            SpecVariantValue::Tuple(ts) => SpecValue::Array(
                seq![SpecValue::U64(id as u64), SpecValue::Array(enc_list(ts))],
            ),
            SpecVariantValue::Record(ts) => SpecValue::Array(
                seq![SpecValue::U64(id as u64), SpecValue::Array(enc_list(ts))],
            ),
        },
        SpecTyped::Dynamic(w) => norm_enc(w),
    }
}

/// [`enc`] applied to every element of a sequence.
pub open spec fn enc_list(ts: Seq<SpecTyped>) -> Seq<SpecValue>
    decreases ts, 0int,
{
    if ts.len() == 0 {
        Seq::empty()
    } else {
        seq![enc(ts[0])] + enc_list(ts.subrange(1, ts.len() as int))
    }
}

/// [`enc`] applied to both components of every pair.
pub open spec fn enc_pairs(ps: Seq<(SpecTyped, SpecTyped)>) -> Seq<(SpecValue, SpecValue)>
    decreases ps, 0int,
{
    if ps.len() == 0 {
        Seq::empty()
    } else {
        proof {
            assert(decreases_to!(ps => ps[0]));
        }
        seq![(enc(ps[0].0), enc(ps[0].1))] + enc_pairs(ps.subrange(1, ps.len() as int))
    }
}

/// How [`enc_list`] acts on each index.
pub broadcast proof fn lemma_enc_list(ts: Seq<SpecTyped>)
    ensures
        (#[trigger] enc_list(ts)).len() == ts.len(),
        forall|i: int| 0 <= i < ts.len() ==> enc_list(ts)[i] == enc(ts[i]),
    decreases ts.len(),
{
    if ts.len() > 0 {
        lemma_enc_list(ts.subrange(1, ts.len() as int));
    }
}

/// How [`enc_pairs`] acts on each index.
pub broadcast proof fn lemma_enc_pairs(ps: Seq<(SpecTyped, SpecTyped)>)
    ensures
        (#[trigger] enc_pairs(ps)).len() == ps.len(),
        forall|i: int| 0 <= i < ps.len() ==> enc_pairs(ps)[i] == (enc(ps[i].0), enc(ps[i].1)),
    decreases ps.len(),
{
    if ps.len() > 0 {
        lemma_enc_pairs(ps.subrange(1, ps.len() as int));
    }
}

impl Value {
    /// Drives this value through the sink, producing its normalized,
    /// protocol-compatible form: [`norm_enc`] of this tree.  No failure
    /// originates here; every value is representable.
    pub fn serialize(self) -> (out: Value)
        ensures
            out@ == norm_enc(self@),
        decreases self, 1int,
    {
        match self {
            Value::Nil => Value::Nil,
            Value::Boolean(b) => Value::Boolean(b),
            Value::I64(n) => {
                if n < 0 {
                    Value::I64(n)
                } else {
                    Value::U64(n as u64)
                }
            },
            Value::U64(n) => Value::U64(n),
            Value::F32(bits) => Value::F32(bits),
            Value::F64(bits) => Value::F64(bits),
            Value::Str(s) => Value::Str(s),
            Value::Bin(b) => Value::Bin(b),
            Value::Array(elems) => {
                proof {
                    assert(decreases_to!(self => elems));
                }
                Value::Array(serialize_vec(elems))
            },
            Value::Mapping(pairs) => {
                proof {
                    assert(decreases_to!(self => pairs));
                }
                Value::Mapping(serialize_pairs_vec(pairs))
            },
            Value::Ext(tag, data) => {
                let mut out: Vec<Value> = Vec::new();
                if tag < 0 {
                    out.push(Value::I64(tag as i64));
                } else {
                    out.push(Value::U64(tag as u64));
                }
                out.push(Value::Bin(data));
                proof {
                    assert(dview_list(out@) =~= seq![bucket_i8(tag), SpecValue::Bin(data@)]);
                }
                Value::Array(out)
            },
        }
    }
}

/// [`Value::serialize`] applied to every element of a vector.
#[verifier::loop_isolation(false)]
fn serialize_vec(elems: Vec<Value>) -> (out: Vec<Value>)
    ensures
        dview_list(out@) == norm_enc_list(dview_list(elems@)),
    decreases elems, 0int,
{
    broadcast use lemma_norm_enc_list;

    let ghost gelems = elems;
    let mut rest = elems;
    let mut out: Vec<Value> = Vec::new();
    while rest.len() > 0
        invariant
            out@.len() + rest@.len() == gelems@.len(),
            rest@ == gelems@.subrange(out@.len() as int, gelems@.len() as int),
            forall|i: int| 0 <= i < out@.len() ==> out@[i].dview() == norm_enc(gelems@[i].dview()),
        decreases rest@.len(),
    {
        let ghost k = out@.len() as int;
        let e = rest.remove(0);
        proof {
            assert(e == gelems@[k]);
            assert(decreases_to!(gelems => gelems@));
            assert(decreases_to!(gelems@ => gelems@[k]));
            assert(rest@ =~= gelems@.subrange(k + 1, gelems@.len() as int));
        }
        let v = e.serialize();
        out.push(v);
    }
    proof {
        assert(dview_list(out@) =~= norm_enc_list(dview_list(gelems@)));
    }
    out
}

/// [`Value::serialize`] applied to both components of every pair.
#[verifier::loop_isolation(false)]
fn serialize_pairs_vec(pairs: Vec<(Value, Value)>) -> (out: Vec<(Value, Value)>)
    ensures
        dview_pairs(out@) == norm_enc_pairs(dview_pairs(pairs@)),
    decreases pairs, 0int,
{
    broadcast use lemma_norm_enc_pairs;

    let ghost gpairs = pairs;
    let mut rest = pairs;
    let mut out: Vec<(Value, Value)> = Vec::new();
    while rest.len() > 0
        invariant
            out@.len() + rest@.len() == gpairs@.len(),
            rest@ == gpairs@.subrange(out@.len() as int, gpairs@.len() as int),
            forall|i: int| 0 <= i < out@.len() ==> (out@[i].0.dview(), out@[i].1.dview())
                == (norm_enc(gpairs@[i].0.dview()), norm_enc(gpairs@[i].1.dview())),
        decreases rest@.len(),
    {
        let ghost k = out@.len() as int;
        let p = rest.remove(0);
        proof {
            assert(p == gpairs@[k]);
            assert(decreases_to!(gpairs => gpairs@));
            assert(decreases_to!(gpairs@ => gpairs@[k]));
            assert(decreases_to!(gpairs@[k] => gpairs@[k].0));
            assert(decreases_to!(gpairs@[k] => gpairs@[k].1));
            assert(rest@ =~= gpairs@.subrange(k + 1, gpairs@.len() as int));
        }
        let (kv, vv) = p;
        let k2 = kv.serialize();
        let v2 = vv.serialize();
        out.push((k2, v2));
    }
    proof {
        assert(dview_pairs(out@) =~= norm_enc_pairs(dview_pairs(gpairs@)));
    }
    out
}

/// Relies on `char`'s `ToString` implementation from std: the returned
/// string holds exactly this one character.
#[verifier::external_body]
fn char_to_string(c: char) -> (r: String)
    ensures
        r@ == seq![c],
{
    c.to_string()
}

/// Converts a typed value into the dynamic `Value` tree representing it.
///
/// The conversion is total over the closed typed model: the result is
/// always `Ok`, and the tree it carries is exactly [`enc`] of the input.
pub fn to_value(value: Typed) -> (r: Result<Value, Error>)
    ensures
        r is Ok,
        r matches Ok(v) ==> v@ == enc(value@),
{
    Ok(encode(value))
}

/// The executable forward bridge: computes [`enc`].
fn encode(value: Typed) -> (out: Value)
    ensures
        out@ == enc(value@),
    decreases value, 1int,
{
    match value {
        Typed::Unit => Value::Nil,
        Typed::Bool(b) => Value::Boolean(b),
        Typed::UInt(n) => Value::U64(n),
        Typed::SInt(n) => {
            if n < 0 {
                Value::I64(n)
            } else {
                Value::U64(n as u64)
            }
        },
        Typed::F32(bits) => Value::F32(bits),
        Typed::F64(bits) => Value::F64(bits),
        Typed::Char(c) => Value::Str(char_to_string(c)),
        Typed::Str(s) => Value::Str(s),
        Typed::Bytes(b) => Value::Bin(b),
        Typed::Opt(o) => match o {
            Option::None => Value::Nil,
            Option::Some(inner) => {
                proof {
                    assert(decreases_to!(value => o));
                    assert(decreases_to!(o => inner));
                }
                encode(*inner)
            },
        },
        Typed::List(elems) => {
            proof {
                assert(decreases_to!(value => elems));
            }
            Value::Array(encode_vec(elems))
        },
        Typed::Tuple(elems) => {
            proof {
                assert(decreases_to!(value => elems));
            }
            Value::Array(encode_vec(elems))
        },
        Typed::Mapping(pairs) => {
            proof {
                assert(decreases_to!(value => pairs));
            }
            Value::Mapping(encode_pairs_vec(pairs))
        },
        Typed::Newtype(inner) => {
            proof {
                assert(decreases_to!(value => inner));
            }
            encode(*inner)
        },
        Typed::Record(fields) => {
            proof {
                assert(decreases_to!(value => fields));
            }
            Value::Array(encode_vec(fields))
        },
        Typed::Variant(id, data) => {
            proof {
                assert(decreases_to!(value => data));
            }
            encode_variant(id, data)
        },
        Typed::Dynamic(v) => v.serialize(),
    }
}

/// Emits one enumeration value: the variant index and, unless the
/// variant is payload-free, one array of its payload values.
fn encode_variant(id: u32, data: VariantValue) -> (out: Value)
    ensures
        out@ == enc(SpecTyped::Variant(id, data@)),
    decreases data, 2int,
{
    match data {
        VariantValue::Unit => {
            let mut out: Vec<Value> = Vec::new();
            out.push(Value::U64(id as u64));
            proof {
                assert(dview_list(out@) =~= seq![SpecValue::U64(id as u64)]);
            }
            Value::Array(out)
        },
        VariantValue::Newtype(inner) => {
            proof {
                assert(decreases_to!(data => inner));
            }
            let payload = encode(*inner);
            let mut pv: Vec<Value> = Vec::new();
            pv.push(payload);
            let mut out: Vec<Value> = Vec::new();
            out.push(Value::U64(id as u64));
            out.push(Value::Array(pv));
            proof {
                assert(dview_list(pv@) =~= seq![enc(inner.dview())]);
                assert(dview_list(out@) =~= seq![
                    SpecValue::U64(id as u64),
                    SpecValue::Array(seq![enc(inner.dview())]),
                ]);
            }
            Value::Array(out)
        },
        VariantValue::Tuple(elems) => {
            proof {
                assert(decreases_to!(data => elems));
            }
            let evs = encode_vec(elems);
            let mut out: Vec<Value> = Vec::new();
            out.push(Value::U64(id as u64));
            out.push(Value::Array(evs));
            proof {
                assert(dview_list(out@) =~= seq![
                    SpecValue::U64(id as u64),
                    SpecValue::Array(enc_list(typed_dview_list(elems@))),
                ]);
            }
            Value::Array(out)
        },
        VariantValue::Record(fields) => {
            proof {
                assert(decreases_to!(data => fields));
            }
            let evs = encode_vec(fields);
            let mut out: Vec<Value> = Vec::new();
            out.push(Value::U64(id as u64));
            out.push(Value::Array(evs));
            proof {
                assert(dview_list(out@) =~= seq![
                    SpecValue::U64(id as u64),
                    SpecValue::Array(enc_list(typed_dview_list(fields@))),
                ]);
            }
            Value::Array(out)
        },
    }
}

/// [`enc`] applied to every element of a vector of typed values.
#[verifier::loop_isolation(false)]
fn encode_vec(elems: Vec<Typed>) -> (out: Vec<Value>)
    ensures
        dview_list(out@) == enc_list(typed_dview_list(elems@)),
    decreases elems, 0int,
{
    broadcast use lemma_enc_list;

    let ghost gelems = elems;
    let mut rest = elems;
    let mut out: Vec<Value> = Vec::new();
    while rest.len() > 0
        invariant
            out@.len() + rest@.len() == gelems@.len(),
            rest@ == gelems@.subrange(out@.len() as int, gelems@.len() as int),
            forall|i: int| 0 <= i < out@.len() ==> out@[i].dview() == enc(gelems@[i].dview()),
        decreases rest@.len(),
    {
        let ghost k = out@.len() as int;
        let e = rest.remove(0);
        proof {
            assert(e == gelems@[k]);
            assert(decreases_to!(gelems => gelems@));
            assert(decreases_to!(gelems@ => gelems@[k]));
            assert(rest@ =~= gelems@.subrange(k + 1, gelems@.len() as int));
        }
        let v = encode(e);
        out.push(v);
    }
    proof {
        assert(dview_list(out@) =~= enc_list(typed_dview_list(gelems@)));
    }
    out
}

/// [`enc`] applied to both components of every pair of typed values.
#[verifier::loop_isolation(false)]
fn encode_pairs_vec(pairs: Vec<(Typed, Typed)>) -> (out: Vec<(Value, Value)>)
    ensures
        dview_pairs(out@) == enc_pairs(typed_dview_pairs(pairs@)),
    decreases pairs, 0int,
{
    broadcast use lemma_enc_pairs;

    let ghost gpairs = pairs;
    let mut rest = pairs;
    let mut out: Vec<(Value, Value)> = Vec::new();
    while rest.len() > 0
        invariant
            out@.len() + rest@.len() == gpairs@.len(),
            rest@ == gpairs@.subrange(out@.len() as int, gpairs@.len() as int),
            forall|i: int| 0 <= i < out@.len() ==> (out@[i].0.dview(), out@[i].1.dview())
                == (enc(gpairs@[i].0.dview()), enc(gpairs@[i].1.dview())),
        decreases rest@.len(),
    {
        let ghost k = out@.len() as int;
        let p = rest.remove(0);
        proof {
            assert(p == gpairs@[k]);
            assert(decreases_to!(gpairs => gpairs@));
            assert(decreases_to!(gpairs@ => gpairs@[k]));
            assert(decreases_to!(gpairs@[k] => gpairs@[k].0));
            assert(decreases_to!(gpairs@[k] => gpairs@[k].1));
            assert(rest@ =~= gpairs@.subrange(k + 1, gpairs@.len() as int));
        }
        let (kv, vv) = p;
        let k2 = encode(kv);
        let v2 = encode(vv);
        out.push((k2, v2));
    }
    proof {
        assert(dview_pairs(out@) =~= enc_pairs(typed_dview_pairs(gpairs@)));
    }
    out
}

} // verus!
