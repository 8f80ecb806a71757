//! The reverse bridge: rebuilding typed data from a dynamic value tree.
//!
//! [`dec`] is the specification: a partial function from a `Value` tree
//! and a target [`Shape`] to the typed tree the target builds, `None`
//! standing for the one uniform error.  [`from_value`] is the executable
//! bridge, proved to succeed exactly where [`dec`] is defined and to
//! return exactly its result.
//!
//! The decode is type-directed and deliberately tolerant of several
//! encodings where the ecosystem produces them (see [`dec_enum`]): the
//! forward bridge emits one canonical shape, the reverse bridge accepts
//! the alternates.

use vstd::prelude::*;
use vstd::string::StrSliceExecFns;
use vstd::string::StringExecFns;
use crate::error::Error;
use crate::shape::Shape;
use crate::shape::VariantShape;
use crate::typed::SpecTyped;
use crate::typed::SpecVariantValue;
use crate::typed::Typed;
use crate::typed::VariantValue;
use crate::typed::typed_dview_list;
use crate::typed::typed_dview_pairs;
use crate::value::SpecValue;
use crate::value::Value;
use crate::value::dview_list;
use crate::value::dview_pairs;
use crate::ser::bucket_i64;

verus! {

broadcast use crate::value::lemma_dview_list, crate::value::lemma_dview_pairs,
    crate::typed::lemma_typed_dview_list, crate::typed::lemma_typed_dview_pairs,
    crate::typed::lemma_variant_dview;

/// An enumeration's variant index, read from the first array element as
/// an unsigned 32-bit integer: either integer bucket is accepted when
/// its value fits.
pub open spec fn dec_index(v: SpecValue) -> Option<u32> {
    match v {
        SpecValue::U64(n) => if n <= u32::MAX as u64 {
            Option::Some(n as u32)
        } else {
            Option::None
        },
        SpecValue::I64(n) => if 0 <= n && n <= u32::MAX as i64 {
            Option::Some(n as u32)
        } else {
            Option::None
        },
        _ => Option::None,
    }
}

/// What decoding into a dynamic target produces: the same tree with
/// every integer normalized into its sign bucket.  An extension datum
/// anywhere in the tree is unsupported and fails the decode.
pub open spec fn norm_dec(v: SpecValue) -> Option<SpecValue>
    decreases v, 1int,
{
    match v {
        SpecValue::Nil => Option::Some(SpecValue::Nil),
        SpecValue::Boolean(b) => Option::Some(SpecValue::Boolean(b)),
        SpecValue::I64(n) => Option::Some(bucket_i64(n)),
        SpecValue::U64(n) => Option::Some(SpecValue::U64(n)),
        SpecValue::F32(bits) => Option::Some(SpecValue::F32(bits)),
        SpecValue::F64(bits) => Option::Some(SpecValue::F64(bits)),
        SpecValue::Str(s) => Option::Some(SpecValue::Str(s)),
        SpecValue::Bin(b) => Option::Some(SpecValue::Bin(b)),
        SpecValue::Array(elems) => match norm_dec_list(elems) {
            Option::Some(es) => Option::Some(SpecValue::Array(es)),
            Option::None => Option::None,
        },
        SpecValue::Mapping(pairs) => match norm_dec_pairs(pairs) {
            Option::Some(ps) => Option::Some(SpecValue::Mapping(ps)),
            Option::None => Option::None,
        },
        SpecValue::Ext(tag, data) => Option::None,
    }
}

/// [`norm_dec`] applied to every element of a sequence, failing if any
/// element fails.
pub open spec fn norm_dec_list(elems: Seq<SpecValue>) -> Option<Seq<SpecValue>>
    decreases elems, 0int,
{
    if elems.len() == 0 {
        Option::Some(Seq::empty())
    } else {
        match norm_dec(elems[0]) {
            Option::Some(e) => match norm_dec_list(elems.subrange(1, elems.len() as int)) {
                Option::Some(es) => Option::Some(seq![e] + es),
                Option::None => Option::None,
            },
            Option::None => Option::None,
        }
    }
}

/// [`norm_dec`] applied to both components of every pair, failing if any
/// component fails.
pub open spec fn norm_dec_pairs(pairs: Seq<(SpecValue, SpecValue)>) -> Option<Seq<(SpecValue, SpecValue)>>
    decreases pairs, 0int,
{
    if pairs.len() == 0 {
        Option::Some(Seq::empty())
    } else {
        proof {
            assert(decreases_to!(pairs => pairs[0]));
        }
        match norm_dec(pairs[0].0) {
            Option::Some(k) => match norm_dec(pairs[0].1) {
                Option::Some(v) => match norm_dec_pairs(pairs.subrange(1, pairs.len() as int)) {
                    Option::Some(ps) => Option::Some(seq![(k, v)] + ps),
                    Option::None => Option::None,
                },
                Option::None => Option::None,
            },
            Option::None => Option::None,
        }
    }
}

/// The shapes of a field list, in declared order.
pub open spec fn field_shapes(fields: Seq<(String, Shape)>) -> Seq<Shape> {
    Seq::new(fields.len(), |i: int| fields[i].1)
}

/// The first field whose name is `key`, scanning in declared order.
pub open spec fn find_name(fields: Seq<(String, Shape)>, key: Seq<char>) -> Option<int>
    decreases fields.len(),
{
    if fields.len() == 0 {
        Option::None
    } else if fields[0].0@ == key {
        Option::Some(0)
    } else {
        match find_name(fields.subrange(1, fields.len() as int), key) {
            Option::Some(j) => Option::Some(j + 1),
            Option::None => Option::None,
        }
    }
}

/// Field slots not yet filled, one per field.
pub open spec fn empty_slots(n: nat) -> Seq<Option<SpecTyped>> {
    Seq::new(n, |i: int| Option::None)
}

/// Every slot unwrapped; meaningful only when every slot is filled.
pub open spec fn unwrap_slots(slots: Seq<Option<SpecTyped>>) -> Seq<SpecTyped> {
    Seq::new(slots.len(), |i: int| slots[i].unwrap())
}

/// Whether every slot is filled.
pub open spec fn all_filled(slots: Seq<Option<SpecTyped>>) -> bool {
    forall|i: int| 0 <= i < slots.len() ==> slots[i] is Some
}

/// The main decode dispatch: what a `Value` tree decodes to under a
/// target shape, `None` standing for the uniform error.
///
/// Primitives require the matching tag, except that either integer
/// bucket is accepted where the value fits the target's range.  `Nil`
/// decodes into an optional target as "absent"; any other value decodes
/// as "present" wrapping the inner decode, so presence is decided by the
/// value alone.  A newtype target passes the value straight through.  A
/// variable-length list accepts an array of any length; a tuple requires
/// the exact arity.  A record accepts an array (positional, declared
/// field order) or a key-value mapping (by field name: a string key not
/// naming a field is skipped with its value, a field met twice or left
/// unfilled fails).  A dynamic target yields [`norm_dec`].
pub open spec fn dec(v: SpecValue, s: Shape) -> Option<SpecTyped>
    decreases v, s,
{
    match s {
        Shape::Any => match norm_dec(v) {
            Option::Some(w) => Option::Some(SpecTyped::Dynamic(w)),
            Option::None => Option::None,
        },
        Shape::Unit => match v {
            SpecValue::Nil => Option::Some(SpecTyped::Unit),
            _ => Option::None,
        },
        Shape::Bool => match v {
            SpecValue::Boolean(b) => Option::Some(SpecTyped::Bool(b)),
            _ => Option::None,
        },
        Shape::UInt => match v {
            SpecValue::U64(n) => Option::Some(SpecTyped::UInt(n)),
            SpecValue::I64(n) => if n >= 0 {
                Option::Some(SpecTyped::UInt(n as u64))
            } else {
                Option::None
            },
            _ => Option::None,
        },
        Shape::SInt => match v {
            SpecValue::I64(n) => Option::Some(SpecTyped::SInt(n)),
            SpecValue::U64(n) => if n <= i64::MAX as u64 {
                Option::Some(SpecTyped::SInt(n as i64))
            } else {
                Option::None
            },
            _ => Option::None,
        },
        Shape::F32 => match v {
            SpecValue::F32(bits) => Option::Some(SpecTyped::F32(bits)),
            _ => Option::None,
        },
        Shape::F64 => match v {
            SpecValue::F64(bits) => Option::Some(SpecTyped::F64(bits)),
            _ => Option::None,
        },
        Shape::Char => match v {
            SpecValue::Str(cs) => if cs.len() == 1 {
                Option::Some(SpecTyped::Char(cs[0]))
            } else {
                Option::None
            },
            _ => Option::None,
        },
        Shape::Str => match v {
            SpecValue::Str(cs) => Option::Some(SpecTyped::Str(cs)),
            _ => Option::None,
        },
        Shape::Bytes => match v {
            SpecValue::Bin(b) => Option::Some(SpecTyped::Bytes(b)),
            _ => Option::None,
        },
        Shape::Optional(inner) => match v {
            SpecValue::Nil => Option::Some(SpecTyped::Opt(Option::None)),
            _ => {
                proof {
                    assert(decreases_to!(s => inner));
                }
                match dec(v, *inner) {
                    Option::Some(t) => Option::Some(SpecTyped::Opt(Option::Some(Box::new(t)))),
                    Option::None => Option::None,
                }
            },
        },
        Shape::List(inner) => match v {
            SpecValue::Array(elems) => {
                proof {
                    assert(decreases_to!(v => elems));
                }
                match dec_list(elems, *inner) {
                    Option::Some(ts) => Option::Some(SpecTyped::List(ts)),
                    Option::None => Option::None,
                }
            },
            _ => Option::None,
        },
        Shape::Tuple(shapes) => match v {
            SpecValue::Array(elems) => if elems.len() == shapes@.len() {
                proof {
                    assert(decreases_to!(v => elems));
                }
                match dec_zip(elems, shapes@) {
                    Option::Some(ts) => Option::Some(SpecTyped::Tuple(ts)),
                    Option::None => Option::None,
                }
            } else {
                Option::None
            },
            _ => Option::None,
        },
        Shape::Mapping(ks, vs) => match v {
            SpecValue::Mapping(pairs) => {
                proof {
                    assert(decreases_to!(v => pairs));
                }
                match dec_pairs(pairs, *ks, *vs) {
                    Option::Some(ts) => Option::Some(SpecTyped::Mapping(ts)),
                    Option::None => Option::None,
                }
            },
            _ => Option::None,
        },
        Shape::Newtype(inner) => {
            proof {
                assert(decreases_to!(s => inner));
            }
            match dec(v, *inner) {
                Option::Some(t) => Option::Some(SpecTyped::Newtype(Box::new(t))),
                Option::None => Option::None,
            }
        },
        Shape::Record(fields) => match v {
            SpecValue::Array(elems) => if elems.len() == fields@.len() {
                proof {
                    assert(decreases_to!(v => elems));
                }
                match dec_zip(elems, field_shapes(fields@)) {
                    Option::Some(ts) => Option::Some(SpecTyped::Record(ts)),
                    Option::None => Option::None,
                }
            } else {
                Option::None
            },
            SpecValue::Mapping(pairs) => {
                proof {
                    assert(decreases_to!(v => pairs));
                }
                match dec_fields_map(pairs, fields@, empty_slots(fields@.len())) {
                    Option::Some(slots) => if all_filled(slots) {
                        Option::Some(SpecTyped::Record(unwrap_slots(slots)))
                    } else {
                        Option::None
                    },
                    Option::None => Option::None,
                }
            },
            _ => Option::None,
        },
        Shape::Enum(variants) => match v {
            SpecValue::Array(elems) => {
                proof {
                    assert(decreases_to!(v => elems));
                }
                dec_enum(elems, variants@)
            },
            _ => Option::None,
        },
    }
}

/// [`dec`] applied to every element, all under one element shape.
pub open spec fn dec_list(elems: Seq<SpecValue>, s: Shape) -> Option<Seq<SpecTyped>>
    decreases elems, s,
{
    if elems.len() == 0 {
        Option::Some(Seq::empty())
    } else {
        match dec(elems[0], s) {
            Option::Some(t) => match dec_list(elems.subrange(1, elems.len() as int), s) {
                Option::Some(ts) => Option::Some(seq![t] + ts),
                Option::None => Option::None,
            },
            Option::None => Option::None,
        }
    }
}

/// [`dec`] applied positionally: each element under its own shape.
/// Meaningful when both sequences have the same length.
pub open spec fn dec_zip(elems: Seq<SpecValue>, shapes: Seq<Shape>) -> Option<Seq<SpecTyped>>
    decreases elems, Shape::Any,
{
    if elems.len() == 0 {
        Option::Some(Seq::empty())
    } else if shapes.len() == 0 {
        Option::None
    } else {
        match dec(elems[0], shapes[0]) {
            Option::Some(t) => match dec_zip(
                elems.subrange(1, elems.len() as int),
                shapes.subrange(1, shapes.len() as int),
            ) {
                Option::Some(ts) => Option::Some(seq![t] + ts),
                Option::None => Option::None,
            },
            Option::None => Option::None,
        }
    }
}

/// [`dec`] applied to both components of every pair: keys under the key
/// shape, values under the value shape.
pub open spec fn dec_pairs(pairs: Seq<(SpecValue, SpecValue)>, ks: Shape, vs: Shape) -> Option<Seq<(SpecTyped, SpecTyped)>>
    decreases pairs, ks,
{
    if pairs.len() == 0 {
        Option::Some(Seq::empty())
    } else {
        proof {
            assert(decreases_to!(pairs => pairs[0]));
        }
        match dec(pairs[0].0, ks) {
            Option::Some(kt) => match dec(pairs[0].1, vs) {
                Option::Some(vt) => match dec_pairs(pairs.subrange(1, pairs.len() as int), ks, vs) {
                    Option::Some(ts) => Option::Some(seq![(kt, vt)] + ts),
                    Option::None => Option::None,
                },
                Option::None => Option::None,
            },
            Option::None => Option::None,
        }
    }
}

/// Fills record field slots from key-value pairs, in pair order.  Every
/// key must be a string; a key naming no field is skipped together with
/// its value; a field met twice fails; a value that does not decode
/// under its field's shape fails.  Slots left empty are the caller's
/// missing-field check.
pub open spec fn dec_fields_map(
    pairs: Seq<(SpecValue, SpecValue)>,
    fields: Seq<(String, Shape)>,
    acc: Seq<Option<SpecTyped>>,
) -> Option<Seq<Option<SpecTyped>>>
    decreases pairs, Shape::Any,
{
    if pairs.len() == 0 {
        Option::Some(acc)
    } else {
        proof {
            assert(decreases_to!(pairs => pairs[0]));
        }
        match pairs[0].0 {
            SpecValue::Str(key) => match find_name(fields, key) {
                Option::Some(j) => if acc[j] is Some {
                    Option::None
                } else {
                    match dec(pairs[0].1, fields[j].1) {
                        Option::Some(t) => dec_fields_map(
                            pairs.subrange(1, pairs.len() as int),
                            fields,
                            acc.update(j, Option::Some(t)),
                        ),
                        Option::None => Option::None,
                    }
                },
                Option::None => dec_fields_map(pairs.subrange(1, pairs.len() as int), fields, acc),
            },
            _ => Option::None,
        }
    }
}

/// The enumeration decode protocol, over the elements of the outer
/// array.  The array must hold one or two elements: the variant index,
/// then at most one payload.  The payload is routed by the target
/// variant's own convention:
///
/// - a payload-free variant accepts an absent payload, `Nil`, or an
///   empty array;
/// - a one-value variant accepts its value directly or wrapped in a
///   one-element array, and requires a payload;
/// - a positional variant requires an array of exactly its arity;
/// - a named-field variant accepts an array (positional) or a key-value
///   mapping (by field name).
pub open spec fn dec_enum(elems: Seq<SpecValue>, variants: Seq<VariantShape>) -> Option<SpecTyped>
    decreases elems, Shape::Any,
{
    if elems.len() != 1 && elems.len() != 2 {
        Option::None
    } else {
        match dec_index(elems[0]) {
            Option::Some(id) => if (id as int) < variants.len() {
                let payload: Option<SpecValue> = if elems.len() == 2 {
                    Option::Some(elems[1])
                } else {
                    Option::None
                };
                match variants[id as int] {
                    VariantShape::Unit => match payload {
                        Option::None => Option::Some(SpecTyped::Variant(id, SpecVariantValue::Unit)),
                        Option::Some(SpecValue::Nil) => Option::Some(SpecTyped::Variant(id, SpecVariantValue::Unit)),
                        Option::Some(SpecValue::Array(xs)) => if xs.len() == 0 {
                            Option::Some(SpecTyped::Variant(id, SpecVariantValue::Unit))
                        } else {
                            Option::None
                        },
                        Option::Some(_) => Option::None,
                    },
                    VariantShape::Newtype(inner) => match payload {
                        Option::None => Option::None,
                        Option::Some(SpecValue::Array(xs)) => if xs.len() == 1 {
                            proof {
                                assert(decreases_to!(elems => elems[1]));
                            }
                            match dec(xs[0], *inner) {
                                Option::Some(t) => Option::Some(
                                    SpecTyped::Variant(id, SpecVariantValue::Newtype(Box::new(t))),
                                ),
                                Option::None => Option::None,
                            }
                        } else {
                            Option::None
                        },
                        Option::Some(p) => {
                            proof {
                                assert(decreases_to!(elems => elems[1]));
                            }
                            match dec(p, *inner) {
                                Option::Some(t) => Option::Some(
                                    SpecTyped::Variant(id, SpecVariantValue::Newtype(Box::new(t))),
                                ),
                                Option::None => Option::None,
                            }
                        },
                    },
                    VariantShape::Tuple(shapes) => match payload {
                        Option::Some(SpecValue::Array(xs)) => if xs.len() == shapes@.len() {
                            proof {
                                assert(decreases_to!(elems => elems[1]));
                            }
                            match dec_zip(xs, shapes@) {
                                Option::Some(ts) => Option::Some(
                                    SpecTyped::Variant(id, SpecVariantValue::Tuple(ts)),
                                ),
                                Option::None => Option::None,
                            }
                        } else {
                            Option::None
                        },
                        _ => Option::None,
                    },
                    VariantShape::Record(fields) => match payload {
                        Option::Some(SpecValue::Array(xs)) => if xs.len() == fields@.len() {
                            proof {
                                assert(decreases_to!(elems => elems[1]));
                            }
                            match dec_zip(xs, field_shapes(fields@)) {
                                Option::Some(ts) => Option::Some(
                                    SpecTyped::Variant(id, SpecVariantValue::Record(ts)),
                                ),
                                Option::None => Option::None,
                            }
                        } else {
                            Option::None
                        },
                        Option::Some(SpecValue::Mapping(ps)) => {
                            proof {
                                assert(decreases_to!(elems => elems[1]));
                            }
                            match dec_fields_map(ps, fields@, empty_slots(fields@.len())) {
                                Option::Some(slots) => if all_filled(slots) {
                                    Option::Some(SpecTyped::Variant(id, SpecVariantValue::Record(unwrap_slots(slots))))
                                } else {
                                    Option::None
                                },
                                Option::None => Option::None,
                            }
                        },
                        _ => Option::None,
                    },
                }
            } else {
                Option::None
            },
            Option::None => Option::None,
        }
    }
}

/// Characterizes [`dec_list`] by index: it succeeds exactly when every
/// element decodes, and then holds each element's decode in order.
pub proof fn lemma_dec_list(elems: Seq<SpecValue>, s: Shape)
    ensures
        (dec_list(elems, s) is Some <==> (forall|i: int| 0 <= i < elems.len() ==> (#[trigger] dec(elems[i], s)) is Some)),
        dec_list(elems, s) is Some ==> dec_list(elems, s).unwrap().len() == elems.len(),
        dec_list(elems, s) is Some ==> forall|i: int| 0 <= i < elems.len()
            ==> dec_list(elems, s).unwrap()[i] == (#[trigger] dec(elems[i], s)).unwrap(),
    decreases elems.len(),
{
    if elems.len() > 0 {
        let rest = elems.subrange(1, elems.len() as int);
        lemma_dec_list(rest, s);
        assert forall|i: int| 0 <= i < rest.len() implies #[trigger] dec(rest[i], s) == dec(elems[i + 1], s) by {
            assert(rest[i] == elems[i + 1]);
        }
        match dec(elems[0], s) {
            Option::Some(t) => match dec_list(rest, s) {
                Option::Some(ts) => {
                    assert(dec_list(elems, s) == Option::Some(seq![t] + ts));
                    assert forall|i: int| 0 <= i < elems.len() implies (#[trigger] dec(elems[i], s)) is Some by {
                        if i > 0 {
                            assert(dec(rest[i - 1], s) is Some);
                        }
                    }
                    assert forall|i: int| 0 <= i < elems.len() implies dec_list(elems, s).unwrap()[i]
                        == (#[trigger] dec(elems[i], s)).unwrap() by {
                        if i == 0 {
                            assert((seq![t] + ts)[0] == t);
                        } else {
                            assert((seq![t] + ts)[i] == ts[i - 1]);
                            assert(ts[i - 1] == dec(rest[i - 1], s).unwrap());
                        }
                    }
                },
                Option::None => {
                    assert(dec_list(elems, s) is None);
                    let w = choose|i: int| 0 <= i < rest.len() && !((#[trigger] dec(rest[i], s)) is Some);
                    assert(dec(elems[w + 1], s) is None);
                },
            },
            Option::None => {
                assert(dec_list(elems, s) is None);
                assert(!(dec(elems[0], s) is Some));
            },
        }
    }
}

/// Characterizes [`dec_zip`] by index, for equal-length sequences.
pub proof fn lemma_dec_zip(elems: Seq<SpecValue>, shapes: Seq<Shape>)
    requires
        elems.len() == shapes.len(),
    ensures
        (dec_zip(elems, shapes) is Some <==> (forall|i: int| 0 <= i < elems.len() ==> (#[trigger] dec(elems[i], shapes[i])) is Some)),
        dec_zip(elems, shapes) is Some ==> dec_zip(elems, shapes).unwrap().len() == elems.len(),
        dec_zip(elems, shapes) is Some ==> forall|i: int| 0 <= i < elems.len()
            ==> dec_zip(elems, shapes).unwrap()[i] == (#[trigger] dec(elems[i], shapes[i])).unwrap(),
    decreases elems.len(),
{
    if elems.len() > 0 {
        let erest = elems.subrange(1, elems.len() as int);
        let srest = shapes.subrange(1, shapes.len() as int);
        lemma_dec_zip(erest, srest);
        assert forall|i: int| 0 <= i < erest.len() implies #[trigger] dec(erest[i], srest[i]) == dec(elems[i + 1], shapes[i + 1]) by {
            assert(erest[i] == elems[i + 1]);
            assert(srest[i] == shapes[i + 1]);
        }
        match dec(elems[0], shapes[0]) {
            Option::Some(t) => match dec_zip(erest, srest) {
                Option::Some(ts) => {
                    assert(dec_zip(elems, shapes) == Option::Some(seq![t] + ts));
                    assert forall|i: int| 0 <= i < elems.len() implies (#[trigger] dec(elems[i], shapes[i])) is Some by {
                        if i > 0 {
                            assert(dec(erest[i - 1], srest[i - 1]) is Some);
                        }
                    }
                    assert forall|i: int| 0 <= i < elems.len() implies dec_zip(elems, shapes).unwrap()[i]
                        == (#[trigger] dec(elems[i], shapes[i])).unwrap() by {
                        if i == 0 {
                            assert((seq![t] + ts)[0] == t);
                        } else {
                            assert((seq![t] + ts)[i] == ts[i - 1]);
                            assert(ts[i - 1] == dec(erest[i - 1], srest[i - 1]).unwrap());
                        }
                    }
                },
                Option::None => {
                    assert(dec_zip(elems, shapes) is None);
                    let w = choose|i: int| 0 <= i < erest.len() && !((#[trigger] dec(erest[i], srest[i])) is Some);
                    assert(dec(elems[w + 1], shapes[w + 1]) is None);
                },
            },
            Option::None => {
                assert(dec_zip(elems, shapes) is None);
                assert(!(dec(elems[0], shapes[0]) is Some));
            },
        }
    }
}

/// Characterizes [`dec_pairs`] by index.
pub proof fn lemma_dec_pairs(pairs: Seq<(SpecValue, SpecValue)>, ks: Shape, vs: Shape)
    ensures
        (dec_pairs(pairs, ks, vs) is Some <==> (forall|i: int| 0 <= i < pairs.len()
            ==> (#[trigger] dec(pairs[i].0, ks)) is Some && dec(pairs[i].1, vs) is Some)),
        dec_pairs(pairs, ks, vs) is Some ==> dec_pairs(pairs, ks, vs).unwrap().len() == pairs.len(),
        dec_pairs(pairs, ks, vs) is Some ==> forall|i: int| 0 <= i < pairs.len()
            ==> dec_pairs(pairs, ks, vs).unwrap()[i] == ((#[trigger] dec(pairs[i].0, ks)).unwrap(), dec(pairs[i].1, vs).unwrap()),
    decreases pairs.len(),
{
    if pairs.len() > 0 {
        let rest = pairs.subrange(1, pairs.len() as int);
        lemma_dec_pairs(rest, ks, vs);
        assert forall|i: int| 0 <= i < rest.len() implies #[trigger] dec(rest[i].0, ks) == dec(pairs[i + 1].0, ks)
            && dec(rest[i].1, vs) == dec(pairs[i + 1].1, vs) by {
            assert(rest[i] == pairs[i + 1]);
        }
        if dec(pairs[0].0, ks) is Some && dec(pairs[0].1, vs) is Some {
            let t = (dec(pairs[0].0, ks).unwrap(), dec(pairs[0].1, vs).unwrap());
            match dec_pairs(rest, ks, vs) {
                Option::Some(ts) => {
                    assert(dec_pairs(pairs, ks, vs) == Option::Some(seq![t] + ts));
                    assert forall|i: int| 0 <= i < pairs.len() implies (#[trigger] dec(pairs[i].0, ks)) is Some
                        && dec(pairs[i].1, vs) is Some by {
                        if i > 0 {
                            assert(dec(rest[i - 1].0, ks) is Some && dec(rest[i - 1].1, vs) is Some);
                        }
                    }
                    assert forall|i: int| 0 <= i < pairs.len() implies dec_pairs(pairs, ks, vs).unwrap()[i]
                        == ((#[trigger] dec(pairs[i].0, ks)).unwrap(), dec(pairs[i].1, vs).unwrap()) by {
                        if i == 0 {
                            assert((seq![t] + ts)[0] == t);
                        } else {
                            assert((seq![t] + ts)[i] == ts[i - 1]);
                            assert(ts[i - 1] == (dec(rest[i - 1].0, ks).unwrap(), dec(rest[i - 1].1, vs).unwrap()));
                        }
                    }
                },
                Option::None => {
                    assert(dec_pairs(pairs, ks, vs) is None);
                    let w = choose|i: int| 0 <= i < rest.len()
                        && !((#[trigger] dec(rest[i].0, ks)) is Some && dec(rest[i].1, vs) is Some);
                    assert(!(dec(pairs[w + 1].0, ks) is Some && dec(pairs[w + 1].1, vs) is Some));
                },
            }
        } else {
            assert(dec_pairs(pairs, ks, vs) is None);
        }
    }
}

/// Characterizes [`norm_dec_list`] by index.
pub proof fn lemma_norm_dec_list(elems: Seq<SpecValue>)
    ensures
        (norm_dec_list(elems) is Some <==> (forall|i: int| 0 <= i < elems.len() ==> (#[trigger] norm_dec(elems[i])) is Some)),
        norm_dec_list(elems) is Some ==> norm_dec_list(elems).unwrap().len() == elems.len(),
        norm_dec_list(elems) is Some ==> forall|i: int| 0 <= i < elems.len()
            ==> norm_dec_list(elems).unwrap()[i] == (#[trigger] norm_dec(elems[i])).unwrap(),
    decreases elems.len(),
{
    if elems.len() > 0 {
        let rest = elems.subrange(1, elems.len() as int);
        lemma_norm_dec_list(rest);
        assert forall|i: int| 0 <= i < rest.len() implies #[trigger] norm_dec(rest[i]) == norm_dec(elems[i + 1]) by {
            assert(rest[i] == elems[i + 1]);
        }
        match norm_dec(elems[0]) {
            Option::Some(t) => match norm_dec_list(rest) {
                Option::Some(ts) => {
                    assert(norm_dec_list(elems) == Option::Some(seq![t] + ts));
                    assert forall|i: int| 0 <= i < elems.len() implies (#[trigger] norm_dec(elems[i])) is Some by {
                        if i > 0 {
                            assert(norm_dec(rest[i - 1]) is Some);
                        }
                    }
                    assert forall|i: int| 0 <= i < elems.len() implies norm_dec_list(elems).unwrap()[i]
                        == (#[trigger] norm_dec(elems[i])).unwrap() by {
                        if i == 0 {
                            assert((seq![t] + ts)[0] == t);
                        } else {
                            assert((seq![t] + ts)[i] == ts[i - 1]);
                            assert(ts[i - 1] == norm_dec(rest[i - 1]).unwrap());
                        }
                    }
                },
                Option::None => {
                    assert(norm_dec_list(elems) is None);
                    let w = choose|i: int| 0 <= i < rest.len() && !((#[trigger] norm_dec(rest[i])) is Some);
                    assert(norm_dec(elems[w + 1]) is None);
                },
            },
            Option::None => {
                assert(norm_dec_list(elems) is None);
                assert(!(norm_dec(elems[0]) is Some));
            },
        }
    }
}

/// Characterizes [`norm_dec_pairs`] by index.
pub proof fn lemma_norm_dec_pairs(pairs: Seq<(SpecValue, SpecValue)>)
    ensures
        (norm_dec_pairs(pairs) is Some <==> (forall|i: int| 0 <= i < pairs.len()
            ==> (#[trigger] norm_dec(pairs[i].0)) is Some && norm_dec(pairs[i].1) is Some)),
        norm_dec_pairs(pairs) is Some ==> norm_dec_pairs(pairs).unwrap().len() == pairs.len(),
        norm_dec_pairs(pairs) is Some ==> forall|i: int| 0 <= i < pairs.len()
            ==> norm_dec_pairs(pairs).unwrap()[i] == ((#[trigger] norm_dec(pairs[i].0)).unwrap(), norm_dec(pairs[i].1).unwrap()),
    decreases pairs.len(),
{
    if pairs.len() > 0 {
        let rest = pairs.subrange(1, pairs.len() as int);
        lemma_norm_dec_pairs(rest);
        assert forall|i: int| 0 <= i < rest.len() implies #[trigger] norm_dec(rest[i].0) == norm_dec(pairs[i + 1].0)
            && norm_dec(rest[i].1) == norm_dec(pairs[i + 1].1) by {
            assert(rest[i] == pairs[i + 1]);
        }
        if norm_dec(pairs[0].0) is Some && norm_dec(pairs[0].1) is Some {
            let t = (norm_dec(pairs[0].0).unwrap(), norm_dec(pairs[0].1).unwrap());
            match norm_dec_pairs(rest) {
                Option::Some(ts) => {
                    assert(norm_dec_pairs(pairs) == Option::Some(seq![t] + ts));
                    assert forall|i: int| 0 <= i < pairs.len() implies (#[trigger] norm_dec(pairs[i].0)) is Some
                        && norm_dec(pairs[i].1) is Some by {
                        if i > 0 {
                            assert(norm_dec(rest[i - 1].0) is Some && norm_dec(rest[i - 1].1) is Some);
                        }
                    }
                    assert forall|i: int| 0 <= i < pairs.len() implies norm_dec_pairs(pairs).unwrap()[i]
                        == ((#[trigger] norm_dec(pairs[i].0)).unwrap(), norm_dec(pairs[i].1).unwrap()) by {
                        if i == 0 {
                            assert((seq![t] + ts)[0] == t);
                        } else {
                            assert((seq![t] + ts)[i] == ts[i - 1]);
                            assert(ts[i - 1] == (norm_dec(rest[i - 1].0).unwrap(), norm_dec(rest[i - 1].1).unwrap()));
                        }
                    }
                },
                Option::None => {
                    assert(norm_dec_pairs(pairs) is None);
                    let w = choose|i: int| 0 <= i < rest.len()
                        && !((#[trigger] norm_dec(rest[i].0)) is Some && norm_dec(rest[i].1) is Some);
                    assert(!(norm_dec(pairs[w + 1].0) is Some && norm_dec(pairs[w + 1].1) is Some));
                },
            }
        } else {
            assert(norm_dec_pairs(pairs) is None);
        }
    }
}

/// Characterizes [`find_name`]: the result is the first match in
/// declared order, or there is none.
pub proof fn lemma_find_name(fields: Seq<(String, Shape)>, key: Seq<char>)
    ensures
        (match find_name(fields, key) {
            Option::Some(j) => 0 <= j < fields.len() && fields[j].0@ == key
                && (forall|i: int| 0 <= i < j ==> (#[trigger] fields[i]).0@ != key),
            Option::None => forall|i: int| 0 <= i < fields.len() ==> (#[trigger] fields[i]).0@ != key,
        }),
    decreases fields.len(),
{
    if fields.len() > 0 && fields[0].0@ != key {
        let rest = fields.subrange(1, fields.len() as int);
        lemma_find_name(rest, key);
        assert forall|i: int| 0 <= i < rest.len() implies (#[trigger] rest[i]) == fields[i + 1] by {
        }
        match find_name(rest, key) {
            Option::Some(j) => {
                assert(find_name(fields, key) == Option::Some(j + 1));
                assert(fields[j + 1] == rest[j]);
                assert forall|i: int| 0 <= i < j + 1 implies (#[trigger] fields[i]).0@ != key by {
                    if i > 0 {
                        assert(fields[i] == rest[i - 1]);
                    }
                }
            },
            Option::None => {
                assert forall|i: int| 0 <= i < fields.len() implies (#[trigger] fields[i]).0@ != key by {
                    if i > 0 {
                        assert(fields[i] == rest[i - 1]);
                    }
                }
            },
        }
    }
}

/// A single-use cursor over an array's elements: the sequence-source the
/// reverse bridge hands to element builders.  Elements are consumed from
/// the front, exactly once.
pub(crate) struct SeqDeserializer {
    pub(crate) elems: Vec<Value>,
}

impl SeqDeserializer {
    /// Wraps an array's elements into a fresh cursor.
    pub(crate) fn new(vec: Vec<Value>) -> (d: SeqDeserializer)
        ensures
            d.elems@ == vec@,
    {
        SeqDeserializer { elems: vec }
    }

    /// Advances the cursor: the next element, or exhausted.
    pub(crate) fn next(&mut self) -> (r: Option<Value>)
        ensures
            (match r {
                Option::Some(v) => old(self).elems@.len() > 0 && v == old(self).elems@[0]
                    && final(self).elems@ == old(self).elems@.subrange(1, old(self).elems@.len() as int),
                Option::None => old(self).elems@.len() == 0 && final(self).elems@ == old(self).elems@,
            }),
    {
        if self.elems.len() == 0 {
            Option::None
        } else {
            Option::Some(self.elems.remove(0))
        }
    }

    /// How many elements remain: the capacity hint for builders.
    pub(crate) fn size_hint(&self) -> (n: usize)
        ensures
            n == self.elems@.len(),
    {
        self.elems.len()
    }
}

/// A single-use cursor over a mapping's pairs: the map-source the
/// reverse bridge hands to entry builders.  A key hands out the pair's
/// key and buffers its value until the value is asked for.
pub(crate) struct MapDeserializer {
    pub(crate) val: Option<Value>,
    pub(crate) pairs: Vec<(Value, Value)>,
}

impl MapDeserializer {
    /// Wraps a mapping's pairs into a fresh cursor.
    pub(crate) fn new(map: Vec<(Value, Value)>) -> (d: MapDeserializer)
        ensures
            d.pairs@ == map@,
            d.val is None,
    {
        MapDeserializer { val: Option::None, pairs: map }
    }

    /// Advances to the next pair: its key, buffering its value; or
    /// exhausted.
    pub(crate) fn next_key(&mut self) -> (r: Option<Value>)
        ensures
            (match r {
                Option::Some(k) => old(self).pairs@.len() > 0 && k == old(self).pairs@[0].0
                    && final(self).val == Option::Some(old(self).pairs@[0].1)
                    && final(self).pairs@ == old(self).pairs@.subrange(1, old(self).pairs@.len() as int),
                Option::None => old(self).pairs@.len() == 0 && final(self).val == old(self).val
                    && final(self).pairs@ == old(self).pairs@,
            }),
    {
        if self.pairs.len() == 0 {
            Option::None
        } else {
            let (k, v) = self.pairs.remove(0);
            self.val = Option::Some(v);
            Option::Some(k)
        }
    }

    /// The buffered value of the last key handed out.  Asking for a
    /// value before its key is an internal-consistency error.
    pub(crate) fn next_value(&mut self) -> (r: Result<Value, Error>)
        ensures
            (match r {
                Ok(v) => old(self).val == Option::Some(v) && final(self).val is None
                    && final(self).pairs@ == old(self).pairs@,
                Err(_) => old(self).val is None && final(self).val is None
                    && final(self).pairs@ == old(self).pairs@,
            }),
    {
        match self.val.take() {
            Option::Some(v) => Ok(v),
            Option::None => Err(Error::custom("value is missing")),
        }
    }

    /// How many pairs remain: the capacity hint for builders.
    pub(crate) fn size_hint(&self) -> (n: usize)
        ensures
            n == self.pairs@.len(),
    {
        self.pairs.len()
    }
}

impl Value {
    /// A short description of this value's tag, for error messages.
    fn unexpected(&self) -> &'static str {
        match self {
            Value::Nil => "unit",
            Value::Boolean(_) => "a boolean",
            Value::I64(_) => "a signed integer",
            Value::U64(_) => "an unsigned integer",
            Value::F32(_) => "a single float",
            Value::F64(_) => "a double float",
            Value::Str(_) => "a string",
            Value::Bin(_) => "bytes",
            Value::Array(_) => "an array",
            Value::Mapping(_) => "a map",
            Value::Ext(_, _) => "an extension value",
        }
    }

    /// Decodes this value by its own self-description, the dynamic
    /// target: exactly [`norm_dec`] of this tree, failing on an
    /// extension datum anywhere in it.
    pub fn deserialize(self) -> (r: Result<Value, Error>)
        ensures
            (match r {
                Ok(w) => norm_dec(self@) == Option::Some(w@),
                Err(_) => norm_dec(self@) is None,
            }),
        decreases self, 1int,
    {
        match self {
            Value::Nil => Ok(Value::Nil),
            Value::Boolean(b) => Ok(Value::Boolean(b)),
            Value::I64(n) => {
                if n < 0 {
                    Ok(Value::I64(n))
                } else {
                    Ok(Value::U64(n as u64))
                }
            },
            Value::U64(n) => Ok(Value::U64(n)),
            Value::F32(bits) => Ok(Value::F32(bits)),
            Value::F64(bits) => Ok(Value::F64(bits)),
            Value::Str(s) => Ok(Value::Str(s)),
            Value::Bin(b) => Ok(Value::Bin(b)),
            Value::Array(elems) => {
                proof {
                    assert(decreases_to!(self => elems));
                }
                match normalize_vec(elems) {
                    Ok(es) => Ok(Value::Array(es)),
                    Err(e) => Err(e),
                }
            },
            Value::Mapping(pairs) => {
                proof {
                    assert(decreases_to!(self => pairs));
                }
                match normalize_pairs(pairs) {
                    Ok(ps) => Ok(Value::Mapping(ps)),
                    Err(e) => Err(e),
                }
            },
            Value::Ext(_, _) => Err(Error::custom("ext values are unsupported by this target")),
        }
    }
}

/// [`Value::deserialize`] applied to every element of a vector.
#[verifier::loop_isolation(false)]
fn normalize_vec(elems: Vec<Value>) -> (r: Result<Vec<Value>, Error>)
    ensures
        (match r {
            Ok(out) => norm_dec_list(dview_list(elems@)) == Option::Some(dview_list(out@)),
            Err(_) => norm_dec_list(dview_list(elems@)) is None,
        }),
    decreases elems, 0int,
{
    proof {
        lemma_norm_dec_list(dview_list(elems@));
    }
    let ghost gelems = elems;
    let mut src = SeqDeserializer::new(elems);
    let mut out: Vec<Value> = Vec::with_capacity(src.size_hint());
    while src.size_hint() > 0
        invariant
            out@.len() + src.elems@.len() == gelems@.len(),
            src.elems@ == gelems@.subrange(out@.len() as int, gelems@.len() as int),
            forall|i: int| 0 <= i < out@.len() ==> norm_dec(gelems@[i].dview()) == Option::Some(out@[i].dview()),
        decreases src.elems@.len(),
    {
        let ghost k = out@.len() as int;
        let e = src.next().unwrap();
        proof {
            assert(e == gelems@[k]);
            assert(decreases_to!(gelems => gelems@));
            assert(decreases_to!(gelems@ => gelems@[k]));
            assert(src.elems@ =~= gelems@.subrange(k + 1, gelems@.len() as int));
        }
        match e.deserialize() {
            Ok(w) => out.push(w),
            Err(err) => {
                proof {
                    assert(norm_dec(dview_list(gelems@)[k]) is None);
                }
                return Err(err);
            },
        }
    }
    proof {
        let ge = dview_list(gelems@);
        assert forall|i: int| 0 <= i < ge.len() implies (#[trigger] norm_dec(ge[i])) is Some by {
            assert(ge[i] == gelems@[i].dview());
        }
        assert(norm_dec_list(ge) is Some);
        assert forall|i: int| 0 <= i < out@.len() implies dview_list(out@)[i] == norm_dec_list(ge).unwrap()[i] by {
            assert(norm_dec(ge[i]) == Option::Some(out@[i].dview()));
        }
        assert(dview_list(out@) =~= norm_dec_list(ge).unwrap());
    }
    Ok(out)
}

/// [`Value::deserialize`] applied to both components of every pair.
#[verifier::loop_isolation(false)]
fn normalize_pairs(pairs: Vec<(Value, Value)>) -> (r: Result<Vec<(Value, Value)>, Error>)
    ensures
        (match r {
            Ok(out) => norm_dec_pairs(dview_pairs(pairs@)) == Option::Some(dview_pairs(out@)),
            Err(_) => norm_dec_pairs(dview_pairs(pairs@)) is None,
        }),
    decreases pairs, 0int,
{
    proof {
        lemma_norm_dec_pairs(dview_pairs(pairs@));
    }
    let ghost gpairs = pairs;
    let mut src = MapDeserializer::new(pairs);
    let mut out: Vec<(Value, Value)> = Vec::with_capacity(src.size_hint());
    while src.size_hint() > 0
        invariant
            src.val is None,
            out@.len() + src.pairs@.len() == gpairs@.len(),
            src.pairs@ == gpairs@.subrange(out@.len() as int, gpairs@.len() as int),
            forall|i: int| 0 <= i < out@.len()
                ==> norm_dec(gpairs@[i].0.dview()) == Option::Some(out@[i].0.dview())
                && norm_dec(gpairs@[i].1.dview()) == Option::Some(out@[i].1.dview()),
        decreases src.pairs@.len(),
    {
        let ghost k = out@.len() as int;
        let kv = src.next_key().unwrap();
        proof {
            assert(kv == gpairs@[k].0);
            assert(decreases_to!(gpairs => gpairs@));
            assert(decreases_to!(gpairs@ => gpairs@[k]));
            assert(decreases_to!(gpairs@[k] => gpairs@[k].0));
            assert(decreases_to!(gpairs@[k] => gpairs@[k].1));
            assert(src.pairs@ =~= gpairs@.subrange(k + 1, gpairs@.len() as int));
        }
        let nk = match kv.deserialize() {
            Ok(w) => w,
            Err(err) => {
                proof {
                    assert(norm_dec(dview_pairs(gpairs@)[k].0) is None);
                }
                return Err(err);
            },
        };
        let vv = match src.next_value() {
            Ok(v) => v,
            Err(err) => {
                proof {
                    assert(false);
                }
                return Err(err);
            },
        };
        let nv = match vv.deserialize() {
            Ok(w) => w,
            Err(err) => {
                proof {
                    assert(norm_dec(dview_pairs(gpairs@)[k].1) is None);
                }
                return Err(err);
            },
        };
        out.push((nk, nv));
    }
    proof {
        let gp = dview_pairs(gpairs@);
        assert forall|i: int| 0 <= i < gp.len() implies (#[trigger] norm_dec(gp[i].0)) is Some
            && norm_dec(gp[i].1) is Some by {
            assert(gp[i] == (gpairs@[i].0.dview(), gpairs@[i].1.dview()));
        }
        assert(norm_dec_pairs(gp) is Some);
        assert forall|i: int| 0 <= i < out@.len() implies dview_pairs(out@)[i] == norm_dec_pairs(gp).unwrap()[i] by {
            assert(norm_dec(gp[i].0) == Option::Some(out@[i].0.dview()));
            assert(norm_dec(gp[i].1) == Option::Some(out@[i].1.dview()));
        }
        assert(dview_pairs(out@) =~= norm_dec_pairs(gp).unwrap());
    }
    Ok(out)
}

/// A view of filled slots: each present typed value replaced by its
/// mathematical value.
pub open spec fn slots_view(slots: Seq<Option<Typed>>) -> Seq<Option<SpecTyped>> {
    Seq::new(slots.len(), |i: int| match slots[i] {
        Option::Some(t) => Option::Some(t.dview()),
        Option::None => Option::None,
    })
}

/// Reads an enumeration's variant index: exactly [`dec_index`].
fn decode_index(v: Value) -> (r: Result<u32, Error>)
    ensures
        (match r {
            Ok(id) => dec_index(v@) == Option::Some(id),
            Err(_) => dec_index(v@) is None,
        }),
{
    match v {
        Value::U64(n) => {
            if n <= u32::MAX as u64 {
                Ok(n as u32)
            } else {
                Err(Error::custom("invalid value: variant index out of range"))
            }
        },
        Value::I64(n) => {
            if n >= 0 && n <= u32::MAX as i64 {
                Ok(n as u32)
            } else {
                Err(Error::custom("invalid value: variant index out of range"))
            }
        },
        other => Err(Error::Syntax(String::from_str("invalid type: expected a variant index, found ").concat(other.unexpected()))),
    }
}

/// The executable reverse bridge: builds the typed value a `Value` tree
/// decodes to under a target shape.  It succeeds exactly where [`dec`]
/// is defined and returns exactly its result; every failure is the one
/// uniform error with a free-text message.
#[verifier::rlimit(30)]
pub fn from_value(val: Value, target: &Shape) -> (r: Result<Typed, Error>)
    ensures
        (match r {
            Ok(t) => dec(val@, *target) == Option::Some(t@),
            Err(_) => dec(val@, *target) is None,
        }),
    decreases val, target,
{
    match target {
        Shape::Any => match val.deserialize() {
            Ok(w) => Ok(Typed::Dynamic(w)),
            Err(e) => Err(e),
        },
        Shape::Unit => match val {
            Value::Nil => Ok(Typed::Unit),
            other => Err(Error::Syntax(String::from_str("invalid type: expected unit, found ").concat(other.unexpected()))),
        },
        Shape::Bool => match val {
            Value::Boolean(b) => Ok(Typed::Bool(b)),
            other => Err(Error::Syntax(String::from_str("invalid type: expected a boolean, found ").concat(other.unexpected()))),
        },
        Shape::UInt => match val {
            Value::U64(n) => Ok(Typed::UInt(n)),
            Value::I64(n) => {
                if n >= 0 {
                    Ok(Typed::UInt(n as u64))
                } else {
                    Err(Error::custom("invalid value: a negative integer for an unsigned target"))
                }
            },
            other => Err(Error::Syntax(String::from_str("invalid type: expected an integer, found ").concat(other.unexpected()))),
        },
        Shape::SInt => match val {
            Value::I64(n) => Ok(Typed::SInt(n)),
            Value::U64(n) => {
                if n <= i64::MAX as u64 {
                    Ok(Typed::SInt(n as i64))
                } else {
                    Err(Error::custom("invalid value: out of range for a signed target"))
                }
            },
            other => Err(Error::Syntax(String::from_str("invalid type: expected an integer, found ").concat(other.unexpected()))),
        },
        Shape::F32 => match val {
            Value::F32(bits) => Ok(Typed::F32(bits)),
            other => Err(Error::Syntax(String::from_str("invalid type: expected a single float, found ").concat(other.unexpected()))),
        },
        Shape::F64 => match val {
            Value::F64(bits) => Ok(Typed::F64(bits)),
            other => Err(Error::Syntax(String::from_str("invalid type: expected a double float, found ").concat(other.unexpected()))),
        },
        Shape::Char => match val {
            Value::Str(s) => {
                if s.as_str().unicode_len() == 1 {
                    Ok(Typed::Char(s.as_str().get_char(0)))
                } else {
                    Err(Error::custom("invalid value: expected a single character"))
                }
            },
            other => Err(Error::Syntax(String::from_str("invalid type: expected a string, found ").concat(other.unexpected()))),
        },
        Shape::Str => match val {
            Value::Str(s) => Ok(Typed::Str(s)),
            other => Err(Error::Syntax(String::from_str("invalid type: expected a string, found ").concat(other.unexpected()))),
        },
        Shape::Bytes => match val {
            Value::Bin(b) => Ok(Typed::Bytes(b)),
            other => Err(Error::Syntax(String::from_str("invalid type: expected bytes, found ").concat(other.unexpected()))),
        },
        Shape::Optional(inner) => match val {
            Value::Nil => Ok(Typed::Opt(Option::None)),
            other => {
                proof {
                    assert(decreases_to!(target => inner));
                }
                match from_value(other, &**inner) {
                    Ok(t) => Ok(Typed::Opt(Option::Some(Box::new(t)))),
                    Err(e) => Err(e),
                }
            },
        },
        Shape::List(inner) => match val {
            Value::Array(elems) => {
                proof {
                    assert(decreases_to!(val => elems));
                }
                match decode_list(elems, &**inner) {
                    Ok(ts) => Ok(Typed::List(ts)),
                    Err(e) => Err(e),
                }
            },
            other => Err(Error::Syntax(String::from_str("invalid type: expected an array, found ").concat(other.unexpected()))),
        },
        Shape::Tuple(shapes) => match val {
            Value::Array(elems) => {
                if elems.len() == shapes.len() {
                    proof {
                        assert(decreases_to!(val => elems));
                    }
                    match decode_tuple_elems(elems, shapes) {
                        Ok(ts) => Ok(Typed::Tuple(ts)),
                        Err(e) => Err(e),
                    }
                } else {
                    Err(Error::custom("invalid length: fewer elements in array"))
                }
            },
            other => Err(Error::Syntax(String::from_str("invalid type: expected an array, found ").concat(other.unexpected()))),
        },
        Shape::Mapping(ks, vs) => match val {
            Value::Mapping(pairs) => {
                proof {
                    assert(decreases_to!(val => pairs));
                }
                match decode_pairs(pairs, &**ks, &**vs) {
                    Ok(ts) => Ok(Typed::Mapping(ts)),
                    Err(e) => Err(e),
                }
            },
            other => Err(Error::Syntax(String::from_str("invalid type: expected a map, found ").concat(other.unexpected()))),
        },
        Shape::Newtype(inner) => {
            proof {
                assert(decreases_to!(target => inner));
            }
            match from_value(val, &**inner) {
                Ok(t) => Ok(Typed::Newtype(Box::new(t))),
                Err(e) => Err(e),
            }
        },
        Shape::Record(fields) => match val {
            Value::Array(elems) => {
                if elems.len() == fields.len() {
                    proof {
                        assert(decreases_to!(val => elems));
                    }
                    match decode_fields_pos(elems, fields) {
                        Ok(ts) => Ok(Typed::Record(ts)),
                        Err(e) => Err(e),
                    }
                } else {
                    Err(Error::custom("invalid length: fewer elements in array"))
                }
            },
            Value::Mapping(pairs) => {
                proof {
                    assert(decreases_to!(val => pairs));
                }
                match decode_fields_map(pairs, fields) {
                    Ok(slots) => match unwrap_filled(slots) {
                        Ok(ts) => Ok(Typed::Record(ts)),
                        Err(e) => Err(e),
                    },
                    Err(e) => Err(e),
                }
            },
            other => Err(Error::Syntax(String::from_str("invalid type: expected an array or map, found ").concat(other.unexpected()))),
        },
        Shape::Enum(variants) => match val {
            Value::Array(elems) => {
                proof {
                    assert(decreases_to!(val => elems));
                }
                decode_enum(elems, variants)
            },
            other => Err(Error::Syntax(String::from_str("invalid type: expected array, map or int, found ").concat(other.unexpected()))),
        },
    }
}

/// Decodes every element of an array under one element shape.
#[verifier::loop_isolation(false)]
fn decode_list(elems: Vec<Value>, inner: &Shape) -> (r: Result<Vec<Typed>, Error>)
    ensures
        (match r {
            Ok(ts) => dec_list(dview_list(elems@), *inner) == Option::Some(typed_dview_list(ts@)),
            Err(_) => dec_list(dview_list(elems@), *inner) is None,
        }),
    decreases elems, inner,
{
    proof {
        lemma_dec_list(dview_list(elems@), *inner);
    }
    let ghost gelems = elems;
    let mut src = SeqDeserializer::new(elems);
    let mut out: Vec<Typed> = Vec::with_capacity(src.size_hint());
    while src.size_hint() > 0
        invariant
            out@.len() + src.elems@.len() == gelems@.len(),
            src.elems@ == gelems@.subrange(out@.len() as int, gelems@.len() as int),
            forall|i: int| 0 <= i < out@.len() ==> dec(gelems@[i].dview(), *inner) == Option::Some(out@[i].dview()),
        decreases src.elems@.len(),
    {
        let ghost k = out@.len() as int;
        let e = src.next().unwrap();
        proof {
            assert(e == gelems@[k]);
            assert(decreases_to!(gelems => gelems@));
            assert(decreases_to!(gelems@ => gelems@[k]));
            assert(src.elems@ =~= gelems@.subrange(k + 1, gelems@.len() as int));
        }
        match from_value(e, inner) {
            Ok(t) => out.push(t),
            Err(err) => {
                proof {
                    assert(dec(dview_list(gelems@)[k], *inner) is None);
                }
                return Err(err);
            },
        }
    }
    proof {
        let ge = dview_list(gelems@);
        assert forall|i: int| 0 <= i < ge.len() implies (#[trigger] dec(ge[i], *inner)) is Some by {
            assert(ge[i] == gelems@[i].dview());
        }
        assert(dec_list(ge, *inner) is Some);
        assert forall|i: int| 0 <= i < out@.len() implies typed_dview_list(out@)[i] == dec_list(ge, *inner).unwrap()[i] by {
            assert(dec(ge[i], *inner) == Option::Some(out@[i].dview()));
        }
        assert(typed_dview_list(out@) =~= dec_list(ge, *inner).unwrap());
    }
    Ok(out)
}

/// Decodes an array positionally: each element under its own shape.
#[verifier::loop_isolation(false)]
fn decode_tuple_elems(elems: Vec<Value>, shapes: &Vec<Shape>) -> (r: Result<Vec<Typed>, Error>)
    requires
        elems@.len() == shapes@.len(),
    ensures
        (match r {
            Ok(ts) => dec_zip(dview_list(elems@), shapes@) == Option::Some(typed_dview_list(ts@)),
            Err(_) => dec_zip(dview_list(elems@), shapes@) is None,
        }),
    decreases elems, Shape::Any,
{
    proof {
        lemma_dec_zip(dview_list(elems@), shapes@);
    }
    let ghost gelems = elems;
    let mut src = SeqDeserializer::new(elems);
    let mut out: Vec<Typed> = Vec::with_capacity(src.size_hint());
    while src.size_hint() > 0
        invariant
            out@.len() + src.elems@.len() == gelems@.len(),
            src.elems@ == gelems@.subrange(out@.len() as int, gelems@.len() as int),
            forall|i: int| 0 <= i < out@.len() ==> dec(gelems@[i].dview(), shapes@[i]) == Option::Some(out@[i].dview()),
        decreases src.elems@.len(),
    {
        let ghost k = out@.len() as int;
        let e = src.next().unwrap();
        proof {
            assert(e == gelems@[k]);
            assert(decreases_to!(gelems => gelems@));
            assert(decreases_to!(gelems@ => gelems@[k]));
            assert(src.elems@ =~= gelems@.subrange(k + 1, gelems@.len() as int));
        }
        let slot = out.len();
        match from_value(e, &shapes[slot]) {
            Ok(t) => out.push(t),
            Err(err) => {
                proof {
                    assert(dec(dview_list(gelems@)[k], shapes@[k]) is None);
                }
                return Err(err);
            },
        }
    }
    proof {
        let ge = dview_list(gelems@);
        assert forall|i: int| 0 <= i < ge.len() implies (#[trigger] dec(ge[i], shapes@[i])) is Some by {
            assert(ge[i] == gelems@[i].dview());
        }
        assert(dec_zip(ge, shapes@) is Some);
        assert forall|i: int| 0 <= i < out@.len() implies typed_dview_list(out@)[i] == dec_zip(ge, shapes@).unwrap()[i] by {
            assert(dec(ge[i], shapes@[i]) == Option::Some(out@[i].dview()));
        }
        assert(typed_dview_list(out@) =~= dec_zip(ge, shapes@).unwrap());
    }
    Ok(out)
}

/// Decodes an array positionally against a field list, in declared
/// field order.
#[verifier::loop_isolation(false)]
fn decode_fields_pos(elems: Vec<Value>, fields: &Vec<(String, Shape)>) -> (r: Result<Vec<Typed>, Error>)
    requires
        elems@.len() == fields@.len(),
    ensures
        (match r {
            Ok(ts) => dec_zip(dview_list(elems@), field_shapes(fields@)) == Option::Some(typed_dview_list(ts@)),
            Err(_) => dec_zip(dview_list(elems@), field_shapes(fields@)) is None,
        }),
    decreases elems, Shape::Any,
{
    proof {
        lemma_dec_zip(dview_list(elems@), field_shapes(fields@));
    }
    let ghost gelems = elems;
    let mut src = SeqDeserializer::new(elems);
    let mut out: Vec<Typed> = Vec::with_capacity(src.size_hint());
    while src.size_hint() > 0
        invariant
            out@.len() + src.elems@.len() == gelems@.len(),
            src.elems@ == gelems@.subrange(out@.len() as int, gelems@.len() as int),
            forall|i: int| 0 <= i < out@.len() ==> dec(gelems@[i].dview(), fields@[i].1) == Option::Some(out@[i].dview()),
        decreases src.elems@.len(),
    {
        let ghost k = out@.len() as int;
        let e = src.next().unwrap();
        proof {
            assert(e == gelems@[k]);
            assert(decreases_to!(gelems => gelems@));
            assert(decreases_to!(gelems@ => gelems@[k]));
            assert(src.elems@ =~= gelems@.subrange(k + 1, gelems@.len() as int));
        }
        let slot = out.len();
        let fld = &fields[slot];
        match from_value(e, &fld.1) {
            Ok(t) => out.push(t),
            Err(err) => {
                proof {
                    assert(dec(dview_list(gelems@)[k], field_shapes(fields@)[k]) is None);
                }
                return Err(err);
            },
        }
    }
    proof {
        let ge = dview_list(gelems@);
        let fs = field_shapes(fields@);
        assert forall|i: int| 0 <= i < ge.len() implies (#[trigger] dec(ge[i], fs[i])) is Some by {
            assert(ge[i] == gelems@[i].dview());
            assert(fs[i] == fields@[i].1);
        }
        assert(dec_zip(ge, fs) is Some);
        assert forall|i: int| 0 <= i < out@.len() implies typed_dview_list(out@)[i] == dec_zip(ge, fs).unwrap()[i] by {
            assert(dec(ge[i], fs[i]) == Option::Some(out@[i].dview()));
        }
        assert(typed_dview_list(out@) =~= dec_zip(ge, fs).unwrap());
    }
    Ok(out)
}

/// Decodes every pair of a mapping: keys under the key shape, values
/// under the value shape, in pair order.
#[verifier::loop_isolation(false)]
fn decode_pairs(pairs: Vec<(Value, Value)>, ks: &Shape, vs: &Shape) -> (r: Result<Vec<(Typed, Typed)>, Error>)
    ensures
        (match r {
            Ok(ts) => dec_pairs(dview_pairs(pairs@), *ks, *vs) == Option::Some(typed_dview_pairs(ts@)),
            Err(_) => dec_pairs(dview_pairs(pairs@), *ks, *vs) is None,
        }),
    decreases pairs, ks,
{
    proof {
        lemma_dec_pairs(dview_pairs(pairs@), *ks, *vs);
    }
    let ghost gpairs = pairs;
    let mut src = MapDeserializer::new(pairs);
    let mut out: Vec<(Typed, Typed)> = Vec::with_capacity(src.size_hint());
    while src.size_hint() > 0
        invariant
            src.val is None,
            out@.len() + src.pairs@.len() == gpairs@.len(),
            src.pairs@ == gpairs@.subrange(out@.len() as int, gpairs@.len() as int),
            forall|i: int| 0 <= i < out@.len()
                ==> dec(gpairs@[i].0.dview(), *ks) == Option::Some(out@[i].0.dview())
                && dec(gpairs@[i].1.dview(), *vs) == Option::Some(out@[i].1.dview()),
        decreases src.pairs@.len(),
    {
        let ghost k = out@.len() as int;
        let kv = src.next_key().unwrap();
        proof {
            assert(kv == gpairs@[k].0);
            assert(decreases_to!(gpairs => gpairs@));
            assert(decreases_to!(gpairs@ => gpairs@[k]));
            assert(decreases_to!(gpairs@[k] => gpairs@[k].0));
            assert(decreases_to!(gpairs@[k] => gpairs@[k].1));
            assert(src.pairs@ =~= gpairs@.subrange(k + 1, gpairs@.len() as int));
        }
        let kt = match from_value(kv, ks) {
            Ok(t) => t,
            Err(err) => {
                proof {
                    assert(dec(dview_pairs(gpairs@)[k].0, *ks) is None);
                }
                return Err(err);
            },
        };
        let vv = match src.next_value() {
            Ok(v) => v,
            Err(err) => {
                proof {
                    assert(false);
                }
                return Err(err);
            },
        };
        let vt = match from_value(vv, vs) {
            Ok(t) => t,
            Err(err) => {
                proof {
                    assert(dec(dview_pairs(gpairs@)[k].1, *vs) is None);
                }
                return Err(err);
            },
        };
        out.push((kt, vt));
    }
    proof {
        let gp = dview_pairs(gpairs@);
        assert forall|i: int| 0 <= i < gp.len() implies (#[trigger] dec(gp[i].0, *ks)) is Some
            && dec(gp[i].1, *vs) is Some by {
            assert(gp[i] == (gpairs@[i].0.dview(), gpairs@[i].1.dview()));
        }
        assert(dec_pairs(gp, *ks, *vs) is Some);
        assert forall|i: int| 0 <= i < out@.len() implies typed_dview_pairs(out@)[i] == dec_pairs(gp, *ks, *vs).unwrap()[i] by {
            assert(dec(gp[i].0, *ks) == Option::Some(out@[i].0.dview()));
            assert(dec(gp[i].1, *vs) == Option::Some(out@[i].1.dview()));
        }
        assert(typed_dview_pairs(out@) =~= dec_pairs(gp, *ks, *vs).unwrap());
    }
    Ok(out)
}

/// Finds the first field with the given name, in declared order.
#[verifier::loop_isolation(false)]
fn find_field(fields: &Vec<(String, Shape)>, name: &String) -> (r: Option<usize>)
    ensures
        (match r {
            Option::Some(j) => j < fields@.len() && find_name(fields@, name@) == Option::Some(j as int),
            Option::None => find_name(fields@, name@) is None,
        }),
{
    proof {
        lemma_find_name(fields@, name@);
    }
    let mut i: usize = 0;
    while i < fields.len()
        invariant
            0 <= i <= fields@.len(),
            forall|k: int| 0 <= k < i ==> (#[trigger] fields@[k]).0@ != name@,
        decreases fields@.len() - i,
    {
        let fld = &fields[i];
        if fld.0 == *name {
            return Option::Some(i);
        }
        i += 1;
    }
    Option::None
}


/// Fills record field slots from a mapping's pairs, via the map-source:
/// exactly [`dec_fields_map`] starting from empty slots.
#[verifier::loop_isolation(false)]
#[verifier::rlimit(30)]
fn decode_fields_map(pairs: Vec<(Value, Value)>, fields: &Vec<(String, Shape)>) -> (r: Result<Vec<Option<Typed>>, Error>)
    ensures
        (match r {
            Ok(slots) => dec_fields_map(dview_pairs(pairs@), fields@, empty_slots(fields@.len()))
                == Option::Some(slots_view(slots@)) && slots@.len() == fields@.len(),
            Err(_) => dec_fields_map(dview_pairs(pairs@), fields@, empty_slots(fields@.len())) is None,
        }),
    decreases pairs, Shape::Any,
{
    let ghost gpairs = pairs;
    let ghost init = empty_slots(fields@.len());
    let mut slots: Vec<Option<Typed>> = Vec::new();
    let mut fi: usize = 0;
    while fi < fields.len()
        invariant
            slots@.len() == fi as int,
            fi <= fields@.len(),
            forall|i: int| 0 <= i < fi ==> slots@[i] is None,
        decreases fields@.len() - fi,
    {
        slots.push(Option::None);
        fi += 1;
    }
    proof {
        assert(slots_view(slots@) =~= init);
    }
    let mut src = MapDeserializer::new(pairs);
    let ghost mut done: int = 0;
    while src.size_hint() > 0
        invariant
            src.val is None,
            slots@.len() == fields@.len(),
            0 <= done <= gpairs@.len(),
            src.pairs@ == gpairs@.subrange(done, gpairs@.len() as int),
            dec_fields_map(dview_pairs(gpairs@), fields@, init)
                == dec_fields_map(dview_pairs(src.pairs@), fields@, slots_view(slots@)),
        decreases src.pairs@.len(),
    {
        let ghost k = done;
        let ghost grest = src.pairs@;
        let ghost gslots = slots_view(slots@);
        let key = src.next_key().unwrap();
        proof {
            assert(key == gpairs@[k].0);
            assert(decreases_to!(gpairs => gpairs@));
            assert(decreases_to!(gpairs@ => gpairs@[k]));
            assert(decreases_to!(gpairs@[k] => gpairs@[k].1));
            assert(src.pairs@ =~= gpairs@.subrange(k + 1, gpairs@.len() as int));
            assert(dview_pairs(grest)[0] == (gpairs@[k].0.dview(), gpairs@[k].1.dview()));
            assert(dview_pairs(src.pairs@) =~= dview_pairs(grest).subrange(1, grest.len() as int));
        }
        match key {
            Value::Str(name) => {
                match find_field(fields, &name) {
                    Option::Some(j) => {
                        if slots[j].is_some() {
                            proof {
                                assert(gslots[j as int] is Some);
                                assert(dec_fields_map(dview_pairs(grest), fields@, gslots) is None);
                            }
                            return Err(Error::custom("duplicate field"));
                        }
                        let pv = match src.next_value() {
                            Ok(v) => v,
                            Err(err) => {
                                proof {
                                    assert(false);
                                }
                                return Err(err);
                            },
                        };
                        proof {
                            assert(pv == gpairs@[k].1);
                        }
                        let fld = &fields[j];
                        match from_value(pv, &fld.1) {
                            Ok(t) => {
                                let _prev = slots.remove(j);
                                slots.insert(j, Option::Some(t));
                                proof {
                                    assert(slots_view(slots@) =~= gslots.update(j as int, Option::Some(t.dview())));
                                    done = done + 1;
                                }
                            },
                            Err(err) => {
                                proof {
                                    assert(dec(dview_pairs(grest)[0].1, fields@[j as int].1) is None);
                                    assert(dec_fields_map(dview_pairs(grest), fields@, gslots) is None);
                                }
                                return Err(err);
                            },
                        }
                    },
                    Option::None => {
                        let _skipped = match src.next_value() {
                            Ok(v) => v,
                            Err(err) => {
                                proof {
                                    assert(false);
                                }
                                return Err(err);
                            },
                        };
                        proof {
                            done = done + 1;
                        }
                    },
                }
            },
            other => {
                proof {
                    assert(dec_fields_map(dview_pairs(grest), fields@, gslots) is None);
                }
                return Err(Error::Syntax(String::from_str("invalid type: a map key must be a string, found ").concat(other.unexpected())));
            },
        }
    }
    proof {
        assert(dview_pairs(src.pairs@) =~= Seq::<(SpecValue, SpecValue)>::empty());
        assert(dec_fields_map(dview_pairs(src.pairs@), fields@, slots_view(slots@)) == Option::Some(slots_view(slots@)));
    }
    Ok(slots)
}

/// Checks that every record field was filled and unwraps the slots into
/// field values, in declared order.
#[verifier::loop_isolation(false)]
fn unwrap_filled(slots: Vec<Option<Typed>>) -> (r: Result<Vec<Typed>, Error>)
    ensures
        (match r {
            Ok(ts) => all_filled(slots_view(slots@))
                && typed_dview_list(ts@) == unwrap_slots(slots_view(slots@)),
            Err(_) => !all_filled(slots_view(slots@)),
        }),
{
    let ghost gslots = slots;
    let mut rest = slots;
    let mut out: Vec<Typed> = Vec::new();
    while rest.len() > 0
        invariant
            out@.len() + rest@.len() == gslots@.len(),
            rest@ == gslots@.subrange(out@.len() as int, gslots@.len() as int),
            forall|i: int| 0 <= i < out@.len() ==> gslots@[i] is Some
                && out@[i].dview() == (#[trigger] gslots@[i]).unwrap().dview(),
        decreases rest@.len(),
    {
        let ghost k = out@.len() as int;
        match rest.remove(0) {
            Option::Some(t) => {
                proof {
                    assert(gslots@[k] == Option::Some(t));
                    assert(rest@ =~= gslots@.subrange(k + 1, gslots@.len() as int));
                }
                out.push(t);
            },
            Option::None => {
                proof {
                    assert(slots_view(gslots@)[k] is None);
                }
                return Err(Error::custom("missing field"));
            },
        }
    }
    proof {
        assert forall|i: int| 0 <= i < slots_view(gslots@).len() implies (#[trigger] slots_view(gslots@)[i]) is Some by {
            assert(gslots@[i] is Some);
        }
        assert forall|i: int| 0 <= i < out@.len() implies typed_dview_list(out@)[i] == unwrap_slots(slots_view(gslots@))[i] by {
            assert(slots_view(gslots@)[i] == Option::Some(gslots@[i].unwrap().dview()));
        }
        assert(typed_dview_list(out@) =~= unwrap_slots(slots_view(gslots@)));
    }
    Ok(out)
}

/// Decodes one enumeration value from the elements of the outer array:
/// exactly [`dec_enum`].
#[verifier::loop_isolation(false)]
#[verifier::rlimit(30)]
fn decode_enum(elems: Vec<Value>, variants: &Vec<VariantShape>) -> (r: Result<Typed, Error>)
    ensures
        (match r {
            Ok(t) => dec_enum(dview_list(elems@), variants@) == Option::Some(t@),
            Err(_) => dec_enum(dview_list(elems@), variants@) is None,
        }),
    decreases elems, Shape::Any,
{
    let ghost gelems = elems;
    let two = elems.len() == 2;
    if !(elems.len() == 1 || two) {
        return Err(Error::custom("invalid value: expected an array with one or two elements"));
    }
    let mut rest = elems;
    let first = rest.remove(0);
    proof {
        assert(first == gelems@[0]);
        assert(dview_list(gelems@)[0] == gelems@[0].dview());
    }
    let id = match decode_index(first) {
        Ok(id) => id,
        Err(e) => {
            return Err(e);
        },
    };
    if !((id as usize) < variants.len()) {
        return Err(Error::custom("invalid value: variant index out of range"));
    }
    let payload: Option<Value> = if rest.len() > 0 {
        let p = rest.remove(0);
        proof {
            assert(p == gelems@[1]);
            assert(dview_list(gelems@)[1] == gelems@[1].dview());
        }
        Option::Some(p)
    } else {
        Option::None
    };
    proof {
        assert(decreases_to!(gelems => gelems@));
        assert(decreases_to!(gelems@ => gelems@[0]));
        if two {
            assert(decreases_to!(gelems@ => gelems@[1]));
        }
    }
    match &variants[id as usize] {
        VariantShape::Unit => match payload {
            Option::None => Ok(Typed::Variant(id, VariantValue::Unit)),
            Option::Some(Value::Nil) => Ok(Typed::Variant(id, VariantValue::Unit)),
            Option::Some(Value::Array(xs)) => {
                if xs.len() == 0 {
                    Ok(Typed::Variant(id, VariantValue::Unit))
                } else {
                    proof {
                        assert(dec_enum(dview_list(gelems@), variants@) is None);
                    }
                    Err(Error::custom("invalid value: a payload for a unit variant"))
                }
            },
            Option::Some(other) => {
                proof {
                    assert(dec_enum(dview_list(gelems@), variants@) is None);
                }
                Err(Error::Syntax(String::from_str("invalid type: expected no payload, found ").concat(other.unexpected())))
            },
        },
        VariantShape::Newtype(inner) => match payload {
            Option::None => {
                proof {
                    assert(dec_enum(dview_list(gelems@), variants@) is None);
                }
                Err(Error::custom("invalid type: a newtype variant needs a payload"))
            },
            Option::Some(Value::Array(xs)) => {
                if xs.len() == 1 {
                    let ghost gxs = xs;
                    let mut xs2 = xs;
                    let x = xs2.remove(0);
                    proof {
                        assert(x == gxs@[0]);
                        assert(decreases_to!(gelems@[1] => gxs));
                        assert(decreases_to!(gxs => gxs@));
                        assert(decreases_to!(gxs@ => gxs@[0]));
                        assert(dview_list(gxs@)[0] == gxs@[0].dview());
                    }
                    match from_value(x, &**inner) {
                        Ok(t) => Ok(Typed::Variant(id, VariantValue::Newtype(Box::new(t)))),
                        Err(e) => Err(e),
                    }
                } else {
                    proof {
                        assert(dview_list(gelems@)[1] == SpecValue::Array(dview_list(xs@)));
                        assert(dview_list(xs@).len() == xs@.len());
                        assert(dec_enum(dview_list(gelems@), variants@) is None);
                    }
                    Err(Error::custom("invalid value: expected an array with one element"))
                }
            },
            Option::Some(p) => {
                proof {
                    assert(p == gelems@[1]);
                }
                match from_value(p, &**inner) {
                    Ok(t) => Ok(Typed::Variant(id, VariantValue::Newtype(Box::new(t)))),
                    Err(e) => Err(e),
                }
            },
        },
        VariantShape::Tuple(shapes) => match payload {
            Option::Some(Value::Array(xs)) => {
                if xs.len() == shapes.len() {
                    proof {
                        assert(decreases_to!(gelems@[1] => xs));
                    }
                    match decode_tuple_elems(xs, shapes) {
                        Ok(ts) => Ok(Typed::Variant(id, VariantValue::Tuple(ts))),
                        Err(e) => Err(e),
                    }
                } else {
                    proof {
                        assert(dview_list(gelems@)[1] == SpecValue::Array(dview_list(xs@)));
                        assert(dview_list(xs@).len() == xs@.len());
                        assert(dec_enum(dview_list(gelems@), variants@) is None);
                    }
                    Err(Error::custom("invalid length: fewer elements in array"))
                }
            },
            Option::Some(other) => {
                proof {
                    assert(dec_enum(dview_list(gelems@), variants@) is None);
                }
                Err(Error::Syntax(String::from_str("invalid type: expected a tuple variant payload, found ").concat(other.unexpected())))
            },
            Option::None => {
                proof {
                    assert(dec_enum(dview_list(gelems@), variants@) is None);
                }
                Err(Error::custom("invalid type: a tuple variant needs a payload"))
            },
        },
        VariantShape::Record(fields) => match payload {
            Option::Some(Value::Array(xs)) => {
                if xs.len() == fields.len() {
                    proof {
                        assert(decreases_to!(gelems@[1] => xs));
                    }
                    match decode_fields_pos(xs, fields) {
                        Ok(ts) => Ok(Typed::Variant(id, VariantValue::Record(ts))),
                        Err(e) => Err(e),
                    }
                } else {
                    proof {
                        assert(dview_list(gelems@)[1] == SpecValue::Array(dview_list(xs@)));
                        assert(dview_list(xs@).len() == xs@.len());
                        assert(dec_enum(dview_list(gelems@), variants@) is None);
                    }
                    Err(Error::custom("invalid length: fewer elements in array"))
                }
            },
            Option::Some(Value::Mapping(ps)) => {
                proof {
                    assert(decreases_to!(gelems@[1] => ps));
                }
                match decode_fields_map(ps, fields) {
                    Ok(slots) => match unwrap_filled(slots) {
                        Ok(ts) => Ok(Typed::Variant(id, VariantValue::Record(ts))),
                        Err(e) => Err(e),
                    },
                    Err(e) => Err(e),
                }
            },
            Option::Some(other) => {
                proof {
                    assert(dec_enum(dview_list(gelems@), variants@) is None);
                }
                Err(Error::Syntax(String::from_str("invalid type: expected a struct variant payload, found ").concat(other.unexpected())))
            },
            Option::None => {
                proof {
                    assert(dec_enum(dview_list(gelems@), variants@) is None);
                }
                Err(Error::custom("invalid type: a struct variant needs a payload"))
            },
        },
    }
}

/// Makes a `Value` act as a protocol-compliant data source: it carries
/// one value and builds one typed value from it, directed by a target
/// shape.
pub struct Deserializer {
    value: Value,
}

impl View for Deserializer {
    type V = SpecValue;

    closed spec fn view(&self) -> SpecValue {
        self.value.dview()
    }
}

impl Deserializer {
    /// Wraps a value as a single-use data source.
    pub fn new(value: Value) -> (d: Deserializer)
        ensures
            d@ == value@,
    {
        Deserializer { value }
    }

    /// Builds the typed value this source decodes to under the target
    /// shape: exactly [`dec`].
    pub fn deserialize(self, target: &Shape) -> (r: Result<Typed, Error>)
        ensures
            (match r {
                Ok(t) => dec(self@, *target) == Option::Some(t@),
                Err(_) => dec(self@, *target) is None,
            }),
    {
        from_value(self.value, target)
    }
}

} // verus!
