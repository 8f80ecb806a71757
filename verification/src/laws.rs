//! The laws relating the two bridges.
//!
//! [`wf`] says when a typed tree is well-formed for a target shape: it
//! matches the shape and avoids the representational collapses that make
//! inversion impossible (a present option whose payload encodes to the
//! absent value, and a dynamic tree that is not in normal form).  On
//! well-formed trees the bridges are mutually inverse:
//! [`lemma_encode_then_decode`] and [`lemma_decode_then_encode`].

use vstd::prelude::*;
use crate::de::dec;
use crate::de::dec_enum;
use crate::de::dec_index;
use crate::de::dec_list;
use crate::de::dec_pairs;
use crate::de::dec_zip;
use crate::de::field_shapes;
use crate::de::lemma_dec_list;
use crate::de::lemma_dec_pairs;
use crate::de::lemma_dec_zip;
use crate::de::lemma_norm_dec_list;
use crate::de::lemma_norm_dec_pairs;
use crate::de::norm_dec;
use crate::de::norm_dec_list;
use crate::de::norm_dec_pairs;
use crate::ser::enc;
use crate::ser::enc_list;
use crate::ser::enc_pairs;
use crate::ser::lemma_enc_list;
use crate::ser::lemma_enc_pairs;
use crate::ser::lemma_norm_enc_list;
use crate::ser::lemma_norm_enc_pairs;
use crate::ser::norm_enc;
use crate::ser::norm_enc_list;
use crate::ser::norm_enc_pairs;
use crate::shape::Shape;
use crate::shape::VariantShape;
use crate::typed::SpecTyped;
use crate::typed::SpecVariantValue;
use crate::value::SpecValue;

verus! {

broadcast use lemma_enc_list, lemma_enc_pairs, lemma_norm_enc_list, lemma_norm_enc_pairs;

/// Whether a typed tree is well-formed for a target shape: it matches
/// the shape, an enumeration index names an existing variant, a present
/// option's payload does not encode to the absent value, and a dynamic
/// tree is in normal form.  Exactly the trees on which decode inverts
/// encode.
pub open spec fn wf(t: SpecTyped, s: Shape) -> bool
    decreases t, s,
{
    match (t, s) {
        (SpecTyped::Unit, Shape::Unit) => true,
        (SpecTyped::Bool(_), Shape::Bool) => true,
        (SpecTyped::UInt(_), Shape::UInt) => true,
        (SpecTyped::SInt(_), Shape::SInt) => true,
        (SpecTyped::F32(_), Shape::F32) => true,
        (SpecTyped::F64(_), Shape::F64) => true,
        (SpecTyped::Char(_), Shape::Char) => true,
        (SpecTyped::Str(_), Shape::Str) => true,
        (SpecTyped::Bytes(_), Shape::Bytes) => true,
        (SpecTyped::Opt(o), Shape::Optional(inner)) => match o {
            Option::None => true,
            Option::Some(bt) => wf(*bt, *inner) && enc(*bt) != SpecValue::Nil,
        },
        (SpecTyped::List(ts), Shape::List(inner)) => forall|i: int| 0 <= i < ts.len()
            ==> wf(#[trigger] ts[i], *inner),
        (SpecTyped::Tuple(ts), Shape::Tuple(shapes)) => ts.len() == shapes@.len()
            && forall|i: int| 0 <= i < ts.len() ==> wf(#[trigger] ts[i], shapes@[i]),
        (SpecTyped::Mapping(ps), Shape::Mapping(ks, vs)) => forall|i: int| 0 <= i < ps.len()
            ==> wf((#[trigger] ps[i]).0, *ks) && wf(ps[i].1, *vs),
        (SpecTyped::Newtype(bt), Shape::Newtype(inner)) => wf(*bt, *inner),
        (SpecTyped::Record(ts), Shape::Record(fields)) => ts.len() == fields@.len()
            && forall|i: int| 0 <= i < ts.len() ==> wf(#[trigger] ts[i], fields@[i].1),
        (SpecTyped::Variant(id, data), Shape::Enum(variants)) => (id as int) < variants@.len()
            && match (data, variants@[id as int]) {
                (SpecVariantValue::Unit, VariantShape::Unit) => true,
                (SpecVariantValue::Newtype(bt), VariantShape::Newtype(inner)) => wf(*bt, *inner),
                (SpecVariantValue::Tuple(ts), VariantShape::Tuple(shapes)) => ts.len() == shapes@.len()
                    && forall|i: int| 0 <= i < ts.len() ==> wf(#[trigger] ts[i], shapes@[i]),
                (SpecVariantValue::Record(ts), VariantShape::Record(fields)) => ts.len() == fields@.len()
                    && forall|i: int| 0 <= i < ts.len() ==> wf(#[trigger] ts[i], fields@[i].1),
                _ => false,
            },
        (SpecTyped::Dynamic(w), Shape::Any) => norm_dec(w) == Option::Some(w),
        _ => false,
    }
}

/// A tree in normal form is its own normalization on the forward side
/// too: the sink changes nothing about it.
pub proof fn lemma_norm_fixed(w: SpecValue)
    requires
        norm_dec(w) == Option::Some(w),
    ensures
        norm_enc(w) == w,
    decreases w,
{
    match w {
        SpecValue::Array(elems) => {
            lemma_norm_dec_list(elems);
            assert forall|i: int| 0 <= i < elems.len() implies #[trigger] norm_enc(elems[i]) == elems[i] by {
                assert(norm_dec(elems[i]) is Some);
                assert(norm_dec_list(elems).unwrap() == elems);
                assert(norm_dec_list(elems).unwrap()[i] == norm_dec(elems[i]).unwrap());
                lemma_norm_fixed(elems[i]);
            }
            assert(norm_enc_list(elems) =~= elems);
        },
        SpecValue::Mapping(pairs) => {
            lemma_norm_dec_pairs(pairs);
            assert forall|i: int| 0 <= i < pairs.len() implies #[trigger] norm_enc(pairs[i].0) == pairs[i].0
                && norm_enc(pairs[i].1) == pairs[i].1 by {
                assert(norm_dec(pairs[i].0) is Some && norm_dec(pairs[i].1) is Some);
                assert(norm_dec_pairs(pairs).unwrap() == pairs);
                assert(norm_dec_pairs(pairs).unwrap()[i] == (norm_dec(pairs[i].0).unwrap(), norm_dec(pairs[i].1).unwrap()));
                lemma_norm_fixed(pairs[i].0);
                lemma_norm_fixed(pairs[i].1);
            }
            assert forall|i: int| 0 <= i < pairs.len() implies #[trigger] norm_enc_pairs(pairs)[i] == pairs[i] by {
            }
            assert(norm_enc_pairs(pairs) =~= pairs);
        },
        _ => {},
    }
}

/// Encode-then-decode: on every typed tree well-formed for a target
/// shape, the reverse bridge inverts the forward bridge exactly.
#[verifier::rlimit(30)]
pub proof fn lemma_encode_then_decode(t: SpecTyped, s: Shape)
    requires
        wf(t, s),
    ensures
        dec(enc(t), s) == Option::Some(t),
    decreases t, s,
{
    match (t, s) {
        (SpecTyped::Opt(o), Shape::Optional(inner)) => match o {
            Option::None => {},
            Option::Some(bt) => {
                lemma_encode_then_decode(*bt, *inner);
            },
        },
        (SpecTyped::List(ts), Shape::List(inner)) => {
            assert forall|i: int| 0 <= i < enc_list(ts).len() implies (#[trigger] dec(enc_list(ts)[i], *inner))
                == Option::Some(ts[i]) by {
                lemma_encode_then_decode(ts[i], *inner);
            }
            lemma_dec_list(enc_list(ts), *inner);
            assert(dec_list(enc_list(ts), *inner) is Some);
            assert forall|i: int| 0 <= i < ts.len() implies dec_list(enc_list(ts), *inner).unwrap()[i] == ts[i] by {
                assert(dec(enc_list(ts)[i], *inner) == Option::Some(ts[i]));
            }
            assert(dec_list(enc_list(ts), *inner).unwrap() =~= ts);
        },
        (SpecTyped::Tuple(ts), Shape::Tuple(shapes)) => {
            assert forall|i: int| 0 <= i < enc_list(ts).len() implies (#[trigger] dec(enc_list(ts)[i], shapes@[i]))
                == Option::Some(ts[i]) by {
                lemma_encode_then_decode(ts[i], shapes@[i]);
            }
            lemma_dec_zip(enc_list(ts), shapes@);
            assert(dec_zip(enc_list(ts), shapes@) is Some);
            assert forall|i: int| 0 <= i < ts.len() implies dec_zip(enc_list(ts), shapes@).unwrap()[i] == ts[i] by {
                assert(dec(enc_list(ts)[i], shapes@[i]) == Option::Some(ts[i]));
            }
            assert(dec_zip(enc_list(ts), shapes@).unwrap() =~= ts);
        },
        (SpecTyped::Mapping(ps), Shape::Mapping(ks, vs)) => {
            assert forall|i: int| 0 <= i < enc_pairs(ps).len() implies (#[trigger] dec(enc_pairs(ps)[i].0, *ks))
                == Option::Some(ps[i].0) && dec(enc_pairs(ps)[i].1, *vs) == Option::Some(ps[i].1) by {
                lemma_encode_then_decode(ps[i].0, *ks);
                lemma_encode_then_decode(ps[i].1, *vs);
            }
            lemma_dec_pairs(enc_pairs(ps), *ks, *vs);
            assert(dec_pairs(enc_pairs(ps), *ks, *vs) is Some);
            assert forall|i: int| 0 <= i < ps.len() implies dec_pairs(enc_pairs(ps), *ks, *vs).unwrap()[i] == ps[i] by {
                assert(dec(enc_pairs(ps)[i].0, *ks) == Option::Some(ps[i].0));
                assert(dec(enc_pairs(ps)[i].1, *vs) == Option::Some(ps[i].1));
            }
            assert(dec_pairs(enc_pairs(ps), *ks, *vs).unwrap() =~= ps);
        },
        (SpecTyped::Newtype(bt), Shape::Newtype(inner)) => {
            lemma_encode_then_decode(*bt, *inner);
        },
        (SpecTyped::Record(ts), Shape::Record(fields)) => {
            assert forall|i: int| 0 <= i < enc_list(ts).len() implies (#[trigger] dec(enc_list(ts)[i], field_shapes(fields@)[i]))
                == Option::Some(ts[i]) by {
                lemma_encode_then_decode(ts[i], fields@[i].1);
            }
            lemma_dec_zip(enc_list(ts), field_shapes(fields@));
            assert(dec_zip(enc_list(ts), field_shapes(fields@)) is Some);
            assert forall|i: int| 0 <= i < ts.len() implies dec_zip(enc_list(ts), field_shapes(fields@)).unwrap()[i] == ts[i] by {
                assert(dec(enc_list(ts)[i], field_shapes(fields@)[i]) == Option::Some(ts[i]));
            }
            assert(dec_zip(enc_list(ts), field_shapes(fields@)).unwrap() =~= ts);
        },
        (SpecTyped::Variant(id, data), Shape::Enum(variants)) => {
            lemma_variant_round_trip(id, data, variants);
        },
        (SpecTyped::Dynamic(w), Shape::Any) => {
            lemma_norm_fixed(w);
        },
        _ => {},
    }
}

/// The enumeration case of the round trip: an encoded variant decodes
/// back to the same index and payload.
proof fn lemma_variant_round_trip(id: u32, data: SpecVariantValue, variants: Vec<VariantShape>)
    requires
        wf(SpecTyped::Variant(id, data), Shape::Enum(variants)),
    ensures
        dec(enc(SpecTyped::Variant(id, data)), Shape::Enum(variants)) == Option::Some(SpecTyped::Variant(id, data)),
    decreases data,
{
    assert(dec_index(SpecValue::U64(id as u64)) == Option::Some(id));
    match (data, variants@[id as int]) {
        (SpecVariantValue::Unit, VariantShape::Unit) => {
            let elems = seq![SpecValue::U64(id as u64)];
            assert(dec_enum(elems, variants@) == Option::Some(SpecTyped::Variant(id, SpecVariantValue::Unit)));
        },
        (SpecVariantValue::Newtype(bt), VariantShape::Newtype(inner)) => {
            lemma_encode_then_decode(*bt, *inner);
            let payload = SpecValue::Array(seq![enc(*bt)]);
            let elems = seq![SpecValue::U64(id as u64), payload];
            assert(dec_enum(elems, variants@) == Option::Some(SpecTyped::Variant(id, data)));
        },
        (SpecVariantValue::Tuple(ts), VariantShape::Tuple(shapes)) => {
            assert forall|i: int| 0 <= i < enc_list(ts).len() implies (#[trigger] dec(enc_list(ts)[i], shapes@[i]))
                == Option::Some(ts[i]) by {
                lemma_encode_then_decode(ts[i], shapes@[i]);
            }
            lemma_dec_zip(enc_list(ts), shapes@);
            assert(dec_zip(enc_list(ts), shapes@) is Some);
            assert forall|i: int| 0 <= i < ts.len() implies dec_zip(enc_list(ts), shapes@).unwrap()[i] == ts[i] by {
                assert(dec(enc_list(ts)[i], shapes@[i]) == Option::Some(ts[i]));
            }
            assert(dec_zip(enc_list(ts), shapes@).unwrap() =~= ts);
            let elems = seq![SpecValue::U64(id as u64), SpecValue::Array(enc_list(ts))];
            assert(dec_enum(elems, variants@) == Option::Some(SpecTyped::Variant(id, data)));
        },
        (SpecVariantValue::Record(ts), VariantShape::Record(fields)) => {
            assert forall|i: int| 0 <= i < enc_list(ts).len() implies (#[trigger] dec(enc_list(ts)[i], field_shapes(fields@)[i]))
                == Option::Some(ts[i]) by {
                lemma_encode_then_decode(ts[i], fields@[i].1);
            }
            lemma_dec_zip(enc_list(ts), field_shapes(fields@));
            assert(dec_zip(enc_list(ts), field_shapes(fields@)) is Some);
            assert forall|i: int| 0 <= i < ts.len() implies dec_zip(enc_list(ts), field_shapes(fields@)).unwrap()[i] == ts[i] by {
                assert(dec(enc_list(ts)[i], field_shapes(fields@)[i]) == Option::Some(ts[i]));
            }
            assert(dec_zip(enc_list(ts), field_shapes(fields@)).unwrap() =~= ts);
            let elems = seq![SpecValue::U64(id as u64), SpecValue::Array(enc_list(ts))];
            assert(dec_enum(elems, variants@) == Option::Some(SpecTyped::Variant(id, data)));
        },
        _ => {
            assert(false);
        },
    }
}

/// Decode-then-encode: on the canonical image (a tree that some
/// well-formed typed value encodes to), decoding and re-encoding give
/// back the same tree.
pub proof fn lemma_decode_then_encode(v: SpecValue, s: Shape, t: SpecTyped)
    requires
        wf(t, s),
        enc(t) == v,
    ensures
        dec(v, s) == Option::Some(t),
        enc(dec(v, s).unwrap()) == v,
{
    lemma_encode_then_decode(t, s);
}

/// Sign bucketing, on both bridges: a nonnegative integer is always
/// represented unsigned, only negatives use the signed form, and the
/// dynamic-target decode normalizes a misplaced nonnegative integer
/// into the unsigned bucket.
pub proof fn lemma_sign_bucketing(n: i64, u: u64)
    ensures
        n < 0 ==> enc(SpecTyped::SInt(n)) == SpecValue::I64(n),
        n >= 0 ==> enc(SpecTyped::SInt(n)) == SpecValue::U64(n as u64),
        enc(SpecTyped::UInt(u)) == SpecValue::U64(u),
        n < 0 ==> norm_dec(SpecValue::I64(n)) == Option::Some(SpecValue::I64(n)),
        n >= 0 ==> norm_dec(SpecValue::I64(n)) == Option::Some(SpecValue::U64(n as u64)),
        norm_dec(SpecValue::U64(u)) == Option::Some(SpecValue::U64(u)),
{
}

/// Mapping equality is pair-order-sensitive: two mappings with pair
/// lists that differ (even only in order) are different values.
pub proof fn lemma_map_order_sensitive(p: Seq<(SpecValue, SpecValue)>, q: Seq<(SpecValue, SpecValue)>)
    requires
        p != q,
    ensures
        SpecValue::Mapping(p) != SpecValue::Mapping(q),
{
}

/// The round trip of a key-value mapping preserves the original pair
/// order: the forward bridge emits the pairs in order and the reverse
/// bridge returns them in order.
pub proof fn lemma_map_round_trip_preserves_order(ps: Seq<(SpecTyped, SpecTyped)>, ks: Shape, vs: Shape)
    requires
        wf(SpecTyped::Mapping(ps), Shape::Mapping(Box::new(ks), Box::new(vs))),
    ensures
        enc(SpecTyped::Mapping(ps)) == SpecValue::Mapping(enc_pairs(ps)),
        enc_pairs(ps).len() == ps.len(),
        forall|i: int| 0 <= i < ps.len() ==> enc_pairs(ps)[i] == ((#[trigger] enc(ps[i].0)), enc(ps[i].1)),
        dec(SpecValue::Mapping(enc_pairs(ps)), Shape::Mapping(Box::new(ks), Box::new(vs)))
            == Option::Some(SpecTyped::Mapping(ps)),
{
    lemma_encode_then_decode(SpecTyped::Mapping(ps), Shape::Mapping(Box::new(ks), Box::new(vs)));
}

/// Length enforcement: a fixed-arity target rejects an array of any
/// other length, while a variable-length target never fails on length:
/// it succeeds as soon as every element decodes.
pub proof fn lemma_length_enforcement(elems: Seq<SpecValue>, shapes: Vec<Shape>, inner: Shape)
    ensures
        elems.len() != shapes@.len() ==> dec(SpecValue::Array(elems), Shape::Tuple(shapes)) is None,
        (forall|i: int| 0 <= i < elems.len() ==> (#[trigger] dec(elems[i], inner)) is Some)
            ==> dec(SpecValue::Array(elems), Shape::List(Box::new(inner))) is Some,
{
    lemma_dec_list(elems, inner);
}

/// Option collapse: the absent value decodes into an optional target as
/// "absent"; any other value decodes as "present", wrapping the inner
/// decode of the same value.
pub proof fn lemma_option_collapse(v: SpecValue, inner: Shape)
    ensures
        dec(SpecValue::Nil, Shape::Optional(Box::new(inner))) == Option::Some(SpecTyped::Opt(Option::<Box<SpecTyped>>::None)),
        v != SpecValue::Nil ==> dec(v, Shape::Optional(Box::new(inner))) == (match dec(v, inner) {
            Option::Some(t) => Option::Some(SpecTyped::Opt(Option::Some(Box::new(t)))),
            Option::None => Option::<SpecTyped>::None,
        }),
{
}

/// Binary fidelity: a byte buffer decodes into a byte-buffer target as
/// exactly those bytes, an integer array never does, and the forward
/// bridge emits bytes as a byte buffer, never as a sequence of integers.
pub proof fn lemma_binary_fidelity(b: Seq<u8>, elems: Seq<SpecValue>)
    ensures
        dec(SpecValue::Bin(b), Shape::Bytes) == Option::Some(SpecTyped::Bytes(b)),
        enc(SpecTyped::Bytes(b)) == SpecValue::Bin(b),
        dec(SpecValue::Array(elems), Shape::Bytes) is None,
{
}

/// Payload-free variant tolerance: an absent payload, the absent value
/// and an empty array all decode to the same payload-free variant.
pub proof fn lemma_unit_variant_tolerance(id: u32, variants: Vec<VariantShape>)
    requires
        (id as int) < variants@.len() ==> variants@[id as int] is Unit,
    ensures
        dec_enum(seq![SpecValue::U64(id as u64)], variants@)
            == dec_enum(seq![SpecValue::U64(id as u64), SpecValue::Nil], variants@),
        dec_enum(seq![SpecValue::U64(id as u64)], variants@)
            == dec_enum(seq![SpecValue::U64(id as u64), SpecValue::Array(Seq::empty())], variants@),
{
    assert(dec_index(SpecValue::U64(id as u64)) == Option::Some(id));
}

/// One-value variant tolerance: for a one-value variant, a non-array
/// payload and the same payload wrapped in a one-element array decode
/// alike.
pub proof fn lemma_newtype_variant_tolerance(id: u32, p: SpecValue, variants: Vec<VariantShape>)
    requires
        (id as int) < variants@.len(),
        variants@[id as int] is Newtype,
        !(p is Array),
    ensures
        dec_enum(seq![SpecValue::U64(id as u64), p], variants@)
            == dec_enum(seq![SpecValue::U64(id as u64), SpecValue::Array(seq![p])], variants@),
{
    assert(dec_index(SpecValue::U64(id as u64)) == Option::Some(id));
}

} // verus!
