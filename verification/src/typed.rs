//! Typed in-memory data, as a closed tree.
//!
//! A [`Typed`] value is the explicit form of "a value that can marshal
//! itself": one node for every shape the marshalling protocol supports
//! (primitives, options, sequences, mappings, tuples, newtype wrappers,
//! records, and the four enumeration-variant payload conventions).  The
//! forward bridge lowers a `Typed` tree into a dynamic
//! [`crate::value::Value`]; the reverse bridge rebuilds one, directed by
//! a [`crate::shape::Shape`].

use vstd::prelude::*;
use crate::value::Value;
use crate::value::SpecValue;

verus! {

/// A typed in-memory value.
///
/// Integer widths below 64 bits differ only in range, so a single
/// unsigned and a single signed 64-bit node stand for all of them; the
/// float nodes carry IEEE-754 bit patterns, never interpreted here.
#[derive(Debug, PartialEq)]
pub enum Typed {
    /// The unit value.
    Unit,
    /// A boolean.
    Bool(bool),
    /// An unsigned integer.
    UInt(u64),
    /// A signed integer.
    SInt(i64),
    /// A single-precision float, as its IEEE-754 bit pattern.
    F32(u32),
    /// A double-precision float, as its IEEE-754 bit pattern.
    F64(u64),
    /// A single character.
    Char(char),
    /// Owned text.
    Str(String),
    /// An owned byte buffer.
    Bytes(Vec<u8>),
    /// An optional value: absent or present.
    Opt(Option<Box<Typed>>),
    /// A variable-length sequence.
    List(Vec<Typed>),
    /// A fixed-arity tuple.
    Tuple(Vec<Typed>),
    /// Ordered key-value pairs.
    Mapping(Vec<(Typed, Typed)>),
    /// A newtype wrapper.
    Newtype(Box<Typed>),
    /// A record: field values in declared field order.
    Record(Vec<Typed>),
    /// An enumeration value: 0-based variant index plus payload.
    Variant(u32, VariantValue),
    /// A dynamic value: the target was a `Value` tree itself.
    Dynamic(Value),
}

/// The payload of an enumeration value, in one of the four conventions.
#[derive(Debug, PartialEq)]
pub enum VariantValue {
    /// No payload.
    Unit,
    /// Exactly one payload value.
    Newtype(Box<Typed>),
    /// Positional payload values.
    Tuple(Vec<Typed>),
    /// Field values in declared field order.
    Record(Vec<Typed>),
}

/// The mathematical shape of a [`Typed`] tree.
#[verifier::ext_equal]
pub enum SpecTyped {
    Unit,
    Bool(bool),
    UInt(u64),
    SInt(i64),
    F32(u32),
    F64(u64),
    Char(char),
    Str(Seq<char>),
    Bytes(Seq<u8>),
    Opt(Option<Box<SpecTyped>>),
    List(Seq<SpecTyped>),
    Tuple(Seq<SpecTyped>),
    Mapping(Seq<(SpecTyped, SpecTyped)>),
    Newtype(Box<SpecTyped>),
    Record(Seq<SpecTyped>),
    Variant(u32, SpecVariantValue),
    Dynamic(SpecValue),
}

/// The mathematical shape of a [`VariantValue`].
#[verifier::ext_equal]
pub enum SpecVariantValue {
    Unit,
    Newtype(Box<SpecTyped>),
    Tuple(Seq<SpecTyped>),
    Record(Seq<SpecTyped>),
}

impl Typed {
    /// The mathematical value of this tree.
    pub open spec fn dview(self) -> SpecTyped
        decreases self, 1int,
    {
        match self {
            Typed::Unit => SpecTyped::Unit,
            Typed::Bool(b) => SpecTyped::Bool(b),
            Typed::UInt(n) => SpecTyped::UInt(n),
            Typed::SInt(n) => SpecTyped::SInt(n),
            Typed::F32(bits) => SpecTyped::F32(bits),
            Typed::F64(bits) => SpecTyped::F64(bits),
            Typed::Char(c) => SpecTyped::Char(c),
            Typed::Str(s) => SpecTyped::Str(s@),
            Typed::Bytes(b) => SpecTyped::Bytes(b@),
            Typed::Opt(o) => match o {
                Option::None => SpecTyped::Opt(Option::None),
                Option::Some(inner) => {
                    proof {
                        assert(decreases_to!(self => o));
                        assert(decreases_to!(o => inner));
                    }
                    SpecTyped::Opt(Option::Some(Box::new((*inner).dview())))
                },
            },
            Typed::List(elems) => {
                proof {
                    assert(decreases_to!(self => elems));
                    assert(decreases_to!(elems => elems@));
                }
                SpecTyped::List(typed_dview_list(elems@))
            },
            Typed::Tuple(elems) => {
                proof {
                    assert(decreases_to!(self => elems));
                    assert(decreases_to!(elems => elems@));
                }
                SpecTyped::Tuple(typed_dview_list(elems@))
            },
            Typed::Mapping(pairs) => {
                proof {
                    assert(decreases_to!(self => pairs));
                    assert(decreases_to!(pairs => pairs@));
                }
                SpecTyped::Mapping(typed_dview_pairs(pairs@))
            },
            Typed::Newtype(inner) => SpecTyped::Newtype(Box::new((*inner).dview())),
            Typed::Record(fields) => {
                proof {
                    assert(decreases_to!(self => fields));
                    assert(decreases_to!(fields => fields@));
                }
                SpecTyped::Record(typed_dview_list(fields@))
            },
            Typed::Variant(id, data) => SpecTyped::Variant(id, data.dview()),
            Typed::Dynamic(v) => SpecTyped::Dynamic(v.dview()),
        }
    }
}

impl View for Typed {
    type V = SpecTyped;

    open spec fn view(&self) -> SpecTyped {
        self.dview()
    }
}

impl VariantValue {
    /// The mathematical value of this payload.
    pub open spec fn dview(self) -> SpecVariantValue
        decreases self, 1int,
    {
        match self {
            VariantValue::Unit => SpecVariantValue::Unit,
            VariantValue::Newtype(inner) => SpecVariantValue::Newtype(Box::new((*inner).dview())),
            VariantValue::Tuple(elems) => {
                proof {
                    assert(decreases_to!(self => elems));
                    assert(decreases_to!(elems => elems@));
                }
                SpecVariantValue::Tuple(typed_dview_list(elems@))
            },
            VariantValue::Record(fields) => {
                proof {
                    assert(decreases_to!(self => fields));
                    assert(decreases_to!(fields => fields@));
                }
                SpecVariantValue::Record(typed_dview_list(fields@))
            },
        }
    }
}

impl View for VariantValue {
    type V = SpecVariantValue;

    open spec fn view(&self) -> SpecVariantValue {
        self.dview()
    }
}

/// The mathematical value of a sequence of typed trees, element by element.
pub open spec fn typed_dview_list(elems: Seq<Typed>) -> Seq<SpecTyped>
    decreases elems, 0int,
{
    if elems.len() == 0 {
        Seq::empty()
    } else {
        seq![elems[0].dview()] + typed_dview_list(elems.subrange(1, elems.len() as int))
    }
}

/// The mathematical value of a sequence of typed pairs, pair by pair.
pub open spec fn typed_dview_pairs(pairs: Seq<(Typed, Typed)>) -> Seq<(SpecTyped, SpecTyped)>
    decreases pairs, 0int,
{
    if pairs.len() == 0 {
        Seq::empty()
    } else {
        proof {
            assert(decreases_to!(pairs => pairs[0]));
        }
        seq![(pairs[0].0.dview(), pairs[0].1.dview())] + typed_dview_pairs(pairs.subrange(1, pairs.len() as int))
    }
}

/// How [`typed_dview_list`] acts on each index.
pub broadcast proof fn lemma_typed_dview_list(elems: Seq<Typed>)
    ensures
        (#[trigger] typed_dview_list(elems)).len() == elems.len(),
        forall|i: int| 0 <= i < elems.len() ==> typed_dview_list(elems)[i] == elems[i].dview(),
    decreases elems.len(),
{
    if elems.len() > 0 {
        lemma_typed_dview_list(elems.subrange(1, elems.len() as int));
    }
}

/// How [`typed_dview_pairs`] acts on each index.
pub broadcast proof fn lemma_typed_dview_pairs(pairs: Seq<(Typed, Typed)>)
    ensures
        (#[trigger] typed_dview_pairs(pairs)).len() == pairs.len(),
        forall|i: int| 0 <= i < pairs.len() ==> typed_dview_pairs(pairs)[i] == (pairs[i].0.dview(), pairs[i].1.dview()),
    decreases pairs.len(),
{
    if pairs.len() > 0 {
        lemma_typed_dview_pairs(pairs.subrange(1, pairs.len() as int));
    }
}


/// How a [`Typed::Variant`] node views: the index kept, the payload
/// viewed.  Stated apart because the two levels belong to one mutually
/// recursive definition.
pub broadcast proof fn lemma_variant_dview(id: u32, data: VariantValue)
    ensures
        (#[trigger] Typed::Variant(id, data).dview()) == SpecTyped::Variant(id, data.dview()),
{
    reveal_with_fuel(Typed::dview, 2);
}

} // verus!
