//! The dynamic value model: a closed tagged union able to represent any
//! datum of the interchange format, plus its mathematical mirror.

use vstd::prelude::*;

verus! {

/// A dynamic, self-describing value of the interchange format: the tree
/// form that the external wire codec reads from and writes to bytes.
///
/// Two deliberate representation choices:
/// - Integers are split by sign bucket: `U64` holds zero and positive
///   values, `I64` is meant for negative ones.  The bridges normalize
///   every nonnegative integer into `U64`; only negatives use `I64`.
/// - The float variants carry the raw IEEE-754 bit pattern (`u32` for
///   single, `u64` for double precision).  This core never interprets
///   the numeric value: it carries the bits through unchanged, which is
///   exactly the fidelity the wire codec needs.
///
/// `Mapping` is an ordered pair list, not a hash structure: pair order
/// is significant for equality, and duplicate keys are legal.
///
/// Because the floats are carried as bit patterns, equality and ordering
/// are total: both derive structurally, ordering by tag first and then
/// by contents.  Neither is read by verified code; contracts speak of
/// [`Value::dview`] instead.
#[derive(Debug, PartialEq, Eq, PartialOrd, Ord)]
pub enum Value {
    /// The absent value.
    Nil,
    /// A boolean.
    Boolean(bool),
    /// A signed 64-bit integer; normalized trees keep only negatives here.
    I64(i64),
    /// An unsigned 64-bit integer: zero and positive values.
    U64(u64),
    /// A single-precision float, as its IEEE-754 bit pattern.
    F32(u32),
    /// A double-precision float, as its IEEE-754 bit pattern.
    F64(u64),
    /// Owned UTF-8 text.
    Str(String),
    /// An owned raw byte buffer.
    Bin(Vec<u8>),
    /// An ordered sequence of values.
    Array(Vec<Value>),
    /// Ordered key-value pairs: order-preserving, duplicate keys legal.
    Mapping(Vec<(Value, Value)>),
    /// An extension datum: an 8-bit signed type tag plus raw bytes.
    Ext(i8, Vec<u8>),
}

/// The mathematical shape of a [`Value`] tree: what every contract in
/// this crate speaks about.  Vectors become sequences and text becomes
/// a character sequence; the tag structure is otherwise identical.
#[verifier::ext_equal]
pub enum SpecValue {
    Nil,
    Boolean(bool),
    I64(i64),
    U64(u64),
    F32(u32),
    F64(u64),
    Str(Seq<char>),
    Bin(Seq<u8>),
    Array(Seq<SpecValue>),
    Mapping(Seq<(SpecValue, SpecValue)>),
    Ext(i8, Seq<u8>),
}

impl Value {
    /// The mathematical value of this tree.
    pub open spec fn dview(self) -> SpecValue
        decreases self, 0int,
    {
        match self {
            Value::Nil => SpecValue::Nil,
            Value::Boolean(b) => SpecValue::Boolean(b),
            Value::I64(n) => SpecValue::I64(n),
            Value::U64(n) => SpecValue::U64(n),
            Value::F32(bits) => SpecValue::F32(bits),
            Value::F64(bits) => SpecValue::F64(bits),
            Value::Str(s) => SpecValue::Str(s@),
            Value::Bin(b) => SpecValue::Bin(b@),
            Value::Array(elems) => {
                proof {
                    assert(decreases_to!(self => elems));
                    assert(decreases_to!(elems => elems@));
                }
                SpecValue::Array(dview_list(elems@))
            },
            Value::Mapping(pairs) => {
                proof {
                    assert(decreases_to!(self => pairs));
                    assert(decreases_to!(pairs => pairs@));
                }
                SpecValue::Mapping(dview_pairs(pairs@))
            },
            Value::Ext(tag, data) => SpecValue::Ext(tag, data@),
        }
    }
}

impl View for Value {
    type V = SpecValue;

    open spec fn view(&self) -> SpecValue {
        self.dview()
    }
}

/// The mathematical value of a sequence of trees, element by element.
pub open spec fn dview_list(elems: Seq<Value>) -> Seq<SpecValue>
    decreases elems, 1int,
{
    if elems.len() == 0 {
        Seq::empty()
    } else {
        seq![elems[0].dview()] + dview_list(elems.subrange(1, elems.len() as int))
    }
}

/// The mathematical value of a sequence of tree pairs, pair by pair.
pub open spec fn dview_pairs(pairs: Seq<(Value, Value)>) -> Seq<(SpecValue, SpecValue)>
    decreases pairs, 1int,
{
    if pairs.len() == 0 {
        Seq::empty()
    } else {
        proof {
            assert(decreases_to!(pairs => pairs[0]));
        }
        seq![(pairs[0].0.dview(), pairs[0].1.dview())] + dview_pairs(pairs.subrange(1, pairs.len() as int))
    }
}

/// How [`dview_list`] acts on each index: it maps [`Value::dview`] over
/// the sequence.
pub broadcast proof fn lemma_dview_list(elems: Seq<Value>)
    ensures
        (#[trigger] dview_list(elems)).len() == elems.len(),
        forall|i: int| 0 <= i < elems.len() ==> dview_list(elems)[i] == elems[i].dview(),
    decreases elems.len(),
{
    if elems.len() > 0 {
        lemma_dview_list(elems.subrange(1, elems.len() as int));
    }
}

/// How [`dview_pairs`] acts on each index: it maps [`Value::dview`] over
/// both components of every pair.
pub broadcast proof fn lemma_dview_pairs(pairs: Seq<(Value, Value)>)
    ensures
        (#[trigger] dview_pairs(pairs)).len() == pairs.len(),
        forall|i: int| 0 <= i < pairs.len() ==> dview_pairs(pairs)[i] == (pairs[i].0.dview(), pairs[i].1.dview()),
    decreases pairs.len(),
{
    if pairs.len() > 0 {
        lemma_dview_pairs(pairs.subrange(1, pairs.len() as int));
    }
}

} // verus!
