//! Static descriptions of target types.
//!
//! The reverse bridge is type-directed: what a `Value` tree may decode
//! into depends on the static shape of the target type, not only on the
//! tree's own tag.  A [`Shape`] is that static description, written as a
//! closed datatype: the explicit form of the type metadata that per-type
//! marshalling logic would otherwise carry.  Because a `Shape` is pure
//! metadata, contracts quantify over it directly.

use vstd::prelude::*;

verus! {

/// The static shape of a decode target.
#[derive(Debug, PartialEq)]
pub enum Shape {
    /// The target is itself dynamic: decoding yields a normalized
    /// [`crate::value::Value`] tree.
    Any,
    /// The unit (empty) target.
    Unit,
    /// A boolean target.
    Bool,
    /// An unsigned 64-bit integer target.
    UInt,
    /// A signed 64-bit integer target.
    SInt,
    /// A single-precision float target, carried as its bit pattern.
    F32,
    /// A double-precision float target, carried as its bit pattern.
    F64,
    /// A single-character target.
    Char,
    /// An owned-text target.
    Str,
    /// A byte-buffer target.
    Bytes,
    /// An optional target wrapping an inner shape.
    Optional(Box<Shape>),
    /// A variable-length homogeneous sequence target.
    List(Box<Shape>),
    /// A fixed-arity heterogeneous target: one shape per position.
    Tuple(Vec<Shape>),
    /// A homogeneous key-value target: key shape and value shape.
    Mapping(Box<Shape>, Box<Shape>),
    /// A newtype wrapper around an inner shape.
    Newtype(Box<Shape>),
    /// A record target: named fields in declared order.
    Record(Vec<(String, Shape)>),
    /// An enumeration target: its variants, in declared order.
    Enum(Vec<VariantShape>),
}

/// The four payload conventions an enumeration variant can have.
#[derive(Debug, PartialEq)]
pub enum VariantShape {
    /// No payload.
    Unit,
    /// Exactly one payload value.
    Newtype(Box<Shape>),
    /// A fixed number of positional payload values.
    Tuple(Vec<Shape>),
    /// Named payload fields in declared order.
    Record(Vec<(String, Shape)>),
}

} // verus!
