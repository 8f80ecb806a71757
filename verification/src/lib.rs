//! A dynamic, self-describing value model for a compact binary
//! interchange format, together with a verified bidirectional bridge
//! between that model and strongly-typed in-memory data.
//!
//! The [`value::Value`] tree is what the byte-level wire codec (an
//! external component) produces and consumes.  The forward bridge
//! ([`ser::to_value`]) lowers a typed value into a `Value` tree; the
//! reverse bridge ([`de::from_value`]) rebuilds a typed value from a
//! `Value` tree, directed by a [`shape::Shape`] describing the target
//! type.  Both directions are specified by the spec-level functions
//! [`ser::enc`] and [`de::dec`], and [`laws`] proves them mutually
//! inverse.

pub mod de;
pub mod error;
pub mod laws;
pub mod ser;
pub mod shape;
pub mod typed;
pub mod value;

pub use de::Deserializer;
pub use de::from_value;
pub use error::Error;
pub use ser::to_value;
pub use shape::Shape;
pub use shape::VariantShape;
pub use typed::SpecTyped;
pub use typed::SpecVariantValue;
pub use typed::Typed;
pub use typed::VariantValue;
pub use value::SpecValue;
pub use value::Value;
