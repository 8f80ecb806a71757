use rmpv::de::from_value;
use rmpv::ser::to_value;
use rmpv::Deserializer;
use rmpv::Error;
use rmpv::Shape;
use rmpv::Typed;
use rmpv::Value;
use rmpv::VariantShape;
use rmpv::VariantValue;

fn str_val(s: &str) -> Value {
    Value::Str(s.to_string())
}

// Round trip on a nested tree: encode then decode gives the value back.
#[test]
fn round_trip_nested() {
    let target = Shape::Record(vec![
        ("items".to_string(), Shape::List(Box::new(Shape::UInt))),
        ("label".to_string(), Shape::Optional(Box::new(Shape::Str))),
        ("raw".to_string(), Shape::Bytes),
    ]);
    let typed = Typed::Record(vec![
        Typed::List(vec![Typed::UInt(1), Typed::UInt(2), Typed::UInt(3)]),
        Typed::Opt(Some(Box::new(Typed::Str("tag".to_string())))),
        Typed::Bytes(vec![9, 8, 7]),
    ]);
    let encoded = to_value(typed).unwrap();
    assert_eq!(
        encoded,
        Value::Array(vec![
            Value::Array(vec![Value::U64(1), Value::U64(2), Value::U64(3)]),
            str_val("tag"),
            Value::Bin(vec![9, 8, 7]),
        ])
    );
    let decoded = from_value(encoded, &target).unwrap();
    let again = Typed::Record(vec![
        Typed::List(vec![Typed::UInt(1), Typed::UInt(2), Typed::UInt(3)]),
        Typed::Opt(Some(Box::new(Typed::Str("tag".to_string())))),
        Typed::Bytes(vec![9, 8, 7]),
    ]);
    assert_eq!(decoded, again);
}

// Round trip of a dynamic target: a normalized tree survives unchanged.
#[test]
fn round_trip_dynamic() {
    let tree = Value::Array(vec![Value::U64(5), str_val("x"), Value::Boolean(true)]);
    let typed = from_value(tree, &Shape::Any).unwrap();
    let expected = Value::Array(vec![Value::U64(5), str_val("x"), Value::Boolean(true)]);
    assert_eq!(typed, Typed::Dynamic(expected));
}

// Sign bucketing on both bridges, including the dynamic-target decode.
#[test]
fn sign_bucketing() {
    assert_eq!(to_value(Typed::SInt(5)).unwrap(), Value::U64(5));
    assert_eq!(to_value(Typed::SInt(-5)).unwrap(), Value::I64(-5));
    assert_eq!(to_value(Typed::UInt(5)).unwrap(), Value::U64(5));
    // A misplaced nonnegative integer is normalized by the dynamic decode.
    assert_eq!(
        from_value(Value::I64(5), &Shape::Any).unwrap(),
        Typed::Dynamic(Value::U64(5))
    );
    assert_eq!(
        from_value(Value::I64(-5), &Shape::Any).unwrap(),
        Typed::Dynamic(Value::I64(-5))
    );
    // Cross-bucket acceptance at integer targets, with range checks.
    assert_eq!(from_value(Value::I64(5), &Shape::UInt).unwrap(), Typed::UInt(5));
    assert!(from_value(Value::I64(-5), &Shape::UInt).is_err());
    assert_eq!(
        from_value(Value::U64(5), &Shape::SInt).unwrap(),
        Typed::SInt(5)
    );
    assert!(from_value(Value::U64(u64::MAX), &Shape::SInt).is_err());
}

// Mapping equality is pair-order-sensitive, and the round trip keeps the
// original pair order.
#[test]
fn map_order() {
    let ab = Value::Mapping(vec![
        (str_val("a"), Value::U64(1)),
        (str_val("b"), Value::U64(2)),
    ]);
    let ba = Value::Mapping(vec![
        (str_val("b"), Value::U64(2)),
        (str_val("a"), Value::U64(1)),
    ]);
    assert_ne!(ab, ba);

    let target = Shape::Mapping(Box::new(Shape::Str), Box::new(Shape::UInt));
    let typed = Typed::Mapping(vec![
        (Typed::Str("b".to_string()), Typed::UInt(2)),
        (Typed::Str("a".to_string()), Typed::UInt(1)),
    ]);
    let encoded = to_value(typed).unwrap();
    assert_eq!(encoded, ba);
    let decoded = from_value(encoded, &target).unwrap();
    assert_eq!(
        decoded,
        Typed::Mapping(vec![
            (Typed::Str("b".to_string()), Typed::UInt(2)),
            (Typed::Str("a".to_string()), Typed::UInt(1)),
        ])
    );
}

// Length enforcement: a fixed two-value target rejects a three-element
// array; a variable-length target accepts any length.
#[test]
fn length_enforcement() {
    let three = Value::Array(vec![Value::U64(1), Value::U64(2), Value::U64(3)]);
    let pair = Shape::Tuple(vec![Shape::UInt, Shape::UInt]);
    let err = from_value(three, &pair).unwrap_err();
    assert!(err.message().contains("length"));

    let three_again = Value::Array(vec![Value::U64(1), Value::U64(2), Value::U64(3)]);
    let list = Shape::List(Box::new(Shape::UInt));
    assert_eq!(
        from_value(three_again, &list).unwrap(),
        Typed::List(vec![Typed::UInt(1), Typed::UInt(2), Typed::UInt(3)])
    );
    assert_eq!(from_value(Value::Array(vec![]), &list).unwrap(), Typed::List(vec![]));
}

// Option collapse: the absent value means "absent"; anything else,
// numeric zero included, means "present".
#[test]
fn option_collapse() {
    let target = Shape::Optional(Box::new(Shape::UInt));
    assert_eq!(from_value(Value::Nil, &target).unwrap(), Typed::Opt(None));
    assert_eq!(
        from_value(Value::U64(0), &target).unwrap(),
        Typed::Opt(Some(Box::new(Typed::UInt(0))))
    );
}

// Binary fidelity: the bytes come through exactly, and an array of
// integers is not accepted by a byte-buffer target.
#[test]
fn binary_fidelity() {
    assert_eq!(
        from_value(Value::Bin(vec![0xcc, 0x80]), &Shape::Bytes).unwrap(),
        Typed::Bytes(vec![0xcc, 0x80])
    );
    let as_ints = Value::Array(vec![Value::U64(0xcc), Value::U64(0x80)]);
    assert!(from_value(as_ints, &Shape::Bytes).is_err());
    assert_eq!(to_value(Typed::Bytes(vec![0xcc, 0x80])).unwrap(), Value::Bin(vec![0xcc, 0x80]));
}

// Characters travel as one-character text in both directions.
#[test]
fn char_as_text() {
    assert_eq!(to_value(Typed::Char('\u{3bb}')).unwrap(), str_val("\u{3bb}"));
    assert_eq!(from_value(str_val("a"), &Shape::Char).unwrap(), Typed::Char('a'));
    assert!(from_value(str_val("ab"), &Shape::Char).is_err());
    assert!(from_value(str_val(""), &Shape::Char).is_err());
}

// The enumeration round trip emits the canonical shapes.
#[test]
fn enum_canonical_encoding() {
    assert_eq!(
        to_value(Typed::Variant(1, VariantValue::Newtype(Box::new(Typed::UInt(42))))).unwrap(),
        Value::Array(vec![Value::U64(1), Value::Array(vec![Value::U64(42)])])
    );
    assert_eq!(
        to_value(Typed::Variant(
            2,
            VariantValue::Tuple(vec![Typed::UInt(42), Typed::Str("name".to_string())])
        ))
        .unwrap(),
        Value::Array(vec![
            Value::U64(2),
            Value::Array(vec![Value::U64(42), str_val("name")]),
        ])
    );
}

// Enumeration shape errors: wrong outer arity, an out-of-range index, a
// payload where none belongs, and a missing payload.
#[test]
fn enum_shape_errors() {
    let target = Shape::Enum(vec![
        VariantShape::Unit,
        VariantShape::Newtype(Box::new(Shape::UInt)),
    ]);
    assert!(from_value(Value::Array(vec![]), &target).is_err());
    assert!(from_value(
        Value::Array(vec![Value::U64(0), Value::Nil, Value::Nil]),
        &target
    )
    .is_err());
    assert!(from_value(Value::Array(vec![Value::U64(7)]), &target).is_err());
    assert!(from_value(Value::U64(0), &target).is_err());
    // A unit variant rejects a nonempty payload.
    assert!(from_value(Value::Array(vec![Value::U64(0), Value::U64(1)]), &target).is_err());
    // A one-value variant needs its payload.
    assert!(from_value(Value::Array(vec![Value::U64(1)]), &target).is_err());
    // A one-value variant rejects a wrapped payload of the wrong arity.
    assert!(from_value(
        Value::Array(vec![Value::U64(1), Value::Array(vec![Value::U64(1), Value::U64(2)])]),
        &target
    )
    .is_err());
    // An index too large for 32 bits is rejected.
    assert!(from_value(Value::Array(vec![Value::U64(1 << 40)]), &target).is_err());
}

// Record-by-name decoding: unknown string keys are skipped, duplicate
// fields and missing fields fail, and a non-string key fails.
#[test]
fn record_by_name() {
    let target = Shape::Record(vec![
        ("age".to_string(), Shape::UInt),
        ("name".to_string(), Shape::Str),
    ]);
    let full = Value::Mapping(vec![
        (str_val("name"), str_val("ada")),
        (str_val("note"), Value::Boolean(true)),
        (str_val("age"), Value::U64(36)),
    ]);
    assert_eq!(
        from_value(full, &target).unwrap(),
        Typed::Record(vec![Typed::UInt(36), Typed::Str("ada".to_string())])
    );

    let duplicate = Value::Mapping(vec![
        (str_val("age"), Value::U64(1)),
        (str_val("age"), Value::U64(2)),
        (str_val("name"), str_val("x")),
    ]);
    let err = from_value(duplicate, &target).unwrap_err();
    assert!(err.message().contains("duplicate"));

    let missing = Value::Mapping(vec![(str_val("age"), Value::U64(1))]);
    let err = from_value(missing, &target).unwrap_err();
    assert!(err.message().contains("missing"));

    let bad_key = Value::Mapping(vec![(Value::U64(0), Value::U64(1))]);
    assert!(from_value(bad_key, &target).is_err());
}

// An extension datum is opaque to the reverse bridge but the forward
// bridge represents it as the two-element sequence of tag and bytes.
#[test]
fn ext_handling() {
    assert!(from_value(Value::Ext(5, vec![1, 2]), &Shape::Any).is_err());
    assert!(from_value(
        Value::Array(vec![Value::Ext(5, vec![1, 2])]),
        &Shape::Any
    )
    .is_err());
    assert_eq!(
        to_value(Typed::Dynamic(Value::Ext(5, vec![1, 2]))).unwrap(),
        Value::Array(vec![Value::U64(5), Value::Bin(vec![1, 2])])
    );
    assert_eq!(
        to_value(Typed::Dynamic(Value::Ext(-3, vec![]))).unwrap(),
        Value::Array(vec![Value::I64(-3), Value::Bin(vec![])])
    );
}

// A value acting as its own source: serialization normalizes it.
#[test]
fn value_serialize_normalizes() {
    let raw = Value::Array(vec![Value::I64(7), Value::Mapping(vec![(Value::I64(1), Value::I64(-1))])]);
    let normalized = raw.serialize();
    assert_eq!(
        normalized,
        Value::Array(vec![
            Value::U64(7),
            Value::Mapping(vec![(Value::U64(1), Value::I64(-1))]),
        ])
    );
}

// A value decoding by its own description: the same normalization, but
// an extension datum fails instead of being re-encoded.
#[test]
fn value_deserialize_normalizes() {
    let raw = Value::Array(vec![Value::I64(7), Value::F32(1f32.to_bits())]);
    assert_eq!(
        raw.deserialize().unwrap(),
        Value::Array(vec![Value::U64(7), Value::F32(1f32.to_bits())])
    );
    assert!(Value::Ext(1, vec![]).deserialize().is_err());
}

// The data-source wrapper behaves exactly like the facade.
#[test]
fn deserializer_source() {
    let d = Deserializer::new(Value::U64(9));
    assert_eq!(d.deserialize(&Shape::UInt).unwrap(), Typed::UInt(9));
}

// The one error kind carries a free-text message.
#[test]
fn error_reporting() {
    let err = from_value(Value::Nil, &Shape::Bool).unwrap_err();
    assert_eq!(err.description(), "error while decoding value");
    let Error::Syntax(msg) = err;
    assert!(msg.contains("invalid type"));
}

// Nested options collapse: a present-with-absent payload encodes to the
// absent value and cannot be told apart after the round trip.
#[test]
fn option_nil_collapse() {
    let inner_none = Typed::Opt(Some(Box::new(Typed::Opt(None))));
    assert_eq!(to_value(inner_none).unwrap(), Value::Nil);
    let target = Shape::Optional(Box::new(Shape::Optional(Box::new(Shape::UInt))));
    assert_eq!(from_value(Value::Nil, &target).unwrap(), Typed::Opt(None));
}

// Values are order-comparable: ordering is total, by tag first and then
// by contents.
#[test]
fn value_ordering() {
    assert!(Value::U64(1) < Value::U64(2));
    assert!(Value::Str("a".to_string()) < Value::Str("b".to_string()));
    let a = Value::Array(vec![Value::U64(1)]);
    let b = Value::Array(vec![Value::U64(1), Value::U64(0)]);
    assert!(a < b);
    assert_eq!(Value::Nil.cmp(&Value::Nil), std::cmp::Ordering::Equal);
}
