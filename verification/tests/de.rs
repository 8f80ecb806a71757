use rmpv::de::from_value;
use rmpv::Shape;
use rmpv::Typed;
use rmpv::Value;
use rmpv::VariantShape;
use rmpv::VariantValue;

fn test_parse_ok(tc: Vec<(Value, Typed)>, target: &Shape) {
    for (val, expected) in tc {
        let got = from_value(val, target).unwrap();
        assert_eq!(got, expected);
    }
}

#[test]
fn pass_null() {
    test_parse_ok(vec![(Value::Nil, Typed::Unit)], &Shape::Unit);
}

#[test]
fn pass_bool() {
    test_parse_ok(
        vec![
            (Value::Boolean(false), Typed::Bool(false)),
            (Value::Boolean(true), Typed::Bool(true)),
        ],
        &Shape::Bool,
    );
}

#[test]
fn pass_u64() {
    test_parse_ok(
        vec![
            (Value::U64(127), Typed::UInt(127)),
            (Value::U64(255), Typed::UInt(255)),
            (Value::U64(65535), Typed::UInt(65535)),
            (Value::U64(4294967295), Typed::UInt(4294967295)),
            (Value::U64(18446744073709551615u64), Typed::UInt(18446744073709551615u64)),
        ],
        &Shape::UInt,
    );
}

#[test]
fn pass_i64() {
    test_parse_ok(
        vec![
            (Value::U64(0), Typed::SInt(0)),
            (Value::I64(127), Typed::SInt(127)),
            (Value::I64(32767), Typed::SInt(32767)),
            (Value::I64(2147483647), Typed::SInt(2147483647)),
            (Value::I64(9223372036854775807), Typed::SInt(9223372036854775807)),
        ],
        &Shape::SInt,
    );
}

#[test]
fn pass_f32() {
    test_parse_ok(
        vec![(Value::F32(3.4028234e38f32.to_bits()), Typed::F32(3.4028234e38f32.to_bits()))],
        &Shape::F32,
    );
}

#[test]
fn pass_f64() {
    test_parse_ok(
        vec![(Value::F64(42f64.to_bits()), Typed::F64(42f64.to_bits()))],
        &Shape::F64,
    );
}

#[test]
fn pass_string() {
    test_parse_ok(
        vec![(Value::Str("le message".to_string()), Typed::Str("le message".to_string()))],
        &Shape::Str,
    );
}

#[test]
fn pass_tuple() {
    test_parse_ok(
        vec![(
            Value::Array(vec![Value::U64(42), Value::U64(100500)]),
            Typed::Tuple(vec![Typed::UInt(42), Typed::UInt(100500)]),
        )],
        &Shape::Tuple(vec![Shape::UInt, Shape::UInt]),
    );
}

#[test]
fn pass_array() {
    test_parse_ok(
        vec![(
            Value::Array(vec![Value::U64(42), Value::U64(100500)]),
            Typed::Tuple(vec![Typed::UInt(42), Typed::UInt(100500)]),
        )],
        &Shape::Tuple(vec![Shape::UInt, Shape::UInt]),
    );
}

#[test]
fn pass_vec() {
    test_parse_ok(
        vec![
            (
                Value::Array(vec![Value::U64(0), Value::U64(128)]),
                Typed::List(vec![Typed::UInt(0), Typed::UInt(128)]),
            ),
            (
                Value::Array(vec![Value::U64(42), Value::U64(100500)]),
                Typed::List(vec![Typed::UInt(42), Typed::UInt(100500)]),
            ),
        ],
        &Shape::List(Box::new(Shape::UInt)),
    );
}

#[test]
fn pass_map() {
    test_parse_ok(
        vec![
            (Value::Mapping(vec![]), Typed::Mapping(vec![])),
            (
                Value::Mapping(vec![
                    (Value::Str("int".to_string()), Value::U64(128)),
                    (Value::Str("key".to_string()), Value::U64(42)),
                ]),
                Typed::Mapping(vec![
                    (Typed::Str("int".to_string()), Typed::UInt(128)),
                    (Typed::Str("key".to_string()), Typed::UInt(42)),
                ]),
            ),
        ],
        &Shape::Mapping(Box::new(Shape::Str), Box::new(Shape::UInt)),
    );
}

#[test]
fn pass_option() {
    test_parse_ok(
        vec![
            (Value::Nil, Typed::Opt(None)),
            (
                Value::Str("le message".to_string()),
                Typed::Opt(Some(Box::new(Typed::Str("le message".to_string())))),
            ),
        ],
        &Shape::Optional(Box::new(Shape::Str)),
    );
}

#[test]
fn pass_newtype_struct() {
    // A newtype over an optional signed integer.
    test_parse_ok(
        vec![
            (Value::Nil, Typed::Newtype(Box::new(Typed::Opt(None)))),
            (
                Value::U64(4),
                Typed::Newtype(Box::new(Typed::Opt(Some(Box::new(Typed::SInt(4)))))),
            ),
        ],
        &Shape::Newtype(Box::new(Shape::Optional(Box::new(Shape::SInt)))),
    );

    // A newtype over a variable-length list of signed integers.
    test_parse_ok(
        vec![
            (Value::Array(vec![]), Typed::Newtype(Box::new(Typed::List(vec![])))),
            (
                Value::Array(vec![Value::U64(4)]),
                Typed::Newtype(Box::new(Typed::List(vec![Typed::SInt(4)]))),
            ),
        ],
        &Shape::Newtype(Box::new(Shape::List(Box::new(Shape::SInt)))),
    );
}

#[test]
fn pass_struct() {
    let target = Shape::Record(vec![(
        "x".to_string(),
        Shape::Optional(Box::new(Shape::SInt)),
    )]);
    test_parse_ok(
        vec![
            (Value::Array(vec![Value::Nil]), Typed::Record(vec![Typed::Opt(None)])),
            (
                Value::Array(vec![Value::U64(4)]),
                Typed::Record(vec![Typed::Opt(Some(Box::new(Typed::SInt(4))))]),
            ),
            (
                Value::Mapping(vec![(Value::Str("x".to_string()), Value::Nil)]),
                Typed::Record(vec![Typed::Opt(None)]),
            ),
            (
                Value::Mapping(vec![(Value::Str("x".to_string()), Value::U64(42))]),
                Typed::Record(vec![Typed::Opt(Some(Box::new(Typed::SInt(42))))]),
            ),
        ],
        &target,
    );
}

#[test]
fn pass_enum() {
    let target = Shape::Enum(vec![
        VariantShape::Unit,
        VariantShape::Newtype(Box::new(Shape::UInt)),
        VariantShape::Tuple(vec![Shape::UInt, Shape::Str]),
        VariantShape::Record(vec![
            ("age".to_string(), Shape::UInt),
            ("name".to_string(), Shape::Str),
        ]),
    ]);
    test_parse_ok(
        vec![
            // [0].
            (Value::Array(vec![Value::U64(0)]), Typed::Variant(0, VariantValue::Unit)),
            // [0, []].
            (
                Value::Array(vec![Value::U64(0), Value::Array(vec![])]),
                Typed::Variant(0, VariantValue::Unit),
            ),
            // [1, 42].
            (
                Value::Array(vec![Value::U64(1), Value::U64(42)]),
                Typed::Variant(1, VariantValue::Newtype(Box::new(Typed::UInt(42)))),
            ),
            // [1, [42]].
            (
                Value::Array(vec![Value::U64(1), Value::Array(vec![Value::U64(42)])]),
                Typed::Variant(1, VariantValue::Newtype(Box::new(Typed::UInt(42)))),
            ),
            // [2, [42, "name"]].
            (
                Value::Array(vec![
                    Value::U64(2),
                    Value::Array(vec![Value::U64(42), Value::Str("name".to_string())]),
                ]),
                Typed::Variant(
                    2,
                    VariantValue::Tuple(vec![Typed::UInt(42), Typed::Str("name".to_string())]),
                ),
            ),
            // [3, [42, "name"]].
            (
                Value::Array(vec![
                    Value::U64(3),
                    Value::Array(vec![Value::U64(42), Value::Str("name".to_string())]),
                ]),
                Typed::Variant(
                    3,
                    VariantValue::Record(vec![Typed::UInt(42), Typed::Str("name".to_string())]),
                ),
            ),
            // [3, {"age": 42, "name": "name"}].
            (
                Value::Array(vec![
                    Value::U64(3),
                    Value::Mapping(vec![
                        (Value::Str("age".to_string()), Value::U64(42)),
                        (Value::Str("name".to_string()), Value::Str("name".to_string())),
                    ]),
                ]),
                Typed::Variant(
                    3,
                    VariantValue::Record(vec![Typed::UInt(42), Typed::Str("name".to_string())]),
                ),
            ),
        ],
        &target,
    );
}

#[test]
fn pass_bytebuf() {
    test_parse_ok(
        vec![
            (Value::Bin(vec![0xcc, 0x80]), Typed::Bytes(vec![0xcc, 0x80])),
            (Value::Bin(vec![0xcc, 0x80]), Typed::Bytes(vec![0xcc, 0x80])),
            (Value::Bin(vec![0xcc, 0x80]), Typed::Bytes(vec![0xcc, 0x80])),
        ],
        &Shape::Bytes,
    );
}
