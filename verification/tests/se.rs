use rmpv::ser::to_value;
use rmpv::Typed;
use rmpv::Value;
use rmpv::VariantValue;

fn test_encode_ok(tc: Vec<(Typed, Value)>) {
    for (typed, val) in tc {
        assert_eq!(val, to_value(typed).unwrap());
    }
}

#[test]
fn se_pass_write_nil() {
    test_encode_ok(vec![(Typed::Unit, Value::Nil)]);
}

#[test]
fn se_pass_write_bool() {
    test_encode_ok(vec![
        (Typed::Bool(true), Value::Boolean(true)),
        (Typed::Bool(false), Value::Boolean(false)),
    ]);
}

#[test]
fn se_pass_write_sint() {
    // Sign bucketing: nonnegative signed integers land in the unsigned
    // bucket; only negatives use the signed one.
    test_encode_ok(vec![
        (Typed::SInt(0), Value::U64(0)),
        (Typed::SInt(127), Value::U64(127)),
        (Typed::SInt(-128), Value::I64(-128)),
    ]);

    test_encode_ok(vec![
        (Typed::SInt(0), Value::U64(0)),
        (Typed::SInt(32767), Value::U64(32767)),
        (Typed::SInt(-32768), Value::I64(-32768)),
    ]);

    test_encode_ok(vec![
        (Typed::SInt(0), Value::U64(0)),
        (Typed::SInt(9223372036854775807i64), Value::U64(9223372036854775807)),
        (Typed::SInt(-9223372036854775808i64), Value::I64(-9223372036854775808)),
    ]);
}

#[test]
fn pass_write_uint() {
    test_encode_ok(vec![
        (Typed::UInt(0), Value::U64(0)),
        (Typed::UInt(255), Value::U64(255)),
    ]);

    test_encode_ok(vec![
        (Typed::UInt(0), Value::U64(0)),
        (Typed::UInt(65535), Value::U64(65535)),
    ]);

    test_encode_ok(vec![
        (Typed::UInt(0), Value::U64(0)),
        (Typed::UInt(18446744073709551615u64), Value::U64(18446744073709551615u64)),
    ]);
}

#[test]
fn pass_write_float() {
    test_encode_ok(vec![(
        Typed::F32(3.1415f32.to_bits()),
        Value::F32(3.1415f32.to_bits()),
    )]);

    test_encode_ok(vec![(
        Typed::F64(3.1415f64.to_bits()),
        Value::F64(3.1415f64.to_bits()),
    )]);
}

#[test]
fn pass_write_char() {
    test_encode_ok(vec![(Typed::Char('c'), Value::Str("c".to_string()))]);
}

#[test]
fn pass_write_string() {
    test_encode_ok(vec![(
        Typed::Str("le message".to_string()),
        Value::Str("le message".to_string()),
    )]);

    test_encode_ok(vec![(
        Typed::Str("le message".to_string()),
        Value::Str("le message".to_string()),
    )]);
}

#[test]
fn pass_write_bytes() {
    test_encode_ok(vec![(Typed::Bytes(vec![0, 1, 2]), Value::Bin(vec![0, 1, 2]))]);

    test_encode_ok(vec![(Typed::Bytes(vec![0, 1, 2]), Value::Bin(vec![0, 1, 2]))]);
}

#[test]
fn pass_write_unit_struct() {
    test_encode_ok(vec![(Typed::Unit, Value::Nil)]);
}

#[test]
fn pass_write_enum() {
    // A payload-free variant encodes as the one-element array holding
    // its index.
    test_encode_ok(vec![(
        Typed::Variant(0, VariantValue::Unit),
        Value::Array(vec![Value::U64(0)]),
    )]);
}
