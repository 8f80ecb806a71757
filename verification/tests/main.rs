use rmpv::de::from_value;
use rmpv::ser::to_value;
use rmpv::Shape;
use rmpv::Typed;
use rmpv::Value;

fn test_encode_ok(tc: Vec<(Typed, Value, Shape)>) {
    for (typed, val, target) in tc {
        // Forward: the typed value lowers to exactly the given tree.
        let val_from_typed = to_value(clone_typed(&typed)).unwrap();
        assert_eq!(val, val_from_typed);

        // Reverse: the tree builds exactly the given typed value.
        let typed_from_val = from_value(val, &target).unwrap();
        assert_eq!(typed, typed_from_val);
    }
}

fn clone_typed(t: &Typed) -> Typed {
    match t {
        Typed::Unit => Typed::Unit,
        Typed::Bool(b) => Typed::Bool(*b),
        Typed::UInt(n) => Typed::UInt(*n),
        Typed::SInt(n) => Typed::SInt(*n),
        _ => panic!("unused in these cases"),
    }
}

#[test]
fn main_pass_write_nil() {
    test_encode_ok(vec![(Typed::Unit, Value::Nil, Shape::Unit)]);
}

#[test]
fn main_pass_write_bool() {
    test_encode_ok(vec![
        (Typed::Bool(true), Value::Boolean(true), Shape::Bool),
        (Typed::Bool(false), Value::Boolean(false), Shape::Bool),
    ]);
}

#[test]
fn main_pass_write_sint() {
    // Sign bucketing: nonnegative signed integers land in the unsigned
    // bucket and still decode back into the signed target.
    test_encode_ok(vec![
        (Typed::SInt(0), Value::U64(0), Shape::SInt),
        (Typed::SInt(127), Value::U64(127), Shape::SInt),
        (Typed::SInt(-128), Value::I64(-128), Shape::SInt),
    ]);

    test_encode_ok(vec![
        (Typed::SInt(0), Value::U64(0), Shape::SInt),
        (Typed::SInt(32767), Value::U64(32767), Shape::SInt),
        (Typed::SInt(-32768), Value::I64(-32768), Shape::SInt),
    ]);

    test_encode_ok(vec![
        (Typed::SInt(0), Value::U64(0), Shape::SInt),
        (Typed::SInt(9223372036854775807i64), Value::U64(9223372036854775807), Shape::SInt),
        (Typed::SInt(-9223372036854775808i64), Value::I64(-9223372036854775808), Shape::SInt),
    ]);
}
