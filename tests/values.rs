use quasar::error::QuasarError;
use quasar::state::decimal_text;
use quasar::value::{ConformValue, PrimitiveValue, Value};

fn integer(i: i64) -> Value {
    Value::Primitive(PrimitiveValue::Integer(i))
}

#[test]
fn certain_has_one_possibility() {
    let c = ConformValue::certain(integer(7));
    assert!(c.is_certain());
    assert!(c.as_certain().unwrap().same_as(&integer(7)));
    assert_eq!(c.possibilities.len(), 1);
}

#[test]
fn uncertain_drops_repeats() {
    let c = ConformValue::uncertain(vec![integer(1), integer(2), integer(1)]).unwrap();
    assert_eq!(c.possibilities.len(), 2);
    assert!(c.contains(&integer(1)) && c.contains(&integer(2)));
    assert!(!c.is_certain());
    assert!(c.as_certain().is_none());
}

#[test]
fn uncertain_refuses_empty() {
    assert!(matches!(ConformValue::uncertain(vec![]), Err(QuasarError::InvalidOperation(_))));
}

#[test]
fn union_is_set_union() {
    let a = ConformValue::uncertain(vec![integer(1), integer(2)]).unwrap();
    let b = ConformValue::uncertain(vec![integer(2), integer(3)]).unwrap();
    let u = a.union(&b);
    assert_eq!(u.possibilities.len(), 3);
    assert!(u.contains(&integer(1)) && u.contains(&integer(2)) && u.contains(&integer(3)));
    let v = b.union(&a);
    assert_eq!(v.possibilities.len(), 3);
    assert!(v.contains(&integer(1)) && v.contains(&integer(2)) && v.contains(&integer(3)));
}

#[test]
fn structural_equality_of_values() {
    let a = Value::Tuple(vec![integer(1), Value::List(vec![Value::Primitive(PrimitiveValue::String("x".to_string()))])]);
    let b = Value::Tuple(vec![integer(1), Value::List(vec![Value::Primitive(PrimitiveValue::String("x".to_string()))])]);
    let c = Value::Tuple(vec![integer(1), Value::List(vec![])]);
    assert!(a.same_as(&b));
    assert!(!a.same_as(&c));
    assert!(!integer(1).same_as(&Value::Primitive(PrimitiveValue::Boolean(true))));
    assert!(a.duplicate().same_as(&a));
    assert!(Value::Primitive(PrimitiveValue::Float(1.5f64.to_bits())).same_as(&Value::Primitive(PrimitiveValue::Float(1.5f64.to_bits()))));
}

#[test]
fn decimal_numerals() {
    assert_eq!(decimal_text(0), "0");
    assert_eq!(decimal_text(7), "7");
    assert_eq!(decimal_text(120), "120");
}

#[test]
fn error_messages() {
    assert_eq!(QuasarError::TypeError("bad".to_string()).message(), "Type error: bad");
    assert_eq!(QuasarError::VariableNotFound("v".to_string()).message(), "Variable not found: v");
}

#[test]
fn floats_are_canonical() {
    let nan_a = PrimitiveValue::float_from_bits(f64::NAN.to_bits());
    let nan_b = PrimitiveValue::float_from_bits(0x7ff0_0000_0000_0001);
    assert!(nan_a.same_as(&nan_b));
    let zero = PrimitiveValue::float_from_bits(0.0f64.to_bits());
    let minus_zero = PrimitiveValue::float_from_bits((-0.0f64).to_bits());
    assert!(zero.same_as(&minus_zero));
    assert!(!zero.same_as(&PrimitiveValue::float_from_bits(1.0f64.to_bits())));
    let inf = PrimitiveValue::float_from_bits(f64::INFINITY.to_bits());
    assert!(matches!(inf, PrimitiveValue::Float(b) if b == f64::INFINITY.to_bits()));
}
