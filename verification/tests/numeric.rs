use graphql_parser::parse_numeric_literal;
use graphql_parser::parse_type_system;
use graphql_parser::ErrorKind;
use graphql_parser::Positioned;
use graphql_parser::TypeDefinition;
use graphql_parser::TypeSystemDefinition;
use graphql_parser::Value;

#[test]
fn int_zero() {
    let p = parse_numeric_literal("0").unwrap();
    assert_eq!(p.value, Value::Int(0));
    assert_eq!((p.start, p.end), (0, 1));
}

#[test]
fn float_zero() {
    let p = parse_numeric_literal("0.0").unwrap();
    match &p.value {
        Value::Float(t) => {
            assert_eq!(t, "0.0");
            assert_eq!(t.parse::<f64>().unwrap(), 0.0);
        },
        other => panic!("expected a float, got {:?}", other),
    }
    assert_eq!((p.start, p.end), (0, 3));
}

#[test]
fn negative_int() {
    let p = parse_numeric_literal("-12").unwrap();
    assert_eq!(p.value, Value::Int(-12));
}

#[test]
fn float_with_exponent() {
    let p = parse_numeric_literal("1.5e10").unwrap();
    match &p.value {
        Value::Float(t) => {
            assert_eq!(t, "1.5e10");
            assert_eq!(t.parse::<f64>().unwrap(), 1.5e10);
        },
        other => panic!("expected a float, got {:?}", other),
    }
}

#[test]
fn leading_zero_fails() {
    // a leading zero followed by a digit is not a valid integer
    assert!(parse_numeric_literal("01").is_err());
}

#[test]
fn bare_trailing_dot_fails() {
    // a dot with no following digit is not consumed as a fractional part,
    // and a bare trailing dot is no literal of its own
    assert!(parse_numeric_literal("1.").is_err());
}

#[test]
fn exponent_promotes_integer_to_float() {
    let p = parse_numeric_literal("1e5").unwrap();
    match &p.value {
        Value::Float(t) => assert_eq!(t, "1e5"),
        other => panic!("expected a float, got {:?}", other),
    }
    let q = parse_numeric_literal("2E+3").unwrap();
    match &q.value {
        Value::Float(t) => assert_eq!(t.parse::<f64>().unwrap(), 2000.0),
        other => panic!("expected a float, got {:?}", other),
    }
}

#[test]
fn malformed_exponent_is_rejected_as_trailing_text() {
    // the exponent needs at least one digit, so the literal boundary stops
    // before `e` and the standalone parse sees trailing input
    let e = parse_numeric_literal("1e").unwrap_err();
    assert_eq!(e.kind, ErrorKind::TrailingInput);
    assert_eq!(e.offset, 1);
    assert!(parse_numeric_literal("1.5e+").is_err());
}

#[test]
fn int_bounds() {
    assert_eq!(parse_numeric_literal("9223372036854775807").unwrap().value, Value::Int(i64::MAX));
    assert_eq!(parse_numeric_literal("-9223372036854775808").unwrap().value, Value::Int(i64::MIN));
    let e = parse_numeric_literal("9223372036854775808").unwrap_err();
    assert_eq!(e.kind, ErrorKind::IntOverflow);
    let e2 = parse_numeric_literal("-9223372036854775809").unwrap_err();
    assert_eq!(e2.kind, ErrorKind::IntOverflow);
}

#[test]
fn minus_without_digits_fails() {
    let e = parse_numeric_literal("-").unwrap_err();
    assert_eq!(e.kind, ErrorKind::Digit);
}

fn object_default_value(doc: &graphql_parser::TypeSystemDocument) -> &Positioned<Value> {
    let def = &doc.definition_list[0];
    let ty = match &def.value {
        TypeSystemDefinition::Type(t) => t,
        other => panic!("expected a type definition, got {:?}", other),
    };
    let obj = match &ty.value {
        TypeDefinition::Object(o) => o,
        other => panic!("expected an object type, got {:?}", other),
    };
    obj.value.field_list[0].value.argument_list[0].value.default_value.as_ref().unwrap()
}

#[test]
fn reslice_int_default_value() {
    // idempotent re-slicing: the substring at the reported span parses to
    // the identical value
    let source = "type Foo { f(x: Int = -12): Int }";
    let doc = parse_type_system(source).unwrap();
    let dv = object_default_value(&doc);
    let sliced = &source[dv.start..dv.end];
    assert_eq!(sliced, "-12");
    let again = parse_numeric_literal(sliced).unwrap();
    assert_eq!(again.value, dv.value);
}

#[test]
fn reslice_float_default_value() {
    let source = "type Foo { f(x: Float = 6.02e23): Int }";
    let doc = parse_type_system(source).unwrap();
    let dv = object_default_value(&doc);
    let sliced = &source[dv.start..dv.end];
    assert_eq!(sliced, "6.02e23");
    let again = parse_numeric_literal(sliced).unwrap();
    assert_eq!(again.value, dv.value);
}
