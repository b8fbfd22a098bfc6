use rust_bash::error::RustBashError;
use rust_bash::interpreter::arithmetic::{
    apply_binary_arith, binary_op_symbol, is_arithmetic_whitespace, parse_base_n_value, parse_number,
    render_index_for_message, render_target_for_message, strip_and_validate,
    substitute_quoted_assoc_subscripts, take_quoted_key, wrapping_pow, ArithExpr, ArithTarget,
    ArithBinaryOp, ArithStepOp, ArithUnaryOp,
};

fn msg<T: std::fmt::Debug>(r: Result<T, RustBashError>) -> String {
    match r {
        Err(RustBashError::Execution(m)) => m,
        Ok(v) => panic!("expected an error, got {:?}", v),
    }
}

#[test]
fn strip_keeps_plain_expressions() {
    assert_eq!(strip_and_validate("1 + 2*x", false).unwrap(), "1 + 2*x");
    assert_eq!(strip_and_validate("a[1] ? b : c", false).unwrap(), "a[1] ? b : c");
    assert_eq!(strip_and_validate("", false).unwrap(), "");
}

#[test]
fn strip_maps_dollar_forms() {
    assert_eq!(strip_and_validate("$1 + $2", false).unwrap(), "__RB_ARITH_POS_1__ + __RB_ARITH_POS_2__");
    assert_eq!(strip_and_validate("$#", false).unwrap(), "__RB_ARITH_HASH__");
    assert_eq!(strip_and_validate("$? + 1", false).unwrap(), "__RB_ARITH_QUESTION__ + 1");
    assert_eq!(strip_and_validate("${x}+$y", false).unwrap(), "x+y");
    assert_eq!(strip_and_validate("$ + 1", false).unwrap(), " + 1");
    assert_eq!(strip_and_validate("\\$1 + \\$2", false).unwrap(), "__RB_ARITH_POS_1__ + __RB_ARITH_POS_2__");
    // A malformed `${` leaves the brace to be validated as an ordinary character.
    assert_eq!(msg(strip_and_validate("${x", false)), "arithmetic: unexpected character `{`");
}

#[test]
fn strip_removes_double_quotes() {
    assert_eq!(strip_and_validate("\"3\" + 1", false).unwrap(), "3 + 1");
    assert_eq!(strip_and_validate("\"1+\"2", false).unwrap(), "1+2");
    assert_eq!(msg(strip_and_validate("\"a\\\"b\" + 0", false)), "arithmetic: unexpected character `\\`");
    assert_eq!(msg(strip_and_validate("\"'\"", false)), "arithmetic: syntax error: operand expected");
}

#[test]
fn strip_number_errors() {
    assert_eq!(msg(strip_and_validate("0x", false)), "arithmetic: invalid hex number");
    assert_eq!(
        msg(strip_and_validate("0xFFFFFFFFFFFFFFFFFFFF", false)),
        "arithmetic: invalid hex number `0xFFFFFFFFFFFFFFFFFFFF`"
    );
    assert_eq!(msg(strip_and_validate("09", false)), "arithmetic: invalid octal number `09`");
    assert_eq!(
        msg(strip_and_validate("99999999999999999999", false)),
        "arithmetic: invalid decimal number `99999999999999999999`"
    );
    assert_eq!(msg(strip_and_validate("1.5", false)), "arithmetic: syntax error: invalid arithmetic operator");
    assert_eq!(msg(strip_and_validate("1#10", false)), "arithmetic: invalid arithmetic base: 1");
    assert_eq!(msg(strip_and_validate("65#10", false)), "arithmetic: invalid arithmetic base: 65");
    assert_eq!(msg(strip_and_validate("2#102", false)), "arithmetic: value too great for base: 102 (base 2)");
    assert_eq!(msg(strip_and_validate("07#9", true)), "arithmetic: invalid base constant `07#`");
    assert_eq!(strip_and_validate("07#6", false).unwrap(), "07#6");
    assert_eq!(msg(strip_and_validate("16#", false)), "arithmetic: invalid base constant `16#`");
}

#[test]
fn strip_character_errors() {
    assert_eq!(msg(strip_and_validate("'1'", false)), "arithmetic: syntax error: operand expected");
    assert_eq!(msg(strip_and_validate("a[ ]", false)), "a: bad array subscript");
    assert_eq!(msg(strip_and_validate("1 \r", false)), "arithmetic: unexpected character `\r`");
    assert_eq!(msg(strip_and_validate("x \\ y", false)), "arithmetic: unexpected character `\\`");
    assert_eq!(msg(strip_and_validate("1 ; 2", false)), "arithmetic: unexpected character `;`");
}

#[test]
fn whitespace_class() {
    assert!(is_arithmetic_whitespace(b' '));
    assert!(is_arithmetic_whitespace(b'\t'));
    assert!(is_arithmetic_whitespace(b'\n'));
    assert!(!is_arithmetic_whitespace(b'\r'));
    assert!(!is_arithmetic_whitespace(b'x'));
}

#[test]
fn number_literals() {
    let mut i = 0usize;
    assert_eq!(parse_number(b"0x1F+1", &mut i).unwrap(), 31);
    assert_eq!(i, 4);
    let mut i = 0usize;
    assert_eq!(parse_number(b"017", &mut i).unwrap(), 15);
    assert_eq!(i, 3);
    let mut i = 2usize;
    assert_eq!(parse_number(b"x=123;", &mut i).unwrap(), 123);
    assert_eq!(i, 5);
    let mut i = 0usize;
    assert_eq!(parse_number(b"9223372036854775807", &mut i).unwrap(), i64::MAX);
    let mut i = 0usize;
    assert_eq!(msg(parse_number(b"9223372036854775808", &mut i)), "arithmetic: invalid decimal number `9223372036854775808`");
    let mut i = 0usize;
    assert_eq!(msg(parse_number(b"0X", &mut i)), "arithmetic: invalid hex number");
}

#[test]
fn base_n_values() {
    assert_eq!(parse_base_n_value(64, "_").unwrap(), 63);
    assert_eq!(parse_base_n_value(64, "@").unwrap(), 62);
    assert_eq!(parse_base_n_value(16, "ff").unwrap(), 255);
    assert_eq!(parse_base_n_value(36, "Z").unwrap(), 35);
    assert_eq!(parse_base_n_value(64, "Z").unwrap(), 61);
    assert_eq!(parse_base_n_value(2, "101").unwrap(), 5);
    assert_eq!(msg(parse_base_n_value(2, "102")), "arithmetic: value too great for base: 102 (base 2)");
    assert_eq!(msg(parse_base_n_value(-3, "1")), "arithmetic: invalid arithmetic base: -3");
    assert_eq!(msg(parse_base_n_value(10, "")), "arithmetic: invalid base constant `10#`");
    // Wrapping on overflow.
    assert_eq!(parse_base_n_value(16, "10000000000000000").unwrap(), 0);
}

#[test]
fn binary_operators() {
    assert_eq!(apply_binary_arith(&ArithBinaryOp::Add, i64::MAX, 1).unwrap(), i64::MIN);
    assert_eq!(apply_binary_arith(&ArithBinaryOp::Subtract, 3, 5).unwrap(), -2);
    assert_eq!(apply_binary_arith(&ArithBinaryOp::Multiply, 8, 3).unwrap(), 24);
    assert_eq!(apply_binary_arith(&ArithBinaryOp::Divide, -7, 2).unwrap(), -3);
    assert_eq!(apply_binary_arith(&ArithBinaryOp::Divide, i64::MIN, -1).unwrap(), i64::MIN);
    assert_eq!(apply_binary_arith(&ArithBinaryOp::Modulo, -7, 2).unwrap(), -1);
    assert_eq!(apply_binary_arith(&ArithBinaryOp::Modulo, 7, -2).unwrap(), 1);
    assert_eq!(apply_binary_arith(&ArithBinaryOp::Modulo, i64::MIN, -1).unwrap(), 0);
    assert_eq!(msg(apply_binary_arith(&ArithBinaryOp::Divide, 8, 0)), "arithmetic: division by zero");
    assert_eq!(msg(apply_binary_arith(&ArithBinaryOp::Modulo, 8, 0)), "arithmetic: division by zero");
    assert_eq!(apply_binary_arith(&ArithBinaryOp::ShiftLeft, 8, 2).unwrap(), 32);
    assert_eq!(apply_binary_arith(&ArithBinaryOp::ShiftLeft, 1, 65).unwrap(), 2);
    assert_eq!(apply_binary_arith(&ArithBinaryOp::ShiftRight, -8, 1).unwrap(), -4);
    assert_eq!(apply_binary_arith(&ArithBinaryOp::BitwiseAnd, 8, 6).unwrap(), 0);
    assert_eq!(apply_binary_arith(&ArithBinaryOp::BitwiseOr, 8, 3).unwrap(), 11);
    assert_eq!(apply_binary_arith(&ArithBinaryOp::BitwiseXor, 8, 5).unwrap(), 13);
    assert_eq!(apply_binary_arith(&ArithBinaryOp::LessThan, 1, 2).unwrap(), 1);
    assert_eq!(apply_binary_arith(&ArithBinaryOp::GreaterThanOrEqualTo, 1, 2).unwrap(), 0);
    assert_eq!(apply_binary_arith(&ArithBinaryOp::Equals, 2, 2).unwrap(), 1);
    assert_eq!(apply_binary_arith(&ArithBinaryOp::NotEquals, 2, 2).unwrap(), 0);
    assert_eq!(apply_binary_arith(&ArithBinaryOp::Power, 2, 10).unwrap(), 1024);
}

#[test]
fn powers() {
    assert_eq!(wrapping_pow(3, 0).unwrap(), 1);
    assert_eq!(wrapping_pow(-2, 3).unwrap(), -8);
    assert_eq!(wrapping_pow(2, 63).unwrap(), i64::MIN);
    assert_eq!(wrapping_pow(2, 64).unwrap(), 0);
    assert_eq!(wrapping_pow(7, 5).unwrap(), 16807);
    assert_eq!(wrapping_pow(3, 41).unwrap(), 3i64.wrapping_pow(41));
    assert_eq!(msg(wrapping_pow(2, -1)), "arithmetic: exponent less than 0");
}

#[test]
fn operator_symbols() {
    assert_eq!(binary_op_symbol(&ArithBinaryOp::Power), "**");
    assert_eq!(binary_op_symbol(&ArithBinaryOp::LessThanOrEqualTo), "<=");
    assert_eq!(binary_op_symbol(&ArithBinaryOp::Comma), ",");
}

fn var(name: &str) -> ArithExpr {
    ArithExpr::Reference(ArithTarget::Variable(name.to_string()))
}

#[test]
fn rendering_expressions() {
    let e = ArithExpr::BinaryOp(
        ArithBinaryOp::Add,
        Box::new(var("k")),
        Box::new(ArithExpr::Literal(1)),
    );
    assert_eq!(render_index_for_message(&e), "k+1");
    let c = ArithExpr::Conditional(
        Box::new(var("a")),
        Box::new(ArithExpr::UnaryOp(ArithUnaryOp::UnaryMinus, Box::new(ArithExpr::Literal(2)))),
        Box::new(ArithExpr::Reference(ArithTarget::ArrayElement(
            "m".to_string(),
            Box::new(ArithExpr::Literal(-3)),
        ))),
    );
    assert_eq!(render_index_for_message(&c), "a?-2:m[-3]");
    let a = ArithExpr::BinaryAssignment(
        ArithBinaryOp::ShiftLeft,
        ArithTarget::Variable("x".to_string()),
        Box::new(ArithExpr::Literal(2)),
    );
    assert_eq!(render_index_for_message(&a), "x<<=2");
    let inc = ArithExpr::UnaryAssignment(
        ArithStepOp::PostfixIncrement,
        ArithTarget::Variable("i".to_string()),
    );
    assert_eq!(render_index_for_message(&inc), "i++");
    let dec = ArithExpr::UnaryAssignment(
        ArithStepOp::PrefixDecrement,
        ArithTarget::Variable("i".to_string()),
    );
    assert_eq!(render_index_for_message(&dec), "--i");
    let t = ArithTarget::ArrayElement("arr".to_string(), Box::new(var("n")));
    assert_eq!(render_target_for_message(&t), "arr[n]");
    assert_eq!(render_index_for_message(&ArithExpr::Literal(i64::MIN)), "-9223372036854775808");
}

#[test]
fn quoted_keys() {
    assert_eq!(take_quoted_key("m[\"my key\"]+1", 2), Some(("my key".to_string(), 11)));
    assert_eq!(take_quoted_key("m['k+1' ]", 2), Some(("k+1".to_string(), 9)));
    assert_eq!(take_quoted_key("m[\"a\\\"b\"]", 2), Some(("a\"b".to_string(), 9)));
    assert_eq!(take_quoted_key("m['a\\'b']", 2), None);
    assert_eq!(take_quoted_key("m[\"open", 2), None);
    assert_eq!(take_quoted_key("m[\"k\" x]", 2), None);
}

#[test]
fn assoc_subscripts_become_placeholders() {
    let assoc = vec!["m".to_string()];
    let (text, phs) = substitute_quoted_assoc_subscripts("m[\"my key\"] + m['k+1'] + a[\"x\"]", &assoc);
    assert_eq!(text, "m[__RB_ASSOC_KEY_0__] + m[__RB_ASSOC_KEY_1__] + a[\"x\"]");
    assert_eq!(
        phs,
        vec![
            ("__RB_ASSOC_KEY_0__".to_string(), "my key".to_string()),
            ("__RB_ASSOC_KEY_1__".to_string(), "k+1".to_string()),
        ]
    );
    let (text, phs) = substitute_quoted_assoc_subscripts("m[k] + 1", &assoc);
    assert_eq!(text, "m[k] + 1");
    assert!(phs.is_empty());
}

#[test]
fn quoted_key_keeps_non_ascii_text() {
    assert_eq!(take_quoted_key("m[\"é\"]", 2), Some(("é".to_string(), 7)));
    assert_eq!(take_quoted_key("m['日本' ]+1", 2), Some(("日本".to_string(), 12)));
    assert_eq!(take_quoted_key("m[\"a\\$é\"]", 2), Some(("a$é".to_string(), 10)));
}
