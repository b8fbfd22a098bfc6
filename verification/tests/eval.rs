use rust_bash::error::RustBashError;
use rust_bash::interpreter::eval::{eval_arithmetic, set_variable, VarStore, VarValue};

fn make_state() -> VarStore {
    VarStore::new()
}

fn eval(expr: &str) -> i64 {
    let mut state = make_state();
    eval_arithmetic(expr, &mut state).unwrap()
}

fn eval_with(expr: &str, state: &mut VarStore) -> i64 {
    eval_arithmetic(expr, state).unwrap()
}

fn message(r: Result<i64, RustBashError>) -> String {
    match r {
        Err(RustBashError::Execution(m)) => m,
        Ok(v) => panic!("expected an error, got {v}"),
    }
}

#[test]
fn assoc_unterminated_quoted_key_declines_placeholder() {
    let mut state = make_state();
    state.vars.push(("m".to_string(), VarValue::Assoc(Vec::new())));
    let msg = message(eval_arithmetic("m[\"k", &mut state));
    assert!(msg.contains("syntax error"), "msg: {msg}");
}

#[test]
fn basic_addition() {
    assert_eq!(eval("1 + 2"), 3);
}

#[test]
fn multiplication() {
    assert_eq!(eval("5 * 3"), 15);
}

#[test]
fn division() {
    assert_eq!(eval("10 / 3"), 3);
}

#[test]
fn modulo() {
    assert_eq!(eval("10 % 3"), 1);
}

#[test]
fn exponentiation() {
    assert_eq!(eval("2 ** 10"), 1024);
}

#[test]
fn precedence_add_mul() {
    assert_eq!(eval("2 + 3 * 4"), 14);
}

#[test]
fn parenthesized() {
    assert_eq!(eval("(1 + 2) * 3"), 9);
}

#[test]
fn comparison_gt() {
    assert_eq!(eval("5 > 3"), 1);
}

#[test]
fn comparison_lt() {
    assert_eq!(eval("5 < 3"), 0);
}

#[test]
fn comparison_le() {
    assert_eq!(eval("3 <= 3"), 1);
}

#[test]
fn comparison_ge() {
    assert_eq!(eval("3 >= 4"), 0);
}

#[test]
fn equality() {
    assert_eq!(eval("5 == 5"), 1);
    assert_eq!(eval("5 != 5"), 0);
    assert_eq!(eval("5 != 3"), 1);
}

#[test]
fn logical_and() {
    assert_eq!(eval("1 && 0"), 0);
    assert_eq!(eval("1 && 1"), 1);
}

#[test]
fn logical_or() {
    assert_eq!(eval("1 || 0"), 1);
    assert_eq!(eval("0 || 0"), 0);
}

#[test]
fn bitwise_and() {
    assert_eq!(eval("0xFF & 0x0F"), 15);
}

#[test]
fn bitwise_or() {
    assert_eq!(eval("0xF0 | 0x0F"), 255);
}

#[test]
fn bitwise_xor() {
    assert_eq!(eval("0xFF ^ 0x0F"), 240);
}

#[test]
fn bitwise_shift() {
    assert_eq!(eval("1 << 8"), 256);
    assert_eq!(eval("256 >> 4"), 16);
}

#[test]
fn ternary() {
    assert_eq!(eval("5 > 3 ? 10 : 20"), 10);
    assert_eq!(eval("5 < 3 ? 10 : 20"), 20);
}

#[test]
fn unary_minus() {
    assert_eq!(eval("-5"), -5);
}

#[test]
fn unary_plus() {
    assert_eq!(eval("+5"), 5);
}

#[test]
fn bitwise_not() {
    assert_eq!(eval("~0"), -1);
}

#[test]
fn logical_not() {
    assert_eq!(eval("! 0"), 1);
    assert_eq!(eval("! 1"), 0);
}

#[test]
fn hex_literal() {
    assert_eq!(eval("0xFF"), 255);
}

#[test]
fn octal_literal() {
    assert_eq!(eval("077"), 63);
}

#[test]
fn variable_read() {
    let mut state = make_state();
    set_variable(&mut state, "x", "5".into());
    assert_eq!(eval_with("x + 3", &mut state), 8);
}

#[test]
fn variable_with_dollar() {
    let mut state = make_state();
    set_variable(&mut state, "x", "5".into());
    assert_eq!(eval_with("$x + 3", &mut state), 8);
}

#[test]
fn variable_assignment() {
    let mut state = make_state();
    let result = eval_with("x = 5", &mut state);
    assert_eq!(result, 5);
    assert_eq!(state.scalar("x"), "5");
}

#[test]
fn compound_assignment() {
    let mut state = make_state();
    set_variable(&mut state, "x", "10".into());
    assert_eq!(eval_with("x += 5", &mut state), 15);
    assert_eq!(state.scalar("x"), "15");
}

#[test]
fn pre_increment() {
    let mut state = make_state();
    set_variable(&mut state, "x", "5".into());
    assert_eq!(eval_with("++x", &mut state), 6);
    assert_eq!(state.scalar("x"), "6");
}

#[test]
fn post_increment() {
    let mut state = make_state();
    set_variable(&mut state, "x", "5".into());
    assert_eq!(eval_with("x++", &mut state), 5);
    assert_eq!(state.scalar("x"), "6");
}

#[test]
fn pre_decrement() {
    let mut state = make_state();
    set_variable(&mut state, "x", "5".into());
    assert_eq!(eval_with("--x", &mut state), 4);
    assert_eq!(state.scalar("x"), "4");
}

#[test]
fn post_decrement() {
    let mut state = make_state();
    set_variable(&mut state, "x", "5".into());
    assert_eq!(eval_with("x--", &mut state), 5);
    assert_eq!(state.scalar("x"), "4");
}

#[test]
fn division_by_zero() {
    let mut state = make_state();
    assert!(eval_arithmetic("1 / 0", &mut state).is_err());
}

#[test]
fn modulo_by_zero() {
    let mut state = make_state();
    assert!(eval_arithmetic("1 % 0", &mut state).is_err());
}

#[test]
fn undefined_variable_defaults_to_zero() {
    assert_eq!(eval("undefined_var"), 0);
}

#[test]
fn empty_expression() {
    assert_eq!(eval(""), 0);
}

#[test]
fn nested_parens() {
    assert_eq!(eval("((2 + 3) * (4 - 1))"), 15);
}

#[test]
fn comma_operator() {
    let mut state = make_state();
    let result = eval_with("x = 1, y = 2, x + y", &mut state);
    assert_eq!(result, 3);
}

#[test]
fn complex_expression() {
    assert_eq!(eval("2 + 3 * 4 - 1"), 13);
}

#[test]
fn dollar_brace_variable() {
    let mut state = make_state();
    set_variable(&mut state, "foo", "42".into());
    assert_eq!(eval_with("${foo} + 1", &mut state), 43);
}

#[test]
fn short_circuit_skips_the_other_side() {
    let mut state = make_state();
    assert_eq!(eval_with("0 && (x = 7)", &mut state), 0);
    assert_eq!(eval_with("1 || (y = 7)", &mut state), 1);
    assert_eq!(eval_with("1 ? 2 : (z = 7)", &mut state), 2);
    assert_eq!(state.scalar("x"), "");
    assert_eq!(state.scalar("y"), "");
    assert_eq!(state.scalar("z"), "");
}

#[test]
fn wrapping_arithmetic() {
    assert_eq!(eval("9223372036854775807 + 1"), i64::MIN);
    let mut state = make_state();
    set_variable(&mut state, "m", "-9223372036854775808".into());
    assert_eq!(eval_with("-m", &mut state), i64::MIN);
}

#[test]
fn stored_strings_are_evaluated() {
    let mut state = make_state();
    set_variable(&mut state, "a", "b".into());
    set_variable(&mut state, "b", "3 + 4".into());
    assert_eq!(eval_with("a * 2", &mut state), 14);
    set_variable(&mut state, "loop", "loop + 1".into());
    let msg = message(eval_arithmetic("loop", &mut state));
    assert!(msg.contains("recursive evaluation depth exceeded"), "msg: {msg}");
}

#[test]
fn arrays_by_index_and_key() {
    let mut state = make_state();
    assert_eq!(eval_with("a[2] = 5", &mut state), 5);
    assert_eq!(eval_with("a[0] = 1", &mut state), 1);
    assert_eq!(eval_with("a[-1] + a[0]", &mut state), 6);
    assert_eq!(eval_with("a[-1] = 9", &mut state), 9);
    assert_eq!(eval_with("a[2]", &mut state), 9);
    state.vars.push(("m".to_string(), VarValue::Assoc(Vec::new())));
    assert_eq!(eval_with("m[\"my key\"] = 4", &mut state), 4);
    assert_eq!(eval_with("m[\"my key\"] * 2", &mut state), 8);
    let msg = message(eval_arithmetic("b[-1] = 1", &mut state));
    assert_eq!(msg, "b: bad array subscript");
}

#[test]
fn positional_and_special_parameters() {
    let mut state = make_state();
    state.positional = vec!["7".to_string(), "x".to_string()];
    state.last_exit = 3;
    assert_eq!(eval_with("$1 + $# + $?", &mut state), 12);
    assert_eq!(eval_with("$2", &mut state), 0);
}

#[test]
fn nounset_reports_unset_names() {
    let mut state = make_state();
    state.nounset = true;
    assert_eq!(message(eval_arithmetic("nope + 1", &mut state)), "nope: unbound variable");
    assert_eq!(message(eval_arithmetic("arr[1]", &mut state)), "arr[1]: unbound variable");
}
