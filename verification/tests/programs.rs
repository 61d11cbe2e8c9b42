use cel::value::Key;
use cel::{Context, CostTracker, ExecutionError, Program, ResolveResult, Value};
use std::sync::Arc;

fn test_script(script: &str, ctx: Option<Context>) -> ResolveResult {
    let program = Program::compile(script).unwrap_or_else(|e| panic!("{e:?}"));
    program.execute(&ctx.unwrap_or_default())
}

#[test]
fn parse() {
    Program::compile("1 + 1").unwrap();
}

#[test]
fn from_str() {
    let _p: Program = "1.1".try_into().unwrap();
}

#[test]
fn variables() {
    fn assert_output(script: &str, expected: ResolveResult) {
        let mut ctx = Context::default();
        ctx.add_variable_from_value(
            "foo",
            Value::dict(vec![(Key::String(Arc::new("bar".to_string())), Value::Int(1))]),
        );
        ctx.add_variable_from_value(
            "arr",
            Value::list(vec![Value::Int(1), Value::Int(2), Value::Int(3)]),
        );
        ctx.add_variable_from_value("str", "foobar".to_string().into());
        assert_eq!(test_script(script, Some(ctx)), expected);
    }

    assert_output("size([1, 2, 3]) == 3", Ok(true.into()));
    assert_output("size([size([42]), 2, 3]) == 3", Ok(true.into()));
    assert_output("size([]) == 3", Ok(false.into()));
    assert_output("foo.bar == 1", Ok(true.into()));
    assert_output("arr[0] == 1", Ok(true.into()));
    assert_output("str[0]", Err(ExecutionError::NoSuchOverload));
}

#[test]
fn cost_tracked_execution_reports_cost() {
    let program = Program::compile("1 + 1").unwrap();
    let result = program
        .execute_with_cost(&Context::default(), CostTracker::with_limit(1))
        .unwrap();
    assert_eq!(result.value, Value::Int(2));
    assert_eq!(result.actual_cost, 1);
}

#[test]
fn cost_tracked_execution_enforces_limit() {
    let program = Program::compile("1").unwrap();
    assert_eq!(
        program.execute_with_cost(&Context::default(), CostTracker::with_limit(0)),
        Err(ExecutionError::CostLimitExceeded {
            limit: 0,
            actual: 1,
        })
    );
}

fn value_of(script: &str) -> Value {
    test_script(script, None).unwrap_or_else(|e| panic!("{script}: {e:?}"))
}

fn error_of(script: &str) -> ExecutionError {
    match test_script(script, None) {
        Ok(v) => panic!("{script}: {v:?}"),
        Err(e) => e,
    }
}

#[test]
fn operators_bind_as_usual() {
    assert_eq!(value_of("1 + 2 * 3"), Value::Int(7));
    assert_eq!(value_of("(1 + 2) * 3"), Value::Int(9));
    assert_eq!(value_of("10 - 2 - 3"), Value::Int(5));
    assert_eq!(value_of("1 < 2 && 2 < 3 || false"), Value::Bool(true));
    assert_eq!(value_of("true || false && false"), Value::Bool(true));
    assert_eq!(value_of("1 + 1 == 2"), Value::Bool(true));
    assert_eq!(value_of("!true == false"), Value::Bool(true));
    assert_eq!(value_of("true ? 1 : false ? 2 : 3"), Value::Int(1));
    assert_eq!(value_of("false ? 1 : false ? 2 : 3"), Value::Int(3));
    assert_eq!(value_of("--1"), Value::Int(1));
    assert_eq!(value_of("2 in [1, 2,]"), Value::Bool(true));
}

#[test]
fn division_rounds_towards_zero() {
    assert_eq!(value_of("-7 / 2"), Value::Int(-3));
    assert_eq!(value_of("-7 % 2"), Value::Int(-1));
    assert_eq!(value_of("7u / 2u"), Value::UInt(3));
    assert_eq!(value_of("7u % 2u"), Value::UInt(1));
}

#[test]
fn numbers_are_read_up_to_their_limits() {
    assert_eq!(value_of("9223372036854775807"), Value::Int(i64::MAX));
    assert_eq!(value_of("-9223372036854775808"), Value::Int(i64::MIN));
    assert_eq!(value_of("18446744073709551615u"), Value::UInt(u64::MAX));
    assert_eq!(value_of("0xFFu"), Value::UInt(255));
    assert_eq!(value_of("-0x10"), Value::Int(-16));
}

#[test]
fn texts_are_read_with_escapes() {
    assert_eq!(value_of(r#""a\n\t\"'\\""#), Value::text("a\n\t\"'\\"));
    assert_eq!(value_of(r"r'a\n'"), Value::text("a\\n"));
    assert_eq!(value_of("b'é'"), Value::Bytes(Arc::new(vec![0xc3, 0xa9])));
    assert_eq!(value_of("'a' + 'b' // done"), Value::text("ab"));
    assert_eq!(value_of("size('é')"), Value::Int(1));
    assert_eq!(value_of("size(bytes('é'))"), Value::Int(2));
}

#[test]
fn values_turn_into_texts() {
    assert_eq!(value_of("string(-120)"), Value::text("-120"));
    assert_eq!(value_of("string(0)"), Value::text("0"));
    assert_eq!(value_of("string(18446744073709551615u)"), Value::text("18446744073709551615"));
    assert_eq!(value_of("string(true)"), Value::text("true"));
    assert_eq!(value_of("string('x')"), Value::text("x"));
}

#[test]
fn texts_are_searched() {
    assert_eq!(value_of("'hello'.contains('ell')"), Value::Bool(true));
    assert_eq!(value_of("'hello'.contains('')"), Value::Bool(true));
    assert_eq!(value_of("'hello'.contains('elo')"), Value::Bool(false));
    assert_eq!(value_of("'hello'.startsWith('he')"), Value::Bool(true));
    assert_eq!(value_of("'hello'.endsWith('lo')"), Value::Bool(true));
    assert_eq!(value_of("'lo'.endsWith('hello')"), Value::Bool(false));
}

#[test]
fn values_are_compared() {
    assert_eq!(value_of("1 == 1u"), Value::Bool(true));
    assert_eq!(value_of("-1 < 0u"), Value::Bool(true));
    assert_eq!(value_of("'abc' < 'abd'"), Value::Bool(true));
    assert_eq!(value_of("'ab' < 'abc'"), Value::Bool(true));
    assert_eq!(value_of("b'b' >= b'ab'"), Value::Bool(true));
    assert_eq!(value_of("false < true"), Value::Bool(true));
    assert_eq!(value_of("[1, 2] == [1, 2]"), Value::Bool(true));
    assert_eq!(value_of("[1, 2] != [2, 1]"), Value::Bool(true));
    assert_eq!(value_of("{'a': 1, 'b': 2} == {'b': 2, 'a': 1}"), Value::Bool(true));
    assert_eq!(value_of("1 == 'a'"), Value::Bool(false));
    assert_eq!(value_of("null == null"), Value::Bool(true));
}

#[test]
fn maps_hold_the_last_value_of_a_key() {
    assert_eq!(value_of("{'a': 1, 'a': 2}.a"), Value::Int(2));
    assert_eq!(value_of("{'a': 1, 2: 'x', true: null}[2]"), Value::text("x"));
    assert_eq!(value_of("size({'a': 1, 'a': 2})"), Value::Int(1));
    assert_eq!(value_of("'a' in {'a': 1}"), Value::Bool(true));
    assert_eq!(value_of("has({'a': 1}.b)"), Value::Bool(false));
    assert_eq!(value_of("has({'a': 1}.a)"), Value::Bool(true));
}

#[test]
fn comprehensions_run_over_their_range() {
    assert_eq!(value_of("[1, 2].all(x, x > 0)"), Value::Bool(true));
    assert_eq!(value_of("[1, -2].all(x, x > 0)"), Value::Bool(false));
    assert_eq!(value_of("[].all(x, x > 0)"), Value::Bool(true));
    assert_eq!(value_of("[1, -2].exists(x, x < 0)"), Value::Bool(true));
    assert_eq!(value_of("[].exists(x, x < 0)"), Value::Bool(false));
    assert_eq!(value_of("[1, 2, 3].exists_one(x, x > 2)"), Value::Bool(true));
    assert_eq!(value_of("[1, 2, 3].exists_one(x, x > 1)"), Value::Bool(false));
    assert_eq!(value_of("[1, 2].map(x, x * x) == [1, 4]"), Value::Bool(true));
    assert_eq!(value_of("[1, 2, 3].map(x, x > 1, x * x) == [4, 9]"), Value::Bool(true));
    assert_eq!(value_of("[1, 2, 3].filter(x, x != 2) == [1, 3]"), Value::Bool(true));
    assert_eq!(value_of("{'a': 1}.all(k, k == 'a')"), Value::Bool(true));
    assert_eq!(
        value_of("[1, 2].map(x, [3, 4].map(y, x * y)) == [[3, 4], [6, 8]]"),
        Value::Bool(true)
    );
}

#[test]
fn comprehension_variables_hide_the_context() {
    let mut ctx = Context::default();
    ctx.add_variable_from_value("x", Value::Int(7));
    assert_eq!(
        test_script("[1].map(x, x + 1)[0] + x", Some(ctx)),
        Ok(Value::Int(9))
    );
}

#[test]
fn errors_tell_what_went_wrong() {
    assert_eq!(error_of("x"), ExecutionError::undeclared_reference("x"));
    assert_eq!(error_of("f(1)"), ExecutionError::undeclared_reference("f"));
    assert_eq!(error_of("size(1, 2)"), ExecutionError::invalid_argument_count(1, 2));
    assert_eq!(error_of("{'a': 1}.b"), ExecutionError::no_such_key("b"));
    assert_eq!(error_of("{1: 1}[2]"), ExecutionError::no_such_key("2"));
    assert_eq!(
        error_of("{[]: 1}"),
        ExecutionError::unsupported_key_type(Value::list(vec![]))
    );
    assert_eq!(
        error_of("null in {'a': 1}"),
        ExecutionError::unsupported_key_type(Value::Null)
    );
    assert_eq!(
        error_of("'a'.string()"),
        ExecutionError::not_supported_as_method("string", Value::text("a"))
    );
    assert_eq!(error_of("1 / 0"), ExecutionError::DivisionByZero(Value::Int(1)));
    assert_eq!(error_of("1u % 0u"), ExecutionError::RemainderByZero(Value::UInt(1)));
    assert_eq!(
        error_of("9223372036854775807 + 1"),
        ExecutionError::Overflow("add", Value::Int(i64::MAX), Value::Int(1))
    );
    assert_eq!(
        error_of("0u - 1u"),
        ExecutionError::Overflow("sub", Value::UInt(0), Value::UInt(1))
    );
    assert_eq!(
        error_of("9223372036854775807 * 2"),
        ExecutionError::Overflow("mul", Value::Int(i64::MAX), Value::Int(2))
    );
    assert_eq!(
        error_of("(-9223372036854775808) / -1"),
        ExecutionError::Overflow("div", Value::Int(i64::MIN), Value::Int(-1))
    );
    assert_eq!(
        error_of("(-9223372036854775808) % -1"),
        ExecutionError::Overflow("rem", Value::Int(i64::MIN), Value::Int(-1))
    );
    assert_eq!(
        error_of("[1][1]"),
        ExecutionError::IndexOutOfBounds(Value::Int(1))
    );
    assert_eq!(
        error_of("[1][-1]"),
        ExecutionError::IndexOutOfBounds(Value::Int(-1))
    );
    assert_eq!(error_of("1 + 'a'"), ExecutionError::NoSuchOverload);
    assert_eq!(error_of("1 ? 2 : 3"), ExecutionError::NoSuchOverload);
    assert_eq!(error_of("1 && true"), ExecutionError::NoSuchOverload);
    assert_eq!(
        error_of("1.5"),
        ExecutionError::UnexpectedType {
            got: "double".to_string(),
            want: "exact value".to_string()
        }
    );
}

#[test]
fn errors_are_built_by_name() {
    assert_eq!(
        ExecutionError::no_such_key("k"),
        ExecutionError::NoSuchKey(Arc::new("k".to_string()))
    );
    assert_eq!(
        ExecutionError::undeclared_reference("v"),
        ExecutionError::UndeclaredReference(Arc::new("v".to_string()))
    );
    assert_eq!(
        ExecutionError::invalid_argument_count(2, 3),
        ExecutionError::InvalidArgumentCount {
            expected: 2,
            actual: 3
        }
    );
    assert_eq!(
        ExecutionError::function_error("f", 42),
        ExecutionError::FunctionError {
            function: "f".to_string(),
            message: "42".to_string()
        }
    );
    assert_eq!(
        ExecutionError::unsupported_target_type(Value::Null),
        ExecutionError::UnsupportedTargetType { target: Value::Null }
    );
    assert_eq!(
        ExecutionError::not_supported_as_method("m", Value::Int(1)),
        ExecutionError::NotSupportedAsMethod {
            method: "m".to_string(),
            target: Value::Int(1)
        }
    );
    assert_eq!(
        ExecutionError::unsupported_key_type(Value::Null),
        ExecutionError::UnsupportedKeyType(Value::Null)
    );
    assert_eq!(
        ExecutionError::missing_argument_or_target(),
        ExecutionError::MissingArgumentOrTarget
    );
}

#[test]
fn copies_of_errors_and_expressions_are_equal() {
    let program = Program::compile("{'a': [1u, -2, 1.5, null, b'x'], 'b': x.y(z)[0]}").unwrap();
    let expression = program.expression().clone();
    assert_eq!(&expression, program.expression());
    let error = ExecutionError::UnsupportedFunctionCallIdentifierType(expression);
    assert_eq!(error.clone(), error);
    let fold = Program::compile("[1].map(x, has(x.y), x.y)").unwrap();
    assert_eq!(&fold.expression().clone(), fold.expression());
}

#[test]
fn logic_looks_no_further_than_needed() {
    assert_eq!(value_of("false && 1 / 0 == 1"), Value::Bool(false));
    assert_eq!(value_of("true || 1 / 0 == 1"), Value::Bool(true));
    assert_eq!(value_of("true ? 1 : 1 / 0"), Value::Int(1));
    assert_eq!(
        error_of("true && 1 / 0 == 1"),
        ExecutionError::DivisionByZero(Value::Int(1))
    );
}

fn message(error: ExecutionError) -> String {
    error.message().unwrap()
}

#[test]
fn errors_have_messages() {
    assert_eq!(
        message(ExecutionError::invalid_argument_count(2, 3)),
        "Invalid argument count: expected 2, got 3"
    );
    assert_eq!(
        message(ExecutionError::UnexpectedType {
            got: "a".to_string(),
            want: "b".to_string()
        }),
        "Unexpected type: got 'a', want 'b'"
    );
    assert_eq!(message(ExecutionError::no_such_key("k")), "No such key: k");
    assert_eq!(message(ExecutionError::NoSuchOverload), "No such overload");
    assert_eq!(
        message(ExecutionError::undeclared_reference("x")),
        "Undeclared reference to 'x'"
    );
    assert_eq!(
        message(ExecutionError::missing_argument_or_target()),
        "Missing argument or target"
    );
    assert_eq!(
        message(ExecutionError::function_error("f", "boom")),
        "Error executing function 'f': boom"
    );
    assert_eq!(
        message(ExecutionError::CostLimitExceeded {
            limit: 9,
            actual: 10
        }),
        "actual cost limit exceeded: limit 9, actual cost 10"
    );
}

#[test]
fn messages_show_what_an_error_carries() {
    let one = Value::Int(1);
    let two = Value::Int(2);
    let expression = Program::compile("x").unwrap().expression().clone();
    let cases = vec![
        (
            ExecutionError::unsupported_target_type(one.clone()),
            vec!["V"],
            "Invalid argument type: V",
        ),
        (
            ExecutionError::not_supported_as_method("m", one.clone()),
            vec!["V"],
            "Method 'm' not supported on type 'V'",
        ),
        (
            ExecutionError::unsupported_key_type(one.clone()),
            vec!["V"],
            "Unable to use value 'V' as a key",
        ),
        (
            ExecutionError::ValuesNotComparable(one.clone(), two.clone()),
            vec!["V", "W"],
            "V can not be compared to W",
        ),
        (
            ExecutionError::UnsupportedUnaryOperator("neg", one.clone()),
            vec!["V"],
            "Unsupported unary operator 'neg': V",
        ),
        (
            ExecutionError::UnsupportedBinaryOperator("add", one.clone(), two.clone()),
            vec!["V", "W"],
            "Unsupported binary operator 'add': V, W",
        ),
        (
            ExecutionError::UnsupportedMapIndex(one.clone()),
            vec!["V"],
            "Cannot use value as map index: V",
        ),
        (
            ExecutionError::UnsupportedListIndex(one.clone()),
            vec!["V"],
            "Cannot use value as list index: V",
        ),
        (
            ExecutionError::UnsupportedIndex(one.clone(), two.clone()),
            vec!["V", "W"],
            "Cannot use value V to index W",
        ),
        (
            ExecutionError::UnsupportedFunctionCallIdentifierType(expression),
            vec!["E"],
            "Unsupported function call identifier type: E",
        ),
        (
            ExecutionError::DivisionByZero(one.clone()),
            vec!["V"],
            "Division by zero of V",
        ),
        (
            ExecutionError::RemainderByZero(one.clone()),
            vec!["V"],
            "Remainder by zero of V",
        ),
        (
            ExecutionError::Overflow("mul", one.clone(), two),
            vec!["V", "W"],
            "Overflow from binary operator 'mul': V, W",
        ),
        (
            ExecutionError::IndexOutOfBounds(one),
            vec!["V"],
            "Index out of bounds: V",
        ),
        (
            ExecutionError::InternalError("broken".to_string()),
            vec!["\"broken\""],
            "InternalError: \"broken\"",
        ),
    ];
    for (error, shown, expected) in cases {
        assert_eq!(error.message(), None);
        assert_eq!(error.shown_count(), shown.len());
        let shown: Vec<String> = shown.iter().map(|s| s.to_string()).collect();
        assert_eq!(error.message_showing(&shown), expected);
    }
}

#[test]
fn texts_become_values() {
    assert_eq!(Value::from("abc"), Value::text("abc"));
    assert_ne!(Value::from("abc"), Value::Null);
}

fn text_key(s: &str) -> Key {
    Key::String(Arc::new(s.to_string()))
}

#[test]
fn maps_are_built_with_one_entry_for_a_key() {
    let map = Value::dict(vec![
        (text_key("a"), Value::Int(1)),
        (text_key("b"), Value::Int(2)),
        (text_key("a"), Value::Int(3)),
        (Key::Int(7), Value::Int(4)),
        (Key::UInt(7), Value::Int(5)),
    ]);
    let expected = Value::dict(vec![
        (text_key("a"), Value::Int(3)),
        (text_key("b"), Value::Int(2)),
        (Key::Int(7), Value::Int(5)),
    ]);
    assert_eq!(map, expected);
    let mut ctx = Context::default();
    ctx.add_variable_from_value("m", map);
    ctx.add_variable_from_value("n", expected);
    let program = Program::compile("m.a == 3 && size(m) == 3 && m[7u] == 5 && m == n && n == m");
    assert_eq!(program.unwrap().execute(&ctx), Ok(Value::Bool(true)));
}

#[test]
fn a_map_literal_is_the_map_of_its_entries() {
    assert_eq!(
        value_of("{'a': 1, 'b': 2, 'a': 3}"),
        Value::dict(vec![
            (text_key("a"), Value::Int(1)),
            (text_key("b"), Value::Int(2)),
            (text_key("a"), Value::Int(3)),
        ])
    );
}
