use cel::{Context, CostTracker, ExecutionError, Program};

#[test]
fn tracks_runtime_branch_and_string_cost() {
    let program =
        Program::compile("false ? 'unused'.contains('x') : 'abcdefghij'.startsWith('a')").unwrap();
    let result = program
        .execute_with_cost(&Context::default(), CostTracker::default())
        .unwrap();
    assert_eq!(result.actual_cost, 1);
}

#[test]
fn enforces_limit() {
    let program = Program::compile("[1, 2, 3]").unwrap();
    let tracker = CostTracker::builder().limit(9).build();
    assert_eq!(
        program.execute_with_cost(&Context::default(), tracker),
        Err(ExecutionError::CostLimitExceeded {
            limit: 9,
            actual: 10
        })
    );
}

use cel::cost::{CostTrackerBuilder, FunctionTracker};
use cel::pricing::{actual_size, standard_call_cost, traversal};
use cel::rounding::quarter_up;
use cel::value::Key;
use cel::{ActualCostEstimator, Value};
use std::sync::Arc;

fn variables() -> Context {
    let mut ctx = Context::default();
    ctx.add_variable_from_value("x", Value::Int(1));
    ctx.add_variable_from_value("yes", Value::Bool(true));
    ctx.add_variable_from_value(
        "m",
        Value::dict(vec![(Key::String(Arc::new("f".to_string())), Value::Int(5))]),
    );
    ctx
}

fn cost_under(source: &str, builder: CostTrackerBuilder) -> u64 {
    let program = Program::compile(source).unwrap();
    let mut tracker = builder.build();
    let result = program.execute_tracked(&variables(), &mut tracker);
    assert_eq!(result, program.execute(&variables()), "{source}");
    tracker.actual_cost()
}

fn cost(source: &str) -> u64 {
    cost_under(source, CostTracker::builder())
}

#[test]
fn nodes_have_their_costs() {
    assert_eq!(cost("1"), 0);
    assert_eq!(cost("'text'"), 0);
    assert_eq!(cost("x"), 1);
    assert_eq!(cost("m.f"), 2);
    assert_eq!(cost("has(m.f)"), 2);
    assert_eq!(cost("[]"), 10);
    assert_eq!(cost("[x, 1]"), 11);
    assert_eq!(cost("{'a': x}"), 31);
    assert_eq!(cost("x + 1"), 2);
    assert_eq!(cost("-x"), 2);
}

#[test]
fn presence_tests_can_be_free() {
    let builder = CostTracker::builder().presence_test_has_cost(false);
    assert_eq!(cost_under("has(m.f)", builder), 1);
    assert_eq!(cost_under("has(m.f)", CostTrackerBuilder::default()), 1);
    assert_eq!(cost_under("m.f", CostTrackerBuilder::default()), 2);
}

#[test]
fn only_the_taken_branch_is_charged() {
    assert_eq!(cost("yes ? x : [x]"), 2);
    assert_eq!(cost("!yes ? x : [x]"), 13);
    assert_eq!(cost("yes || x == 1"), 1);
    assert_eq!(cost("yes && x == 1"), 3);
}

#[test]
fn calls_are_charged_by_the_data_they_read() {
    assert_eq!(cost("'abcdefghij'.startsWith('a')"), 1);
    assert_eq!(cost("'abcdefghijk'.startsWith('a')"), 2);
    assert_eq!(cost("'abcdefghijk'.endsWith('a')"), 2);
    assert_eq!(cost("''.endsWith('a')"), 0);
    assert_eq!(cost("'abcdefghijk'.contains('a')"), 2);
    assert_eq!(cost("'abcdefghijk'.contains('abcdefghijk')"), 4);
    assert_eq!(cost("1 in [1, 2, 3]"), 13);
    assert_eq!(cost("'abcdefghijk' == 'abc'"), 1);
    assert_eq!(cost("'abcdefghijk' == 'abcdefghijk'"), 2);
    assert_eq!(cost("'abcdefghijk' + 'abcdefghijk'"), 3);
    assert_eq!(cost("size('abcdefghijk')"), 1);
    assert_eq!(cost("string('abcdefghijk')"), 2);
}

#[test]
fn matching_is_charged_by_pattern_and_text() {
    let text = Value::text("abcdefghij");
    let pattern = Value::text("a.*bc");
    assert_eq!(standard_call_cost("matches", &[&text, &pattern]), 4);
    assert_eq!(standard_call_cost("matches", &[&text]), 1);
    assert_eq!(standard_call_cost("quote", &[&text]), 1);
    assert_eq!(standard_call_cost("unknown", &[]), 1);
}

#[test]
fn sizes_look_into_optional_values() {
    let list = Value::list(vec![Value::Null, Value::Null]);
    assert_eq!(actual_size(&list), 2);
    assert_eq!(actual_size(&Value::Optional(Some(Arc::new(list)))), 2);
    assert_eq!(actual_size(&Value::Optional(None)), 1);
    assert_eq!(actual_size(&Value::Int(1000)), 1);
    assert_eq!(actual_size(&Value::text("abc")), 3);
}

#[test]
fn rounding_is_that_of_doubles() {
    let mut n: u64 = 1;
    let mut sizes: Vec<u64> = (0..5000).collect();
    for _ in 0..20000 {
        n = n
            .wrapping_mul(6364136223846793005)
            .wrapping_add(1442695040888963407);
        sizes.push(n);
        sizes.push(n >> (n % 64));
    }
    for shift in 0..64 {
        for offset in [0, 1, 2, 3] {
            sizes.push((1u64 << shift).wrapping_add(offset));
            sizes.push((1u64 << shift).wrapping_sub(offset));
        }
    }
    for size in sizes {
        assert_eq!(traversal(size), ((size as f64) * 0.1).ceil() as u64, "{size}");
        assert_eq!(quarter_up(size), ((size as f64) * 0.25).ceil() as u64, "{size}");
    }
}

#[test]
fn comprehensions_are_charged_by_their_rounds() {
    // The list costs ten, each round two for its condition and three for its
    // step, and the result one.
    assert_eq!(cost("[1, 2].all(v, v > 0)"), 21);
    assert_eq!(cost("[].all(v, v > 0)"), 11);
    // The second round only finds that the test has failed.
    assert_eq!(cost("[-1, 2].all(v, v > 0)"), 18);
}

#[test]
fn the_limit_is_inclusive() {
    let program = Program::compile("[1, 2, 3]").unwrap();
    let mut tracker = CostTracker::with_limit(10);
    assert!(program.execute_tracked(&Context::default(), &mut tracker).is_ok());
    assert_eq!(tracker.limit(), Some(10));
    assert_eq!(tracker.actual_cost(), 10);
}

#[test]
fn the_limit_stops_an_evaluation_midway() {
    let program = Program::compile("[[1], [2], [3]]").unwrap();
    let mut tracker = CostTracker::with_limit(15);
    assert_eq!(
        program.execute_tracked(&Context::default(), &mut tracker),
        Err(ExecutionError::CostLimitExceeded {
            limit: 15,
            actual: 20
        })
    );
}

#[test]
fn errors_of_the_program_come_first() {
    let program = Program::compile("[1 / 0]").unwrap();
    let mut tracker = CostTracker::with_limit(0);
    assert_eq!(
        program.execute_tracked(&Context::default(), &mut tracker),
        Err(ExecutionError::DivisionByZero(Value::Int(1)))
    );
    assert_eq!(
        program.execute_with_cost(&Context::default(), CostTracker::with_limit(0)),
        Err(ExecutionError::DivisionByZero(Value::Int(1)))
    );
}

fn run_with_cost(source: &str, tracker: CostTracker) -> Result<u64, ExecutionError> {
    let program = Program::compile(source).unwrap();
    let result = program.execute_with_cost(&variables(), tracker)?;
    assert_eq!(Ok(result.value), program.execute(&variables()), "{source}");
    Ok(result.actual_cost)
}

#[test]
fn a_run_costs_what_its_nodes_cost() {
    assert_eq!(run_with_cost("x", CostTracker::default()), Ok(1));
    assert_eq!(run_with_cost("[x]", CostTracker::default()), Ok(11));
    assert_eq!(run_with_cost("[1, 2, 3]", CostTracker::with_limit(10)), Ok(10));
    assert_eq!(run_with_cost("[1, 2].all(v, v > 0)", CostTracker::default()), Ok(21));
}

#[test]
fn a_run_of_free_nodes_costs_one() {
    assert_eq!(run_with_cost("'text'", CostTracker::default()), Ok(1));
    assert_eq!(run_with_cost("true ? 1 : 2", CostTracker::with_limit(1)), Ok(1));
    assert_eq!(
        run_with_cost("true && false", CostTracker::with_limit(0)),
        Err(ExecutionError::CostLimitExceeded {
            limit: 0,
            actual: 1
        })
    );
}

#[test]
fn a_run_adds_to_what_the_tracker_has_counted() {
    let mut tracker = CostTracker::default();
    assert_eq!(tracker.charge(5), Ok(()));
    assert_eq!(run_with_cost("1", tracker), Ok(6));
    let mut tracker = CostTracker::default();
    assert_eq!(tracker.charge(5), Ok(()));
    assert_eq!(run_with_cost("[]", tracker), Ok(15));
}

#[test]
fn a_failing_run_reports_its_own_error_before_the_limit() {
    assert_eq!(
        run_with_cost("[[1], 1 / 0]", CostTracker::with_limit(5)),
        Err(ExecutionError::DivisionByZero(Value::Int(1)))
    );
    assert_eq!(
        run_with_cost("[[1], 1 / 1]", CostTracker::with_limit(5)),
        Err(ExecutionError::CostLimitExceeded {
            limit: 5,
            actual: 10
        })
    );
}

#[test]
fn evaluations_add_up_until_reset() {
    let program = Program::compile("[x]").unwrap();
    let mut tracker = CostTracker::builder().limit(25).build();
    program.execute_tracked(&variables(), &mut tracker).unwrap();
    program.execute_tracked(&variables(), &mut tracker).unwrap();
    assert_eq!(tracker.actual_cost(), 22);
    assert!(program.execute_tracked(&variables(), &mut tracker).is_err());
    tracker.reset();
    assert_eq!(tracker.actual_cost(), 0);
    assert_eq!(tracker.limit(), Some(25));
    program.execute_tracked(&variables(), &mut tracker).unwrap();
    assert_eq!(tracker.actual_cost(), 11);
}

#[test]
fn charges_saturate() {
    let mut tracker = CostTracker::default();
    assert_eq!(tracker.charge(u64::MAX), Ok(()));
    assert_eq!(tracker.charge(1), Ok(()));
    assert_eq!(tracker.actual_cost(), u64::MAX);
    let mut limited = CostTracker::with_limit(5);
    assert_eq!(limited.charge(5), Ok(()));
    assert_eq!(
        limited.charge(1),
        Err(ExecutionError::CostLimitExceeded {
            limit: 5,
            actual: 6
        })
    );
}

/// Charges a thousand for `size`, and asks that a receiver comes first.
struct Estimator;

impl ActualCostEstimator for Estimator {
    fn call_cost(&self, function: &str, args: &[&Value], result: &Value) -> Option<u64> {
        if function == "size" {
            Some(1000)
        } else if function == "startsWith" {
            assert_eq!(args, [&Value::text("abc"), &Value::text("a")]);
            assert_eq!(result, &Value::Bool(true));
            Some(7)
        } else {
            None
        }
    }
}

/// Charges the number of arguments, but has no answer for null.
struct CountArguments;

impl FunctionTracker for CountArguments {
    fn call_cost(&self, args: &[&Value], _result: &Value) -> Option<u64> {
        if args.iter().any(|v| matches!(v, Value::Null)) {
            None
        } else {
            Some(100 + args.len() as u64)
        }
    }
}

#[test]
fn estimators_and_trackers_replace_the_standard_cost() {
    let estimated = || CostTracker::builder().estimator(Arc::new(Estimator));
    assert_eq!(cost_under("size('abc')", estimated()), 1000);
    assert_eq!(cost_under("'abc'.startsWith('a')", estimated()), 7);
    assert_eq!(cost_under("'abc'.endsWith('a')", estimated()), 1);
    let counted = || estimated().overload_tracker("size".to_string(), Arc::new(CountArguments));
    assert_eq!(cost_under("size('abc')", counted()), 101);
    let compared = || {
        CostTracker::builder().overload_tracker("_==_".to_string(), Arc::new(CountArguments))
    };
    assert_eq!(cost_under("1 == 2", compared()), 102);
    assert_eq!(cost_under("1 == null", compared()), 1);
}

use cel::ast::{
    CallExpr, EntryExpr, Expr, IdedEntryExpr, IdedExpr, Literal, StructExpr, StructFieldExpr,
};

fn text_node(id: u64, text: &str) -> IdedExpr {
    IdedExpr {
        id,
        expr: Expr::Literal(Literal::String(text.to_string())),
    }
}

fn method_node(id: u64, func: &str, target: IdedExpr, arg: IdedExpr) -> IdedExpr {
    IdedExpr {
        id,
        expr: Expr::Call(CallExpr {
            func_name: func.to_string(),
            target: Some(Box::new(target)),
            args: vec![arg],
        }),
    }
}

#[test]
fn a_message_has_a_base_cost() {
    let field = text_node(1, "v");
    let mut tracker = CostTracker::default();
    assert_eq!(tracker.observe(&field, &Value::text("v")), Ok(()));
    let message = IdedExpr {
        id: 3,
        expr: Expr::Struct(StructExpr {
            message_type: "M".to_string(),
            entries: vec![IdedEntryExpr {
                id: 2,
                expr: EntryExpr::StructField(StructFieldExpr {
                    field: "f".to_string(),
                    value: field,
                }),
            }],
        }),
    };
    assert_eq!(tracker.observe(&message, &Value::Null), Ok(()));
    assert_eq!(tracker.actual_cost(), 40);
}

#[test]
fn a_call_without_observed_arguments_is_free() {
    let call = method_node(3, "startsWith", text_node(1, "ab"), text_node(2, "a"));
    let mut tracker = CostTracker::default();
    assert_eq!(tracker.observe(&call, &Value::Bool(true)), Ok(()));
    assert_eq!(tracker.actual_cost(), 0);
}

#[test]
fn a_call_without_an_observed_receiver_is_priced_by_its_arguments() {
    let mut tracker = CostTracker::default();
    let arg = text_node(2, "abcdefghijk");
    assert_eq!(tracker.observe(&arg, &Value::text("abcdefghijk")), Ok(()));
    let call = method_node(3, "startsWith", text_node(1, ""), arg);
    assert_eq!(tracker.observe(&call, &Value::Bool(true)), Ok(()));
    assert_eq!(tracker.actual_cost(), 2);
}
