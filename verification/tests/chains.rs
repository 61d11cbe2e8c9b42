use cel::cps::{run, Continuation, Pipeline, Step};
use cel::{Context, Program, ResolveResult, Value};

/// A continuation in a box.
struct Boxed<'p>(Box<dyn FnOnce(ResolveResult, &mut Context) -> Step<'p, Boxed<'p>> + 'p>);

impl<'p> Continuation<'p> for Boxed<'p> {
    fn resume(self, result: ResolveResult, ctx: &mut Context) -> Step<'p, Self> {
        (self.0)(result, ctx)
    }
}

fn cont<'p>(
    program: &'p Program,
    k: impl FnOnce(ResolveResult, &mut Context) -> Step<'p, Boxed<'p>> + 'p,
) -> Step<'p, Boxed<'p>> {
    Step::cont(program, Boxed(Box::new(k)))
}

#[test]
fn single_step() {
    let program = Program::compile("1 + 1").unwrap();
    let mut ctx = Context::default();

    let step = cont(&program, |result, _ctx| Step::done(result));

    assert_eq!(run(step, &mut ctx), Ok(2i64.into()));
}

#[test]
fn chains_and_binds_intermediate_results() {
    let square = Program::compile("x * x").unwrap();
    let add_one = Program::compile("x + 1").unwrap();
    let mut ctx = Context::default();
    ctx.add_variable_from_value("x", 4i64.into());

    // square(4) = 16, bind to `x`, then add_one(16) = 17
    let step = cont(&square, |result, ctx| {
        let value = result.unwrap();
        ctx.add_variable_from_value("x", value);
        cont(&add_one, |result, _ctx| Step::done(result))
    });

    assert_eq!(run(step, &mut ctx), Ok(17i64.into()));
}

#[test]
fn short_circuits_on_error() {
    let fails = Program::compile("missing_variable").unwrap();
    let never_runs = Program::compile("1 / 0").unwrap();
    let mut ctx = Context::default();

    let mut second_step_ran = false;
    let ran = &mut second_step_ran;
    let step = cont(&fails, |result, _ctx| {
        if result.is_err() {
            return Step::done(result);
        }
        *ran = true;
        cont(&never_runs, |result, _ctx| Step::done(result))
    });

    let result = run(step, &mut ctx);
    assert!(result.is_err());
    assert!(!second_step_ran);
}

#[test]
fn branches_on_previous_result() {
    let condition = Program::compile("x > 10").unwrap();
    let big = Program::compile("'big'").unwrap();
    let small = Program::compile("'small'").unwrap();
    let mut ctx = Context::default();
    ctx.add_variable_from_value("x", 100i64.into());

    let step = cont(&condition, |result, _ctx| {
        if result == Ok(true.into()) {
            cont(&big, |result, _ctx| Step::done(result))
        } else {
            cont(&small, |result, _ctx| Step::done(result))
        }
    });

    assert_eq!(run(step, &mut ctx), Ok("big".into()));
}

#[test]
fn pipeline_runs_in_order() {
    let step1 = Program::compile("2 + 2").unwrap();
    let step2 = Program::compile("total * 10").unwrap();
    let step3 = Program::compile("result - 1").unwrap();

    let pipeline = Pipeline::new()
        .then("total", &step1)
        .then("result", &step2)
        .then("final", &step3);

    let mut ctx = Context::default();
    assert_eq!(pipeline.run(&mut ctx), Ok(39i64.into()));
}

#[test]
fn pipeline_short_circuits_on_error() {
    let ok_step = Program::compile("1").unwrap();
    let fails = Program::compile("undeclared").unwrap();
    let never_runs = Program::compile("1 / 0").unwrap();

    let pipeline = Pipeline::new()
        .then("a", &ok_step)
        .then("b", &fails)
        .then("c", &never_runs);

    let mut ctx = Context::default();
    assert!(pipeline.run(&mut ctx).is_err());
}

#[test]
fn empty_pipeline_returns_null() {
    let pipeline = Pipeline::new();
    let mut ctx = Context::default();
    assert_eq!(pipeline.run(&mut ctx), Ok(Value::Null));
}

/// A chain long enough to overflow the stack if every continuation called the
/// next one itself.
#[test]
fn deep_chain_does_not_grow_native_stack() {
    let increment = Program::compile("prev + 1").unwrap();
    let mut ctx = Context::default();
    ctx.add_variable_from_value("prev", 0i64.into());

    const STEPS: i64 = 200_000;

    fn build(program: &Program, remaining: i64) -> Step<'_, Boxed<'_>> {
        cont(program, move |result, ctx| {
            let value = result.unwrap();
            ctx.add_variable_from_value("prev", value.clone());
            if remaining <= 1 {
                Step::done(Ok(value))
            } else {
                build(program, remaining - 1)
            }
        })
    }

    let result = run(build(&increment, STEPS), &mut ctx);
    assert_eq!(result, Ok(STEPS.into()));
}

#[test]
fn a_final_result_is_the_end() {
    let mut ctx = Context::default();
    let step: Step<'_, Boxed<'_>> = Step::done(Ok(Value::Int(3)));
    assert_eq!(run(step, &mut ctx), Ok(Value::Int(3)));
    assert_eq!(ctx.get_variable("x"), None);
}

#[test]
fn pipeline_binds_its_results() {
    let one = Program::compile("1").unwrap();
    let two = Program::compile("a + 1").unwrap();
    let mut ctx = Context::default();
    ctx.add_variable_from_value("other", Value::Bool(true));
    let pipeline = Pipeline::default().then("a", &one).then("b", &two);
    assert_eq!(pipeline.run(&mut ctx), Ok(Value::Int(2)));
    assert_eq!(ctx.get_variable("a"), Some(Value::Int(1)));
    assert_eq!(ctx.get_variable("b"), Some(Value::Int(2)));
    assert_eq!(ctx.get_variable("other"), Some(Value::Bool(true)));
}

#[test]
fn pipeline_keeps_what_was_bound_before_the_error() {
    let one = Program::compile("1").unwrap();
    let fails = Program::compile("a / 0").unwrap();
    let last = Program::compile("7").unwrap();
    let mut ctx = Context::default();
    let short = Pipeline::new().then("a", &one).then("b", &fails);
    let expected = short.run(&mut ctx);
    assert_eq!(
        expected,
        Err(cel::ExecutionError::DivisionByZero(Value::Int(1)))
    );
    let mut ctx = Context::default();
    let long = Pipeline::new()
        .then("a", &one)
        .then("b", &fails)
        .then("c", &last);
    assert_eq!(long.run(&mut ctx), expected);
    assert_eq!(ctx.get_variable("a"), Some(Value::Int(1)));
    assert_eq!(ctx.get_variable("b"), None);
    assert_eq!(ctx.get_variable("c"), None);
}

#[test]
fn a_pipeline_is_a_chain() {
    let one = Program::compile("x + 1").unwrap();
    let two = Program::compile("y * 10").unwrap();
    for start in [Value::Int(1), Value::Null] {
        let mut by_run = Context::default();
        by_run.add_variable_from_value("x", start.clone());
        let mut by_chain = Context::default();
        by_chain.add_variable_from_value("x", start);
        let pipeline = Pipeline::new().then("y", &one).then("z", &two);
        let expected = pipeline.run(&mut by_run);
        assert_eq!(run(pipeline.chain(), &mut by_chain), expected);
        for name in ["x", "y", "z"] {
            assert_eq!(by_chain.get_variable(name), by_run.get_variable(name));
        }
    }
    let empty = Pipeline::new();
    assert_eq!(run(empty.chain(), &mut Context::default()), Ok(Value::Null));
}
