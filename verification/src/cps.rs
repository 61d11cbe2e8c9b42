//! Continuation-passing-style (CPS) evaluation of [`Program`]s.
//!
//! [`Program::execute`] evaluates a single expression. To *chain* evaluations,
//! a [`Step`] either asks for a program to be run and its result to be handed
//! to a [`Continuation`], or is a final result. [`run`] drives a chain of steps
//! to its end with a plain loop (a *trampoline*): a continuation returns the
//! *next* step instead of running it, so that a chain of any length needs the
//! same native stack.
//!
//! [`Pipeline`] runs a fixed sequence of programs, binds each result to a
//! variable for the next one, and stops at the first error.

use vstd::prelude::*;
use crate::ast::Ast;
use crate::context::{Context, Env};
use crate::error::{outcome, Fault, Outcome, ResolveResult};
use crate::eval::eval;
use crate::program::Program;
use crate::value::{Val, Value};

verus! {

/// What to do after a [`Program`] has produced a result.
pub enum Step<'p, K> {
    /// Run `program`, then hand its result to `k` to obtain the next step.
    Continue { program: &'p Program, k: K },
    /// Stop the chain with a final result.
    Done(ResolveResult),
}

/// Decides how a chain goes on after the result of a program.
pub trait Continuation<'p>: Sized {
    /// The continuation may answer `result` with the step `next`, and leave the
    /// variables `after`. By default, nothing is known of the answer.
    open spec fn may_answer(
        &self,
        result: Outcome,
        ctx: Env,
        next: Step<'p, Self>,
        after: Env,
    ) -> bool {
        true
    }

    /// Takes the result of a program, and the context for binding variables.
    fn resume(self, result: ResolveResult, ctx: &mut Context) -> (next: Step<'p, Self>)
        ensures
            self.may_answer(outcome(result), old(ctx)@, next, final(ctx)@),
    ;
}

/// The chain that begins with `step` ends after at most `n` programs, whatever
/// its continuations answer.
pub open spec fn ends_within<'p, K: Continuation<'p>>(step: Step<'p, K>, ctx: Env, n: nat) -> bool
    decreases n,
{
    match step {
        Step::Done(_) => true,
        Step::Continue { program, k } => n > 0 && forall|next: Step<'p, K>, mid: Env| #[trigger]
            k.may_answer(eval(program@, ctx), ctx, next, mid) ==> ends_within(
                next,
                mid,
                (n - 1) as nat,
            ),
    }
}

/// The chain that begins with `step` ends.
pub open spec fn ends<'p, K: Continuation<'p>>(step: Step<'p, K>, ctx: Env) -> bool {
    exists|n: nat| ends_within(step, ctx, n)
}

/// The chain that begins with `step` can run `n` programs and end in `result`,
/// with the variables `after`: every program runs under the variables that the
/// continuation before it has left, and every continuation gets the result of
/// its program.
pub open spec fn runs_in<'p, K: Continuation<'p>>(
    step: Step<'p, K>,
    ctx: Env,
    n: nat,
    result: Outcome,
    after: Env,
) -> bool
    decreases n,
{
    match step {
        Step::Done(r) => n == 0 && result == outcome(r) && after == ctx,
        Step::Continue { program, k } => n > 0 && exists|next: Step<'p, K>, mid: Env|
            #[trigger] k.may_answer(eval(program@, ctx), ctx, next, mid) && runs_in(
                next,
                mid,
                (n - 1) as nat,
                result,
                after,
            ),
    }
}

/// The chain that begins with `step` can end in `result`, with the variables `after`.
pub open spec fn runs<'p, K: Continuation<'p>>(
    step: Step<'p, K>,
    ctx: Env,
    result: Outcome,
    after: Env,
) -> bool {
    exists|n: nat| runs_in(step, ctx, n, result, after)
}

impl<'p, K: Continuation<'p>> Step<'p, K> {
    /// Ends the chain with `result`.
    pub fn done(result: ResolveResult) -> (step: Self)
        ensures
            step == Step::<'p, K>::Done(result),
    {
        Step::Done(result)
    }

    /// Runs `program`, then lets `k` determine the next step from its result.
    pub fn cont(program: &'p Program, k: K) -> (step: Self)
        ensures
            step == (Step::Continue { program, k }),
    {
        Step::Continue { program, k }
    }
}

/// What the chain does from `step` on makes up, after `done` programs, what it
/// does from `start` on.
spec fn leads_to<'p, K: Continuation<'p>>(
    start: Step<'p, K>,
    before: Env,
    done: nat,
    step: Step<'p, K>,
    ctx: Env,
) -> bool {
    forall|n: nat, result: Outcome, after: Env| #[trigger]
        runs_in(step, ctx, n, result, after) ==> runs_in(start, before, done + n, result, after)
}

/// Drives a chain of steps to its end.
///
/// The stack does not grow with the length of the chain, since every
/// continuation returns to this loop. A chain that does not end has no result.
/// That a chain ends follows from what its continuations may answer: of one that
/// keeps the default [`Continuation::may_answer`], which allows any answer, it
/// cannot be shown, and the caller has to see to it.
pub fn run<'p, K: Continuation<'p>>(step: Step<'p, K>, ctx: &mut Context) -> (r: ResolveResult)
    requires
        ends(step, old(ctx)@),
    ensures
        runs(step, old(ctx)@, outcome(r), final(ctx)@),
{
    let ghost before = ctx@;
    let ghost start = step;
    let ghost mut done: nat = 0;
    let ghost mut left: nat = choose|n: nat| ends_within(step, ctx@, n);
    let mut current = step;
    loop
        invariant
            before == old(ctx)@,
            start == step,
            leads_to(start, before, done, current, ctx@),
            ends_within(current, ctx@, left),
        decreases left,
    {
        match current {
            Step::Done(result) => {
                assert(runs_in(Step::<'p, K>::Done(result), ctx@, 0, outcome(result), ctx@));
                assert(runs_in(start, before, done + 0, outcome(result), ctx@));
                return result;
            },
            Step::Continue { program, k } => {
                let ghost here = Step::Continue { program, k };
                let ghost env = ctx@;
                let result = program.execute(ctx);
                current = k.resume(result, ctx);
                proof {
                    assert(k.may_answer(eval(program@, env), env, current, ctx@));
                    assert forall|n: nat, result: Outcome, after: Env| #[trigger]
                        runs_in(current, ctx@, n, result, after) implies runs_in(
                        start,
                        before,
                        done + 1 + n,
                        result,
                        after,
                    ) by {
                        assert(runs_in(here, env, n + 1, result, after));
                    }
                    done = done + 1;
                    left = (left - 1) as nat;
                }
            },
        }
    }
}

/// A sequence of variable names and programs, run in order.
///
/// The result of each program is bound to its variable before the next program
/// runs. Execution stops at the first error.
pub struct Pipeline<'p> {
    steps: Vec<(&'p str, &'p Program)>,
}

/// The model of a [`Pipeline`]: the variables with the expressions of their programs.
pub type Stages = Seq<(Seq<char>, Ast)>;

/// What the stages from `k` on evaluate to, after one whose value was `last`,
/// and the variables that they leave.
pub open spec fn run_stages(stages: Stages, k: nat, env: Env, last: Val) -> (Outcome, Env)
    decreases stages.len() - k,
{
    if k >= stages.len() {
        (Ok(last), env)
    } else {
        let (variable, tree) = stages[k as int];
        match eval(tree, env) {
            Ok(v) => run_stages(stages, k + 1, env.insert(variable, v), v),
            Err(fault) => (Err(fault), env),
        }
    }
}

impl<'p> View for Pipeline<'p> {
    type V = Stages;

    closed spec fn view(&self) -> Stages {
        Seq::new(self.steps@.len(), |i: int| (self.steps@[i].0@, self.steps@[i].1@))
    }
}

impl<'p> Default for Pipeline<'p> {
    fn default() -> (pipeline: Self)
        ensures
            pipeline@ == Seq::<(Seq<char>, Ast)>::empty(),
    {
        Self::new()
    }
}

impl<'p> Pipeline<'p> {
    /// Creates an empty pipeline.
    pub fn new() -> (pipeline: Self)
        ensures
            pipeline@ == Seq::<(Seq<char>, Ast)>::empty(),
    {
        let pipeline = Pipeline { steps: Vec::new() };
        assert(pipeline@ =~= Seq::<(Seq<char>, Ast)>::empty());
        pipeline
    }

    /// Appends `program`. Its result is bound to `variable` once it has run.
    pub fn then(self, variable: &'p str, program: &'p Program) -> (pipeline: Self)
        ensures
            pipeline@ == self@.push((variable@, program@)),
    {
        let ghost before = self@;
        let mut steps = self.steps;
        steps.push((variable, program));
        let pipeline = Pipeline { steps };
        assert(pipeline@ =~= before.push((variable@, program@)));
        pipeline
    }

    /// Runs every program in order, and stops at the first error. Without any
    /// program, the result is null.
    pub fn run(&self, ctx: &mut Context) -> (r: ResolveResult)
        ensures
            (outcome(r), final(ctx)@) == run_stages(self@, 0, old(ctx)@, Val::Null),
    {
        let mut last = Value::Null;
        let mut i: usize = 0;
        while i < self.steps.len()
            invariant
                i <= self.steps@.len(),
                run_stages(self@, i as nat, ctx@, last@) == run_stages(
                    self@,
                    0,
                    old(ctx)@,
                    Val::Null,
                ),
            decreases self.steps@.len() - i,
        {
            let (variable, program) = self.steps[i];
            assert(self@[i as int] == (variable@, program@));
            match program.execute(ctx) {
                Ok(value) => {
                    ctx.add_variable_from_value(variable, value.clone());
                    last = value;
                },
                Err(e) => {
                    return Err(e);
                },
            }
            i += 1;
        }
        Ok(last)
    }
}

/// The continuation of a pipeline: it binds the result of the stage `index` and
/// goes on to the next one, or passes an error on.
pub struct Stage<'p> {
    pipeline: &'p Pipeline<'p>,
    index: usize,
}

impl<'p> Stage<'p> {
    /// The stages of the pipeline.
    pub closed spec fn stages(self) -> Stages {
        self.pipeline@
    }

    /// The stage whose result is awaited.
    pub closed spec fn position(self) -> nat {
        self.index as nat
    }
}

impl<'p> Continuation<'p> for Stage<'p> {
    open spec fn may_answer(
        &self,
        result: Outcome,
        ctx: Env,
        next: Step<'p, Self>,
        after: Env,
    ) -> bool {
        let (stages, k) = (self.stages(), self.position());
        match result {
            Ok(v) => if k < stages.len() {
                &&& after == ctx.insert(stages[k as int].0, v)
                &&& if k + 1 < stages.len() {
                    next matches Step::Continue { program, k: rest } && program@
                        == stages[k as int + 1].1 && rest.stages() == stages && rest.position() == k + 1
                } else {
                    next matches Step::Done(r) && outcome(r) == result
                }
            } else {
                after == ctx && (next matches Step::Done(r) && outcome(r) == result)
            },
            Err(_) => after == ctx && (next matches Step::Done(r) && outcome(r) == result),
        }
    }

    fn resume(self, result: ResolveResult, ctx: &mut Context) -> (next: Step<'p, Self>) {
        let steps = &self.pipeline.steps;
        if self.index >= steps.len() {
            return Step::Done(result);
        }
        match result {
            Ok(value) => {
                let next: usize = self.index + 1;
                ctx.add_variable_from_value(steps[self.index].0, value.clone());
                if next < steps.len() {
                    Step::Continue {
                        program: steps[next].1,
                        k: Stage { pipeline: self.pipeline, index: next },
                    }
                } else {
                    Step::Done(Ok(value))
                }
            },
            Err(e) => Step::Done(Err(e)),
        }
    }
}

/// A chain that awaits a stage of a pipeline does what the pipeline does from
/// there on.
proof fn lemma_chain<'p>(
    program: &'p Program,
    stage: Stage<'p>,
    env: Env,
    last: Val,
    n: nat,
    result: Outcome,
    after: Env,
)
    requires
        stage.position() < stage.stages().len(),
        program@ == stage.stages()[stage.position() as int].1,
        runs_in(Step::Continue { program, k: stage }, env, n, result, after),
    ensures
        run_stages(stage.stages(), stage.position(), env, last) == (result, after),
    decreases n,
{
    let got = eval(program@, env);
    let (next, mid) = choose|next: Step<'p, Stage<'p>>, mid: Env| #[trigger]
        stage.may_answer(got, env, next, mid) && runs_in(next, mid, (n - 1) as nat, result, after);
    assert(runs_in(next, mid, (n - 1) as nat, result, after));
    if got is Ok && stage.position() + 1 < stage.stages().len() {
        lemma_chain(next->program, next->k, mid, got->Ok_0, (n - 1) as nat, result, after);
    }
    reveal_with_fuel(run_stages, 2);
}

/// A chain that awaits a stage of a pipeline runs the programs of the stages
/// that are left, and ends.
proof fn lemma_chain_ends<'p>(program: &'p Program, stage: Stage<'p>, env: Env, n: nat)
    requires
        stage.position() + n == stage.stages().len(),
        n > 0,
    ensures
        ends_within(Step::Continue { program, k: stage }, env, n),
    decreases n,
{
    let got = eval(program@, env);
    assert forall|next: Step<'p, Stage<'p>>, mid: Env| #[trigger]
        stage.may_answer(got, env, next, mid) implies ends_within(next, mid, (n - 1) as nat) by {
        if let Step::Continue { program: following, k } = next {
            lemma_chain_ends(following, k, mid, (n - 1) as nat);
        }
    }
}

impl<'p> Pipeline<'p> {
    /// The pipeline as a chain of steps. Running the chain is running the pipeline.
    pub fn chain(&'p self) -> (step: Step<'p, Stage<'p>>)
        ensures
            forall|ctx: Env| #[trigger] ends(step, ctx),
            forall|ctx: Env, result: Outcome, after: Env| #[trigger]
                runs(step, ctx, result, after) ==> (result, after) == run_stages(
                    self@,
                    0,
                    ctx,
                    Val::Null,
                ),
    {
        if self.steps.len() == 0 {
            let step = Step::Done(Ok(Value::Null));
            proof {
                assert forall|ctx: Env| #[trigger] ends(step, ctx) by {
                    assert(ends_within(step, ctx, 0));
                }
            }
            step
        } else {
            let program = self.steps[0].1;
            let stage = Stage { pipeline: self, index: 0 };
            let step = Step::Continue { program, k: stage };
            proof {
                assert forall|ctx: Env| #[trigger] ends(step, ctx) by {
                    lemma_chain_ends(program, stage, ctx, self@.len());
                }
                assert forall|ctx: Env, result: Outcome, after: Env| #[trigger]
                    runs(step, ctx, result, after) implies (result, after) == run_stages(
                    self@,
                    0,
                    ctx,
                    Val::Null,
                ) by {
                    let n = choose|n: nat| runs_in(step, ctx, n, result, after);
                    lemma_chain(program, stage, ctx, Val::Null, n, result, after);
                }
            }
            step
        }
    }
}

/// The two steps end a chain with the same result, or run the same program
/// before the same continuation.
pub open spec fn alike<'p, K>(a: Step<'p, K>, b: Step<'p, K>) -> bool {
    match (a, b) {
        (Step::Done(r), Step::Done(s)) => outcome(r) == outcome(s),
        (Step::Continue { program: p, k }, Step::Continue { program: q, k: l }) => p@ == q@ && k
            == l,
        _ => false,
    }
}

/// The continuations leave no choice: there is one answer to every result.
pub open spec fn leave_no_choice<'p, K: Continuation<'p>>() -> bool {
    forall|k: K, result: Outcome, ctx: Env, a: Step<'p, K>, x: Env, b: Step<'p, K>, y: Env|
        #[trigger] k.may_answer(result, ctx, a, x) && #[trigger] k.may_answer(result, ctx, b, y)
            ==> alike(a, b) && x == y
}

/// A chain of continuations that leave no choice has one end.
pub proof fn law_chain_has_one_end<'p, K: Continuation<'p>>(
    step: Step<'p, K>,
    ctx: Env,
    result_a: Outcome,
    after_a: Env,
    result_b: Outcome,
    after_b: Env,
)
    requires
        leave_no_choice::<K>(),
        runs(step, ctx, result_a, after_a),
        runs(step, ctx, result_b, after_b),
    ensures
        result_a == result_b,
        after_a == after_b,
{
    let n = choose|n: nat| runs_in(step, ctx, n, result_a, after_a);
    let m = choose|m: nat| runs_in(step, ctx, m, result_b, after_b);
    lemma_one_end(step, step, ctx, n, result_a, after_a, m, result_b, after_b);
}

proof fn lemma_one_end<'p, K: Continuation<'p>>(
    a: Step<'p, K>,
    b: Step<'p, K>,
    ctx: Env,
    n: nat,
    result_a: Outcome,
    after_a: Env,
    m: nat,
    result_b: Outcome,
    after_b: Env,
)
    requires
        leave_no_choice::<K>(),
        alike(a, b),
        runs_in(a, ctx, n, result_a, after_a),
        runs_in(b, ctx, m, result_b, after_b),
    ensures
        result_a == result_b,
        after_a == after_b,
    decreases n,
{
    if let Step::Continue { program, k } = a {
        let got = eval(program@, ctx);
        let (next_a, mid_a) = choose|next: Step<'p, K>, mid: Env| #[trigger]
            k.may_answer(got, ctx, next, mid) && runs_in(
                next,
                mid,
                (n - 1) as nat,
                result_a,
                after_a,
            );
        let (next_b, mid_b) = choose|next: Step<'p, K>, mid: Env| #[trigger]
            k.may_answer(got, ctx, next, mid) && runs_in(
                next,
                mid,
                (m - 1) as nat,
                result_b,
                after_b,
            );
        lemma_one_end(
            next_a,
            next_b,
            mid_a,
            (n - 1) as nat,
            result_a,
            after_a,
            (m - 1) as nat,
            result_b,
            after_b,
        );
    }
}

/// A final result is the end of the chain, and the variables stay.
pub proof fn law_done_is_the_end<'p, K: Continuation<'p>>(
    r: ResolveResult,
    ctx: Env,
    result: Outcome,
    after: Env,
)
    ensures
        ends(Step::<'p, K>::Done(r), ctx),
        runs(Step::<'p, K>::Done(r), ctx, result, after) <==> result == outcome(r) && after == ctx,
{
    let step = Step::<'p, K>::Done(r);
    assert(ends_within(step, ctx, 0));
    if result == outcome(r) && after == ctx {
        assert(runs_in(step, ctx, 0, result, after));
    }
}

proof fn lemma_one_step_more<'p, K: Continuation<'p>>(
    program: &'p Program,
    k: K,
    ctx: Env,
    next: Step<'p, K>,
    mid: Env,
    n: nat,
    result: Outcome,
    after: Env,
)
    requires
        k.may_answer(eval(program@, ctx), ctx, next, mid),
        runs_in(next, mid, n, result, after),
    ensures
        runs_in(Step::Continue { program, k }, ctx, n + 1, result, after),
{
    let step = Step::Continue { program, k };
    assert(step->k.may_answer(eval(step->program@, ctx), ctx, next, mid));
    assert(runs_in(step, ctx, n + 1, result, after));
}

/// A chain goes on as its continuation says: it runs the program, and ends as
/// one of the answers to its result does.
pub proof fn law_chain_goes_on<'p, K: Continuation<'p>>(
    program: &'p Program,
    k: K,
    ctx: Env,
    result: Outcome,
    after: Env,
)
    ensures
        runs(Step::Continue { program, k }, ctx, result, after) <==> exists|
            next: Step<'p, K>,
            mid: Env,
        | #[trigger]
            k.may_answer(eval(program@, ctx), ctx, next, mid) && runs(next, mid, result, after),
{
    let step = Step::Continue { program, k };
    let got = eval(program@, ctx);
    if runs(step, ctx, result, after) {
        let n = choose|n: nat| runs_in(step, ctx, n, result, after);
        let (next, mid) = choose|next: Step<'p, K>, mid: Env| #[trigger]
            k.may_answer(got, ctx, next, mid) && runs_in(next, mid, (n - 1) as nat, result, after);
        assert(runs(next, mid, result, after));
    }
    if exists|next: Step<'p, K>, mid: Env| #[trigger]
        k.may_answer(got, ctx, next, mid) && runs(next, mid, result, after) {
        let (next, mid) = choose|next: Step<'p, K>, mid: Env| #[trigger]
            k.may_answer(got, ctx, next, mid) && runs(next, mid, result, after);
        let n = choose|n: nat| runs_in(next, mid, n, result, after);
        lemma_one_step_more(program, k, ctx, next, mid, n, result, after);
    }
}

/// The stages of a prefix run as they do in the whole pipeline, which then goes
/// on with the value and the variables that they leave, or stops at their error.
pub proof fn law_pipeline_runs_in_order(stages: Stages, k: nat, n: nat, env: Env, last: Val)
    requires
        k <= n <= stages.len(),
    ensures
        run_stages(stages, k, env, last) == match run_stages(
            stages.take(n as int),
            k,
            env,
            last,
        ) {
            (Ok(v), mid) => run_stages(stages, n, mid, v),
            (Err(fault), mid) => (Err::<Val, Fault>(fault), mid),
        },
    decreases n - k,
{
    if k < n {
        let (variable, tree) = stages[k as int];
        assert(stages.take(n as int)[k as int] == stages[k as int]);
        if let Ok(v) = eval(tree, env) {
            law_pipeline_runs_in_order(stages, k + 1, n, env.insert(variable, v), v);
        }
    }
}

/// An appended stage runs after all others, under the variables that they leave,
/// and its value becomes the result. An error before it is the result instead.
pub proof fn law_appended_stage_runs_last(
    stages: Stages,
    variable: Seq<char>,
    tree: Ast,
    env: Env,
)
    ensures
        run_stages(stages.push((variable, tree)), 0, env, Val::Null) == match run_stages(
            stages,
            0,
            env,
            Val::Null,
        ) {
            (Ok(_), mid) => match eval(tree, mid) {
                Ok(v) => (Ok::<Val, Fault>(v), mid.insert(variable, v)),
                Err(fault) => (Err(fault), mid),
            },
            (Err(fault), mid) => (Err(fault), mid),
        },
{
    let longer = stages.push((variable, tree));
    law_pipeline_runs_in_order(longer, 0, stages.len(), env, Val::Null);
    assert(longer.take(stages.len() as int) =~= stages);
    reveal_with_fuel(run_stages, 2);
}

/// A pipeline stops at the first error: what comes after the failing stage makes
/// no difference, neither to the error nor to the variables.
pub proof fn law_pipeline_stops_at_first_error(stages: Stages, more: Stages, env: Env)
    requires
        run_stages(stages, 0, env, Val::Null).0 is Err,
    ensures
        run_stages(stages + more, 0, env, Val::Null) == run_stages(stages, 0, env, Val::Null),
{
    law_pipeline_runs_in_order(stages + more, 0, stages.len(), env, Val::Null);
    assert((stages + more).take(stages.len() as int) =~= stages);
}

/// A pipeline without stages results in null, and leaves the variables as they
/// are.
pub proof fn law_empty_pipeline(env: Env)
    ensures
        run_stages(seq![], 0, env, Val::Null) == (Ok::<Val, Fault>(Val::Null), env),
{
}

/// The result of a pipeline is bound to its last variable.
pub proof fn law_result_is_bound(stages: Stages, env: Env)
    requires
        stages.len() > 0,
    ensures
        run_stages(stages, 0, env, Val::Null) matches (Ok(v), after) ==> after.contains_key(
            stages.last().0,
        ) && after[stages.last().0] == v,
{
    let init = stages.drop_last();
    law_appended_stage_runs_last(init, stages.last().0, stages.last().1, env);
    assert(init.push((stages.last().0, stages.last().1)) =~= stages);
}

/// A pipeline binds no variable but those of its stages.
pub proof fn law_other_variables_stay(stages: Stages, k: nat, env: Env, last: Val, name: Seq<char>)
    requires
        forall|i: int| k <= i < stages.len() ==> (#[trigger] stages[i]).0 != name,
    ensures
        ({
            let after = run_stages(stages, k, env, last).1;
            &&& after.contains_key(name) == env.contains_key(name)
            &&& env.contains_key(name) ==> after[name] == env[name]
        }),
    decreases stages.len() - k,
{
    if k < stages.len() {
        let (variable, tree) = stages[k as int];
        if let Ok(v) = eval(tree, env) {
            law_other_variables_stay(stages, k + 1, env.insert(variable, v), v, name);
        }
    }
}

} // verus!
