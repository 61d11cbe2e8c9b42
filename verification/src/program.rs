//! Programs: compiled expressions.

use vstd::prelude::*;
use vstd::std_specs::convert::*;
use crate::accounting::{
    clear_of, cost_of, law_cost_never_falls, law_cut_off_is_over_the_limit,
    law_only_the_limit_cuts_off, law_over_the_limit_does_not_pass,
    law_tracked_cost_is_the_cost_of_the_expression, Rates,
};
use crate::ast::{Ast, Expression};
use crate::context::{Context, Env};
use crate::cost::{CostTracker, Tally};
use crate::error::{outcome, ExecutionError, Fault, Outcome, ResolveResult};
use crate::eval::{eval, trace};
use crate::grammar::parsed;
use crate::lexer::Mistake;
use crate::observer::{cut_off, lemma_unobserved_is_not_cut_off, passes, Unobserved};
use crate::parser::{ParseErrors, Parser};
use crate::pricing::saturated;
use crate::references::ExpressionReferences;
use crate::resolver::{resolve, Scope, Watched};
use crate::value::{Val, Value};

verus! {

/// A compiled expression.
#[derive(Debug)]
pub struct Program {
    expression: Expression,
}

/// A value, and what it cost to compute.
#[derive(Debug, PartialEq)]
pub struct ExecutionResult {
    pub value: Value,
    pub actual_cost: u64,
}

/// What a tracked evaluation leaves behind where the tracker goes by `rates` and
/// has room left: within the limit, the value and the cost of the expression;
/// else the error that tells the limit.
pub open spec fn tracked_exactly(
    tree: Ast,
    env: Env,
    rates: Rates,
    before: Tally,
    result: Outcome,
    after: Tally,
) -> bool {
    let total = saturated(before.cost as nat + cost_of(tree, env, rates));
    if before.policy.exceeded(total) {
        &&& result == Err::<Val, Fault>(after.limit_fault())
        &&& before.policy.exceeded(after.cost)
        &&& after.cost <= total
        &&& after.policy == before.policy
    } else {
        &&& result == eval(tree, env)
        &&& after.cost == total
        &&& after.policy == before.policy
    }
}

/// What a watched evaluation ends in, whether by the program or by its tracker.
pub open spec fn watched_outcome(w: Watched<ResolveResult>) -> Outcome {
    match w {
        Ok(r) => outcome(r),
        Err(e) => Err(e@),
    }
}

/// The cost of a run that began at `before` and went on to `after`: a run that
/// was charged nothing costs one.
pub open spec fn run_cost(before: u64, after: u64) -> u64 {
    if after == before {
        saturated((after + 1) as nat)
    } else {
        after
    }
}

/// The cost after a run at fixed rates, on top of `before`.
pub open spec fn run_total(tree: Ast, env: Env, rates: Rates, before: u64) -> u64 {
    let own = cost_of(tree, env, rates);
    saturated(
        before as nat + if own == 0 {
            1
        } else {
            own
        },
    )
}

/// The error tells the limit of the tracker, and a cost above it.
pub open spec fn over_the_limit(tally: Tally, e: ExecutionError) -> bool {
    e matches ExecutionError::CostLimitExceeded { limit, actual } && tally.policy.limit == Some(
        limit,
    ) && limit < actual
}

/// The result of a run whose evaluation has a value, where the tracker went from
/// `before` to `after`: the tracker let all events pass, and the cost of the run
/// decides; or it cut the evaluation off.
pub open spec fn accounted_for(
    tree: Ast,
    env: Env,
    before: Tally,
    after: Tally,
    r: Result<ExecutionResult, ExecutionError>,
) -> bool {
    ||| passes::<CostTracker>(before, trace(tree, env), after) && {
        let cost = run_cost(before.cost, after.cost);
        if before.policy.exceeded(cost) {
            r matches Err(e) && over_the_limit(before, e) && e->CostLimitExceeded_actual == cost
        } else {
            r matches Ok(result) && eval(tree, env) == Ok::<Val, Fault>(result.value@)
                && result.actual_cost == cost
        }
    }
    ||| r matches Err(e) && cut_off::<CostTracker>(before, trace(tree, env), e@, after)
}

impl View for Program {
    type V = Ast;

    closed spec fn view(&self) -> Ast {
        self.expression@
    }
}

impl Program {
    /// Every node has an identifier of its own.
    #[verifier::type_invariant]
    closed spec fn well_formed(self) -> bool {
        self.expression@.distinct_ids()
    }

    /// Compiles a source text.
    pub fn compile(source: &str) -> (r: Result<Program, ParseErrors>)
        ensures
            match r {
                Ok(program) => parsed(source@) == Ok::<Ast, Mistake>(program@)
                    && program@.distinct_ids(),
                Err(errors) => errors@.len() == 1 && parsed(source@) == Err::<Ast, Mistake>(
                    (errors@[0].kind, errors@[0].position as int),
                ),
            },
    {
        match Parser::parse(source) {
            Ok(expression) => Ok(Program { expression }),
            Err(errors) => Err(errors),
        }
    }

    /// Evaluates the program under the variables of `context`.
    pub fn execute(&self, context: &Context) -> (r: ResolveResult)
        ensures
            outcome(r) == eval(self@, context@),
    {
        let mut nobody = Unobserved;
        match resolve(&self.expression, &Scope::Outer(context), &mut nobody) {
            Ok(r) => r,
            Err(e) => {
                proof {
                    lemma_unobserved_is_not_cut_off((), trace(self@, context@), e@, ());
                }
                Err(e)
            },
        }
    }

    /// Evaluates the program while collecting its runtime cost.
    ///
    /// The tracker is charged for every node of the expression as
    /// [`Program::execute_tracked`] charges it. Where that comes to nothing, the
    /// root is charged one, so that limits also protect scalar programs.
    ///
    /// An error of the program comes before one of the limit. Where the tracker
    /// cuts the evaluation off, the program is therefore evaluated again to its
    /// end, without a tracker: here the limit bounds the cost that is accepted,
    /// not the work that is done. [`Program::execute_tracked`] stops at the limit.
    ///
    /// Callers of [`Program::execute`] pay nothing for the accounting.
    pub fn execute_with_cost(&self, context: &Context, tracker: CostTracker) -> (r: Result<
        ExecutionResult,
        ExecutionError,
    >)
        ensures
            eval(self@, context@) matches Err(f) ==> (r matches Err(e) && e@ == f),
            eval(self@, context@) is Ok ==> exists|after: Tally| #[trigger]
                accounted_for(self@, context@, tracker@, after, r),
            eval(self@, context@) is Ok ==> (r matches Err(e) ==> over_the_limit(tracker@, e)),
            eval(self@, context@) is Ok && tracker@.policy.limit is None ==> r is Ok,
            r matches Ok(result) ==> {
                &&& eval(self@, context@) == Ok::<Val, Fault>(result.value@)
                &&& result.actual_cost >= tracker@.cost
                &&& !tracker@.policy.exceeded(result.actual_cost)
            },
            forall|rates: Rates|
                #![trigger tracker@.policy.goes_by(rates)]
                tracker@.policy.goes_by(rates) && clear_of(tracker@.stack, self@.ids_below())
                    && !tracker@.policy.exceeded(tracker@.cost) && eval(self@, context@) is Ok
                    ==> {
                    let total = run_total(self@, context@, rates, tracker@.cost);
                    if tracker@.policy.exceeded(total) {
                        r matches Err(e) && over_the_limit(tracker@, e) && e->CostLimitExceeded_actual <= total
                    } else {
                        r matches Ok(result) && eval(self@, context@) == Ok::<Val, Fault>(
                            result.value@,
                        ) && result.actual_cost == total
                    }
                },
    {
        let ghost before = tracker@;
        let ghost events = trace(self@, context@);
        let cost_before: u64 = tracker.actual_cost();
        let mut tracker = tracker;
        match self.watch(context, &mut tracker) {
            Ok(Ok(value)) => {
                let ghost after = tracker@;
                proof {
                    law_cost_never_falls(before, events, after);
                    assert(events.last() == (self@, value@));
                }
                let charged = if tracker.actual_cost() == cost_before {
                    tracker.charge(1)
                } else {
                    Ok(())
                };
                let r = match charged {
                    Ok(()) => Ok(ExecutionResult { value, actual_cost: tracker.actual_cost() }),
                    Err(e) => Err(e),
                };
                assert(accounted_for(self@, context@, before, after, r));
                r
            },
            Ok(Err(e)) => Err(e),
            Err(limit) => {
                let ghost after = tracker@;
                proof {
                    law_cut_off_is_over_the_limit(before, events, limit@, after);
                }
                match self.execute(context) {
                    Ok(_) => {
                        let r = Err(limit);
                        assert(accounted_for(self@, context@, before, after, r));
                        r
                    },
                    Err(e) => Err(e),
                }
            },
        }
    }

    /// Evaluates the program while the tracker observes every node, and stops
    /// where the cost goes over the tracker's limit.
    pub fn execute_tracked(&self, context: &Context, tracker: &mut CostTracker) -> (r:
        ResolveResult)
        ensures
            ({
                ||| passes::<CostTracker>(
                    old(tracker)@,
                    trace(self@, context@),
                    final(tracker)@,
                ) && outcome(r) == eval(self@, context@)
                ||| r matches Err(e) && cut_off::<CostTracker>(
                    old(tracker)@,
                    trace(self@, context@),
                    e@,
                    final(tracker)@,
                )
            }),
            forall|rates: Rates|
                #![trigger old(tracker)@.policy.goes_by(rates)]
                old(tracker)@.policy.goes_by(rates) && clear_of(
                    old(tracker)@.stack,
                    self@.ids_below(),
                ) && !old(tracker)@.policy.exceeded(old(tracker)@.cost) ==> tracked_exactly(
                    self@,
                    context@,
                    rates,
                    old(tracker)@,
                    outcome(r),
                    final(tracker)@,
                ),
    {
        match self.watch(context, tracker) {
            Ok(r) => r,
            Err(e) => Err(e),
        }
    }

    /// Evaluates the program before the tracker. The inner result is that of the
    /// program, the outer error that of the tracker.
    fn watch(&self, context: &Context, tracker: &mut CostTracker) -> (w: Watched<ResolveResult>)
        ensures
            match w {
                Ok(r) => outcome(r) == eval(self@, context@) && passes::<CostTracker>(
                    old(tracker)@,
                    trace(self@, context@),
                    final(tracker)@,
                ),
                Err(e) => cut_off::<CostTracker>(
                    old(tracker)@,
                    trace(self@, context@),
                    e@,
                    final(tracker)@,
                ),
            },
            forall|rates: Rates|
                #![trigger old(tracker)@.policy.goes_by(rates)]
                old(tracker)@.policy.goes_by(rates) && clear_of(
                    old(tracker)@.stack,
                    self@.ids_below(),
                ) && !old(tracker)@.policy.exceeded(old(tracker)@.cost) ==> tracked_exactly(
                    self@,
                    context@,
                    rates,
                    old(tracker)@,
                    watched_outcome(w),
                    final(tracker)@,
                ),
    {
        proof {
            use_type_invariant(self);
        }
        let ghost before = tracker@;
        let w = resolve(&self.expression, &Scope::Outer(context), tracker);
        let ghost after = tracker@;
        proof {
            assert forall|rates: Rates|
                #![trigger before.policy.goes_by(rates)]
                before.policy.goes_by(rates) && clear_of(before.stack, self@.ids_below())
                    && !before.policy.exceeded(before.cost) implies tracked_exactly(
                self@,
                context@,
                rates,
                before,
                watched_outcome(w),
                after,
            ) by {
                if w is Ok {
                    if before.policy.exceeded(
                        saturated(before.cost as nat + cost_of(self@, context@, rates)),
                    ) {
                        law_over_the_limit_does_not_pass(self@, context@, before, after, rates);
                    }
                    law_tracked_cost_is_the_cost_of_the_expression(
                        self@,
                        context@,
                        before,
                        after,
                        rates,
                    );
                } else {
                    law_only_the_limit_cuts_off(
                        self@,
                        context@,
                        before,
                        w->Err_0@,
                        after,
                        rates,
                    );
                }
            }
        }
        w
    }

    /// The variables and functions that the program mentions.
    pub fn references(&self) -> (refs: ExpressionReferences<'_>)
        ensures
            refs.variable_names() == self@.variables(),
            refs.function_names() == self@.functions(),
    {
        self.expression.references()
    }

    /// The expression tree.
    pub fn expression(&self) -> (expression: &Expression)
        ensures
            expression@ == self@,
            expression@.distinct_ids(),
    {
        proof {
            use_type_invariant(self);
        }
        &self.expression
    }
}

impl TryFrom<&str> for Program {
    type Error = ParseErrors;

    fn try_from(value: &str) -> (r: Result<Self, ParseErrors>)
        ensures
            match r {
                Ok(program) => parsed(value@) == Ok::<Ast, Mistake>(program@),
                Err(errors) => errors@.len() == 1 && parsed(value@) == Err::<Ast, Mistake>(
                    (errors@[0].kind, errors@[0].position as int),
                ),
            },
    {
        Program::compile(value)
    }
}

impl TryFromSpecImpl<&str> for Program {
    open spec fn obeys_try_from_spec() -> bool {
        false
    }

    open spec fn try_from_spec(v: &str) -> Result<Self, ParseErrors> {
        arbitrary()
    }
}

} // verus!
