//! Runtime cost accounting.
//!
//! Literals and control-flow nodes are free, a variable and a selection cost
//! one, a construction has a base cost, and a call is charged according to the
//! amount of data that it traverses.
//!
//! The tracker observes every node of an expression once the node has its
//! value, in the order of evaluation. It keeps the values that were observed
//! on a stack, each under the identifier of its node, and takes the arguments
//! of a call back from there.

use std::sync::Arc;
use vstd::hash_map::StringHashMap;
use vstd::prelude::*;
use crate::ast::{
    entry_kids, entry_models, models, Ast, CallExpr, Entry, EntryExpr, EntryNode, Expr,
    IdedEntryExpr, IdedExpr, Node,
};
use crate::error::{ExecutionError, Fault};
use crate::operators;
use crate::pricing::{arguments_read, saturated, seen, standard_call_cost, standard_cost};
use crate::text::same_text;
use crate::value::{values_model, Val, Value};

verus! {

pub const LIST_CREATE_BASE_COST: u64 = 10;

pub const MAP_CREATE_BASE_COST: u64 = 30;

pub const STRUCT_CREATE_BASE_COST: u64 = 40;

/// Supplies an application-specific cost for a function invocation.
///
/// Returning `None` delegates to the standard cost model. The `args` slice
/// holds a receiver as its first item for member calls.
pub trait ActualCostEstimator: Send + Sync {
    /// The answers that the estimator may give for a call. By default, any.
    open spec fn may_answer(
        &self,
        function: Seq<char>,
        args: Seq<Val>,
        result: Val,
        answer: Option<u64>,
    ) -> bool {
        true
    }

    fn call_cost(&self, function: &str, args: &[&Value], result: &Value) -> (answer: Option<u64>)
        ensures
            self.may_answer(function@, seen(args@), result@, answer),
    ;
}

/// Computes the cost of one overload invocation.
pub trait FunctionTracker: Send + Sync {
    /// The answers that the tracker may give for a call. By default, any.
    open spec fn may_answer(&self, args: Seq<Val>, result: Val, answer: Option<u64>) -> bool {
        true
    }

    fn call_cost(&self, args: &[&Value], result: &Value) -> (answer: Option<u64>)
        ensures
            self.may_answer(seen(args@), result@, answer),
    ;
}

/// The entry of a tracker in the table of overloads.
pub struct Registered<T> {
    pub tracker: T,
}

/// How a tracker prices what it observes. This is the model of a
/// [`CostTrackerBuilder`].
pub struct Policy {
    pub estimator: Option<Arc<dyn ActualCostEstimator>>,
    pub limit: Option<u64>,
    pub presence_test_has_cost: bool,
    pub overload_trackers: Map<Seq<char>, Registered<Arc<dyn FunctionTracker>>>,
}

/// The model of a [`CostTracker`]: its policy, the cost so far, and the stack
/// of observed values, each with the identifier of its node.
pub struct Tally {
    pub policy: Policy,
    pub cost: u64,
    pub stack: Seq<(u64, Val)>,
}

impl Policy {
    /// The policy of a fresh builder.
    pub open spec fn standard() -> Policy {
        Policy {
            estimator: None,
            limit: None,
            presence_test_has_cost: true,
            overload_trackers: Map::empty(),
        }
    }

    /// The tracker of the overload may give this answer; without one, there is none.
    pub open spec fn overload_may_answer(
        self,
        function: Seq<char>,
        args: Seq<Val>,
        result: Val,
        answer: Option<u64>,
    ) -> bool {
        if self.overload_trackers.contains_key(function) {
            self.overload_trackers[function].tracker.may_answer(args, result, answer)
        } else {
            answer is None
        }
    }

    /// The estimator may give this answer; without one, there is none.
    pub open spec fn estimator_may_answer(
        self,
        function: Seq<char>,
        args: Seq<Val>,
        result: Val,
        answer: Option<u64>,
    ) -> bool {
        match self.estimator {
            Some(estimator) => estimator.may_answer(function, args, result, answer),
            None => answer is None,
        }
    }

    /// `price` is a cost that the policy may put on a call: what the tracker of
    /// the overload answers, else what the estimator answers, else the standard
    /// cost.
    pub open spec fn may_charge(
        self,
        function: Seq<char>,
        args: Seq<Val>,
        result: Val,
        price: u64,
    ) -> bool {
        ||| self.overload_may_answer(function, args, result, Some(price))
        ||| {
            &&& self.overload_may_answer(function, args, result, None)
            &&& self.estimator_may_answer(function, args, result, Some(price))
        }
        ||| {
            &&& self.overload_may_answer(function, args, result, None)
            &&& self.estimator_may_answer(function, args, result, None)
            &&& price == standard_cost(function, args)
        }
    }

    /// The policy has a price for the call: it has all the arguments that the
    /// standard model reads, or the standard model is not consulted.
    pub open spec fn can_charge(self, function: Seq<char>, args: Seq<Val>, result: Val) -> bool {
        ||| args.len() >= arguments_read(function)
        ||| !self.overload_may_answer(function, args, result, None)
        ||| !self.estimator_may_answer(function, args, result, None)
    }

    /// `cost` is above the limit.
    pub open spec fn exceeded(self, cost: u64) -> bool {
        self.limit matches Some(limit) && cost > limit
    }
}

/// The position of the last value under `id`, or -1 where there is none.
pub open spec fn last_position(stack: Seq<(u64, Val)>, id: u64) -> int
    decreases stack.len(),
{
    if stack.len() == 0 {
        -1
    } else if stack.last().0 == id {
        stack.len() - 1
    } else {
        last_position(stack.drop_last(), id)
    }
}

/// Removes the last value under `id`, with everything above it.
pub open spec fn dropped(stack: Seq<(u64, Val)>, id: u64) -> Seq<(u64, Val)> {
    let pos = last_position(stack, id);
    if pos >= 0 {
        stack.take(pos)
    } else {
        stack
    }
}

/// Removes the values under `ids`, one after the other.
pub open spec fn all_dropped(stack: Seq<(u64, Val)>, ids: Seq<u64>) -> Seq<(u64, Val)>
    decreases ids.len(),
{
    if ids.len() == 0 {
        stack
    } else {
        dropped(all_dropped(stack, ids.drop_last()), ids.last())
    }
}

/// Takes the values under `ids` off the stack, the last one first, and each
/// with everything above it. Gives the values in the order of `ids`, or `None`
/// where one was gone by the time it was looked for.
pub open spec fn pulled(stack: Seq<(u64, Val)>, ids: Seq<u64>) -> (
    Option<Seq<Val>>,
    Seq<(u64, Val)>,
)
    decreases ids.len(),
{
    if ids.len() == 0 {
        (Some(seq![]), stack)
    } else {
        let pos = last_position(stack, ids.last());
        if pos < 0 {
            (None, stack)
        } else {
            let (rest, left) = pulled(stack.take(pos), ids.drop_last());
            match rest {
                Some(values) => (Some(values.push(stack[pos].1)), left),
                None => (None, left),
            }
        }
    }
}

/// Every one of `ids` has a value on the stack.
pub open spec fn all_present(stack: Seq<(u64, Val)>, ids: Seq<u64>) -> bool {
    forall|i: int| 0 <= i < ids.len() ==> last_position(stack, #[trigger] ids[i]) >= 0
}

/// Takes the values under `ids` off the stack where all of them are there.
pub open spec fn taken(stack: Seq<(u64, Val)>, ids: Seq<u64>) -> (
    Option<Seq<Val>>,
    Seq<(u64, Val)>,
) {
    if all_present(stack, ids) {
        pulled(stack, ids)
    } else {
        (None, stack)
    }
}

/// The identifiers of the roots of some trees.
pub open spec fn root_ids(trees: Seq<Ast>) -> Seq<u64> {
    Seq::new(trees.len(), |i: int| trees[i].id)
}

/// The identifiers of the values of the fields among some entries.
pub open spec fn field_ids(entries: Seq<Entry>) -> Seq<u64>
    decreases entries.len(),
{
    if entries.len() == 0 {
        seq![]
    } else {
        match entries.last().entry {
            EntryNode::StructField { field, value } => field_ids(entries.drop_last()).push(
                value.id,
            ),
            EntryNode::MapEntry { key, value } => field_ids(entries.drop_last()),
        }
    }
}

/// The arguments of a call as they come off the stack, the receiver first, and
/// what is left of the stack. Arguments are evaluated before their receiver;
/// where the receiver has no value, the arguments are taken without it.
pub open spec fn call_arguments(
    stack: Seq<(u64, Val)>,
    target: Option<Box<Ast>>,
    args: Seq<Ast>,
) -> (Option<Seq<Val>>, Seq<(u64, Val)>) {
    match target {
        None => taken(stack, root_ids(args)),
        Some(t) => {
            let (values, left) = taken(stack, root_ids(args).push(t.id));
            match values {
                Some(vs) => (Some(seq![vs.last()] + vs.drop_last()), left),
                None => taken(left, root_ids(args)),
            }
        },
    }
}

/// The call steers the evaluation, and is free.
pub open spec fn is_control_flow(function: Seq<char>) -> bool {
    ||| function == operators::CONDITIONAL@
    ||| function == operators::LOGICAL_AND@
    ||| function == operators::LOGICAL_OR@
}

impl Tally {
    /// The call that the policy has to price when `tree` is observed: its name
    /// and its arguments.
    pub open spec fn call_to_price(self, tree: Ast) -> Option<(Seq<char>, Seq<Val>)> {
        match tree.node {
            Node::Call { func, target, args } if !is_control_flow(func) => {
                match call_arguments(self.stack, target, args).0 {
                    Some(values) => Some((func, values)),
                    None => None,
                }
            },
            _ => None,
        }
    }

    /// What the node itself costs, where `price` is the price of its call.
    pub open spec fn charge_for(self, tree: Ast, price: u64) -> u64 {
        match tree.node {
            Node::Unspecified => 0,
            Node::Literal(_) => 0,
            Node::Ident(_) => 1,
            Node::Select { operand, field, test } => {
                if !test || self.policy.presence_test_has_cost {
                    1
                } else {
                    0
                }
            },
            Node::List(_) => LIST_CREATE_BASE_COST,
            Node::Dict(_) => MAP_CREATE_BASE_COST,
            Node::Struct { .. } => STRUCT_CREATE_BASE_COST,
            Node::Comprehension { .. } => 0,
            Node::Call { .. } => {
                if self.call_to_price(tree) is Some {
                    price
                } else {
                    0
                }
            },
        }
    }

    /// The stack without the values that the node was made from.
    pub open spec fn stack_without_parts(self, tree: Ast) -> Seq<(u64, Val)> {
        match tree.node {
            Node::Unspecified => self.stack,
            Node::Literal(_) => self.stack,
            Node::Ident(_) => self.stack,
            Node::Select { operand, field, test } => all_dropped(self.stack, seq![operand.id]),
            Node::List(elements) => taken(self.stack, root_ids(elements)).1,
            Node::Dict(entries) => taken(self.stack, root_ids(entry_kids(entries))).1,
            Node::Struct { message_type, entries } => taken(self.stack, field_ids(entries)).1,
            Node::Comprehension { iter_range, .. } => all_dropped(self.stack, seq![iter_range.id]),
            Node::Call { func, target, args } => {
                if func == operators::CONDITIONAL@ {
                    all_dropped(self.stack, seq![args[0].id, args[1].id, args[2].id])
                } else if is_control_flow(func) {
                    all_dropped(self.stack, root_ids(args))
                } else {
                    call_arguments(self.stack, target, args).1
                }
            },
        }
    }

    /// The tally once `tree` was observed to have the value `value`, where
    /// `price` is the price of its call. The account saturates.
    pub open spec fn observed(self, tree: Ast, value: Val, price: u64) -> Tally {
        Tally {
            policy: self.policy,
            cost: saturated((self.cost + self.charge_for(tree, price)) as nat),
            stack: self.stack_without_parts(tree).push((tree.id, value)),
        }
    }

    /// `price` is one that the policy may charge when `tree` is observed.
    pub open spec fn may_price(self, tree: Ast, value: Val, price: u64) -> bool {
        self.call_to_price(tree) matches Some((func, args)) ==> self.policy.may_charge(
            func,
            args,
            value,
            price,
        )
    }

    /// The node can be observed: a conditional has its three operands, and a
    /// call has what its price is computed from.
    pub open spec fn can_observe(self, tree: Ast, value: Val) -> bool {
        &&& tree.node matches Node::Call { func, target, args } ==> func == operators::CONDITIONAL@
            ==> args.len() >= 3
        &&& self.call_to_price(tree) matches Some((func, args)) ==> self.policy.can_charge(
            func,
            args,
            value,
        )
    }

    /// The error of a tally over its limit.
    pub open spec fn limit_fault(self) -> Fault {
        Fault::CostLimitExceeded { limit: self.policy.limit->0, actual: self.cost }
    }
}

/// Builder for [`CostTracker`].
pub struct CostTrackerBuilder {
    estimator: Option<Arc<dyn ActualCostEstimator>>,
    limit: Option<u64>,
    presence_test_has_cost: bool,
    overload_trackers: StringHashMap<Registered<Arc<dyn FunctionTracker>>>,
}

impl View for CostTrackerBuilder {
    type V = Policy;

    closed spec fn view(&self) -> Policy {
        Policy {
            estimator: self.estimator,
            limit: self.limit,
            presence_test_has_cost: self.presence_test_has_cost,
            overload_trackers: self.overload_trackers@,
        }
    }
}

impl Default for CostTrackerBuilder {
    fn default() -> (builder: Self)
        ensures
            builder@ == (Policy { presence_test_has_cost: false, ..Policy::standard() }),
    {
        CostTrackerBuilder {
            estimator: None,
            limit: None,
            presence_test_has_cost: false,
            overload_trackers: StringHashMap::new(),
        }
    }
}

impl CostTrackerBuilder {
    pub fn new() -> (builder: Self)
        ensures
            builder@ == Policy::standard(),
    {
        CostTrackerBuilder { presence_test_has_cost: true, ..Self::default() }
    }

    pub fn estimator(self, estimator: Arc<dyn ActualCostEstimator>) -> (builder: Self)
        ensures
            ({
                let estimator = Some(estimator);
                builder@ == Policy { estimator, ..self@ }
            }),
    {
        let estimator = Some(estimator);
        CostTrackerBuilder { estimator, ..self }
    }

    pub fn limit(self, limit: u64) -> (builder: Self)
        ensures
            builder@ == (Policy { limit: Some(limit), ..self@ }),
    {
        CostTrackerBuilder { limit: Some(limit), ..self }
    }

    pub fn presence_test_has_cost(self, has_cost: bool) -> (builder: Self)
        ensures
            builder@ == (Policy { presence_test_has_cost: has_cost, ..self@ }),
    {
        CostTrackerBuilder { presence_test_has_cost: has_cost, ..self }
    }

    pub fn overload_tracker(
        self,
        function: String,
        tracker: Arc<dyn FunctionTracker>,
    ) -> (builder: Self)
        ensures
            ({
                let registered = Registered { tracker };
                builder@ == Policy {
                    overload_trackers: self@.overload_trackers.insert(function@, registered),
                    ..self@
                }
            }),
    {
        let mut overload_trackers = self.overload_trackers;
        let registered = Registered { tracker };
        overload_trackers.insert(function, registered);
        CostTrackerBuilder {
            estimator: self.estimator,
            limit: self.limit,
            presence_test_has_cost: self.presence_test_has_cost,
            overload_trackers,
        }
    }

    pub fn build(self) -> (tracker: CostTracker)
        ensures
            tracker@ == (Tally { policy: self@, cost: 0, stack: seq![] }),
    {
        let tracker = CostTracker {
            estimator: self.estimator,
            overload_trackers: self.overload_trackers,
            limit: self.limit,
            presence_test_has_cost: self.presence_test_has_cost,
            cost: 0,
            stack: Vec::new(),
        };
        assert(stack_model(tracker.stack@) =~= seq![]);
        tracker
    }
}

/// A value under the identifier of its node.
struct StackValue {
    value: Value,
    id: u64,
}

/// The model of the stack.
closed spec fn stack_model(stack: Seq<StackValue>) -> Seq<(u64, Val)> {
    Seq::new(stack.len(), |i: int| (stack[i].id, stack[i].value@))
}

/// Accumulates the actual cost of a single evaluation.
pub struct CostTracker {
    estimator: Option<Arc<dyn ActualCostEstimator>>,
    overload_trackers: StringHashMap<Registered<Arc<dyn FunctionTracker>>>,
    limit: Option<u64>,
    presence_test_has_cost: bool,
    cost: u64,
    stack: Vec<StackValue>,
}

impl View for CostTracker {
    type V = Tally;

    closed spec fn view(&self) -> Tally {
        Tally {
            policy: Policy {
                estimator: self.estimator,
                limit: self.limit,
                presence_test_has_cost: self.presence_test_has_cost,
                overload_trackers: self.overload_trackers@,
            },
            cost: self.cost,
            stack: stack_model(self.stack@),
        }
    }
}

impl Default for CostTracker {
    fn default() -> (tracker: Self)
        ensures
            tracker@ == (Tally { policy: Policy::standard(), cost: 0, stack: seq![] }),
    {
        CostTrackerBuilder::new().build()
    }
}

impl CostTracker {
    pub fn builder() -> (builder: CostTrackerBuilder)
        ensures
            builder@ == Policy::standard(),
    {
        CostTrackerBuilder::new()
    }

    /// A tracker under the standard policy with a limit.
    pub fn with_limit(limit: u64) -> (tracker: Self)
        ensures
            tracker@ == (Tally {
                policy: Policy { limit: Some(limit), ..Policy::standard() },
                cost: 0,
                stack: seq![],
            }),
    {
        CostTracker::builder().limit(limit).build()
    }

    pub fn actual_cost(&self) -> (cost: u64)
        ensures
            cost == self@.cost,
    {
        self.cost
    }

    pub fn limit(&self) -> (limit: Option<u64>)
        ensures
            limit == self@.policy.limit,
    {
        self.limit
    }

    pub fn reset(&mut self)
        ensures
            final(self)@ == (Tally { cost: 0, stack: seq![], ..old(self)@ }),
    {
        self.cost = 0;
        self.stack.clear();
        assert(self@.stack =~= seq![]);
    }

    /// Fails where the cost is above the limit.
    fn check_limit(&self) -> (r: Result<(), ExecutionError>)
        ensures
            r is Err <==> self@.policy.exceeded(self@.cost),
            r matches Err(e) ==> e@ == self@.limit_fault(),
    {
        match self.limit {
            Some(limit) => if self.cost > limit {
                Err(ExecutionError::CostLimitExceeded { limit, actual: self.cost })
            } else {
                Ok(())
            },
            None => Ok(()),
        }
    }

    /// Adds `amount` to the cost, and fails where that goes over the limit. The
    /// account saturates.
    pub fn charge(&mut self, amount: u64) -> (r: Result<(), ExecutionError>)
        ensures
            final(self)@ == (Tally {
                cost: saturated((old(self)@.cost + amount) as nat),
                ..old(self)@
            }),
            r is Err <==> final(self)@.policy.exceeded(final(self)@.cost),
            r matches Err(e) ==> e@ == final(self)@.limit_fault(),
    {
        self.cost = self.cost.saturating_add(amount);
        self.check_limit()
    }

    /// The position of the last value under `id`.
    fn position(&self, id: u64) -> (pos: Option<usize>)
        ensures
            match pos {
                Some(p) => p == last_position(self@.stack, id),
                None => last_position(self@.stack, id) < 0,
            },
            pos matches Some(p) ==> p < self.stack@.len(),
    {
        let mut n: usize = self.stack.len();
        assert(self@.stack.take(n as int) =~= self@.stack);
        while n > 0
            invariant
                n <= self.stack@.len(),
                last_position(self@.stack.take(n as int), id) == last_position(self@.stack, id),
            decreases n,
        {
            let ghost whole = self@.stack.take(n as int);
            assert(whole.last() == (self.stack@[n - 1].id, self.stack@[n - 1].value@));
            assert(whole.drop_last() =~= self@.stack.take(n - 1));
            if self.stack[n - 1].id == id {
                return Some(n - 1);
            }
            n -= 1;
        }
        None
    }

    /// Removes the values under `ids`, one after the other, each with
    /// everything above it.
    fn drop(&mut self, ids: &Vec<u64>)
        ensures
            final(self)@ == (Tally {
                stack: all_dropped(old(self)@.stack, ids@),
                ..old(self)@
            }),
    {
        let mut i: usize = 0;
        assert(ids@.take(0) =~= seq![]);
        while i < ids.len()
            invariant
                i <= ids@.len(),
                self@ == (Tally {
                    stack: all_dropped(old(self)@.stack, ids@.take(i as int)),
                    ..old(self)@
                }),
            decreases ids@.len() - i,
        {
            assert(ids@.take(i + 1).drop_last() =~= ids@.take(i as int));
            let ghost before = self@;
            if let Some(pos) = self.position(ids[i]) {
                self.stack.truncate(pos);
                assert(self@.stack =~= before.stack.take(pos as int));
            }
            i += 1;
        }
        assert(ids@.take(ids@.len() as int) =~= ids@);
    }

    /// Takes the values under `ids` off the stack for nothing but their removal.
    fn drop_args(&mut self, ids: &Vec<u64>)
        ensures
            final(self)@ == (Tally { stack: taken(old(self)@.stack, ids@).1, ..old(self)@ }),
    {
        let _ = self.take_args(ids);
    }

    /// Takes the values under `ids` off the stack, in the order of `ids`.
    fn take_args(&mut self, ids: &Vec<u64>) -> (values: Option<Vec<Value>>)
        ensures
            final(self)@ == (Tally { stack: taken(old(self)@.stack, ids@).1, ..old(self)@ }),
            match values {
                Some(vs) => taken(old(self)@.stack, ids@).0 == Some(values_model(vs@)),
                None => taken(old(self)@.stack, ids@).0 is None,
            },
    {
        let mut i: usize = 0;
        while i < ids.len()
            invariant
                i <= ids@.len(),
                *self == *old(self),
                forall|k: int| 0 <= k < i ==> last_position(self@.stack, #[trigger] ids@[k]) >= 0,
            decreases ids@.len() - i,
        {
            if self.position(ids[i]).is_none() {
                assert(last_position(self@.stack, ids@[i as int]) < 0);
                return None;
            }
            i += 1;
        }
        let ghost goal = taken(self@.stack, ids@);
        let mut values: Vec<Value> = Vec::new();
        let mut n: usize = ids.len();
        assert(ids@.take(n as int) =~= ids@);
        proof {
            let none = values_model(values@);
            lemma_pull_with(self@.stack, ids@, none);
            assert(goal == pulled(self@.stack, ids@));
            if let Some(vs) = goal.0 {
                assert(vs + none =~= vs);
            }
        }
        while n > 0
            invariant
                n <= ids@.len(),
                goal == taken(old(self)@.stack, ids@),
                self@.policy == old(self)@.policy,
                self@.cost == old(self)@.cost,
                goal == pulled_onto(self@.stack, ids@.take(n as int), values_model(values@)),
            decreases n,
        {
            let ghost prefix = ids@.take(n as int);
            let ghost before = self@.stack;
            assert(prefix.last() == ids@[n - 1]);
            assert(prefix.drop_last() =~= ids@.take(n - 1));
            match self.position(ids[n - 1]) {
                None => {
                    return None;
                },
                Some(pos) => {
                    let mut tail = self.stack.split_off(pos);
                    assert(self@.stack =~= before.take(pos as int));
                    let entry = tail.remove(0);
                    assert(before[pos as int].1 == entry.value@);
                    let ghost got = values_model(values@);
                    values.insert(0, entry.value);
                    assert(values_model(values@) =~= seq![before[pos as int].1] + got);
                },
            }
            n -= 1;
        }
        Some(values)
    }

    /// What the call costs: the answer of the tracker of the overload, else the
    /// answer of the estimator, else the standard cost. The receiver of a member
    /// call stands first among `args`.
    pub fn call_cost(&self, function: &str, args: &Vec<Value>, result: &Value) -> (price: u64)
        requires
            self@.policy.can_charge(function@, values_model(args@), result@),
        ensures
            self@.policy.may_charge(function@, values_model(args@), result@, price),
    {
        let refs = borrowed(args);
        if let Some(registered) = self.overload_trackers.get(function) {
            if let Some(cost) = registered.tracker.call_cost(refs.as_slice(), result) {
                return cost;
            }
        }
        if let Some(estimator) = &self.estimator {
            if let Some(cost) = estimator.call_cost(function, refs.as_slice(), result) {
                return cost;
            }
        }
        standard_call_cost(function, refs.as_slice())
    }

    /// The arguments of a call as they come off the stack, the receiver first.
    fn take_call_args(&mut self, call: &CallExpr) -> (values: Option<Vec<Value>>)
        ensures
            ({
                let node = Expr::Call(*call).model();
                let (args, left) = call_arguments(
                    old(self)@.stack,
                    node->Call_target,
                    node->Call_args,
                );
                &&& final(self)@ == Tally { stack: left, ..old(self)@ }
                &&& match values {
                    Some(vs) => args == Some(values_model(vs@)),
                    None => args is None,
                }
            }),
    {
        assert(Expr::Call(*call).model()->Call_args =~= models(call.args@));
        let arg_ids = ids_of(&call.args);
        match &call.target {
            None => self.take_args(&arg_ids),
            Some(target) => {
                let mut ids = ids_of(&call.args);
                ids.push(target.id);
                match self.take_args(&ids) {
                    Some(mut args) => {
                        let ghost all = args@;
                        proof {
                            lemma_pulled_len(old(self)@.stack, ids@);
                            assert(values_model(all).len() == all.len());
                        }
                        let last: usize = args.len() - 1;
                        let receiver = args.remove(last);
                        args.insert(0, receiver);
                        assert(values_model(args@) =~= seq![values_model(all).last()]
                            + values_model(all).drop_last());
                        Some(args)
                    },
                    None => self.take_args(&arg_ids),
                }
            },
        }
    }

    /// Charges for a call that does not steer the evaluation.
    fn observe_call(&mut self, id: u64, call: &CallExpr, value: &Value) -> (price: Ghost<u64>)
        requires
            !is_control_flow(call.func_name@),
            old(self)@.can_observe(Ast { id, node: Expr::Call(*call).model() }, value@),
        ensures
            ({
                let tree = Ast { id, node: Expr::Call(*call).model() };
                &&& old(self)@.may_price(tree, value@, price@)
                &&& final(self)@ == Tally {
                    stack: old(self)@.stack_without_parts(tree),
                    cost: saturated((old(self)@.cost + old(self)@.charge_for(tree, price@)) as nat),
                    ..old(self)@
                }
            }),
    {
        match self.take_call_args(call) {
            Some(args) => {
                let price: u64 = self.call_cost(call.func_name.as_str(), &args, value);
                self.cost = self.cost.saturating_add(price);
                Ghost(price)
            },
            None => Ghost(0),
        }
    }

    /// Observes that `expr` evaluated to `value`: charges for the node, replaces
    /// the values that it was made from by `value`, and fails where the cost is
    /// then above the limit.
    pub fn observe(&mut self, expr: &IdedExpr, value: &Value) -> (r: Result<(), ExecutionError>)
        requires
            old(self)@.can_observe(expr@, value@),
        ensures
            exists|price: u64|
                #![trigger old(self)@.may_price(expr@, value@, price)]
                old(self)@.may_price(expr@, value@, price) && final(self)@ == old(self)@.observed(
                    expr@,
                    value@,
                    price,
                ),
            r is Err <==> final(self)@.policy.exceeded(final(self)@.cost),
            r matches Err(e) ==> e@ == final(self)@.limit_fault(),
    {
        let ghost mut price: u64 = 0;
        let ghost tree = expr@;
        match &expr.expr {
            Expr::Literal(_) => {},
            Expr::Ident(_) => {
                self.cost = self.cost.saturating_add(1);
            },
            Expr::Select(select) => {
                let ids: Vec<u64> = vec![select.operand.id];
                assert((*select.operand)@.id == select.operand.id);
                assert(ids@ =~= seq![tree.node->Select_operand.id]);
                self.drop(&ids);
                if !select.test || self.presence_test_has_cost {
                    self.cost = self.cost.saturating_add(1);
                }
            },
            Expr::List(list) => {
                assert(tree.node->List_0 =~= models(list.elements@));
                self.drop_args(&ids_of(&list.elements));
                self.cost = self.cost.saturating_add(LIST_CREATE_BASE_COST);
            },
            Expr::Dict(map) => {
                assert(tree.node->Dict_0 =~= entry_models(map.entries@));
                self.drop_args(&entry_ids_of(&map.entries));
                self.cost = self.cost.saturating_add(MAP_CREATE_BASE_COST);
            },
            Expr::Struct(strct) => {
                assert(tree.node->Struct_entries =~= entry_models(strct.entries@));
                self.drop_args(&field_ids_of(&strct.entries));
                self.cost = self.cost.saturating_add(STRUCT_CREATE_BASE_COST);
            },
            Expr::Comprehension(c) => {
                let ids: Vec<u64> = vec![c.iter_range.id];
                assert((*c.iter_range)@.id == c.iter_range.id);
                assert(ids@ =~= seq![tree.node->Comprehension_iter_range.id]);
                self.drop(&ids);
            },
            Expr::Call(call) => {
                assert(tree.node->Call_args =~= models(call.args@));
                let name = call.func_name.as_str();
                if same_text(name, operators::CONDITIONAL) {
                    let ids: Vec<u64> = vec![call.args[0].id, call.args[1].id, call.args[2].id];
                    let ghost args = tree.node->Call_args;
                    assert(ids@ =~= seq![args[0].id, args[1].id, args[2].id]);
                    self.drop(&ids);
                } else if same_text(name, operators::LOGICAL_AND) || same_text(
                    name,
                    operators::LOGICAL_OR,
                ) {
                    self.drop(&ids_of(&call.args));
                } else {
                    let Ghost(p) = self.observe_call(expr.id, call, value);
                    proof {
                        price = p;
                    }
                }
            },
            Expr::Unspecified => {},
        }
        let ghost before = self@.stack;
        self.stack.push(StackValue { value: value.clone(), id: expr.id });
        assert(self@.stack =~= before.push((expr.id, value@)));
        assert(old(self)@.may_price(tree, value@, price));
        assert(self@ == old(self)@.observed(tree, value@, price));
        self.check_limit()
    }
}

/// Everything that is pulled is there to be taken.
pub proof fn lemma_pulled_len(stack: Seq<(u64, Val)>, ids: Seq<u64>)
    ensures
        pulled(stack, ids).0 matches Some(values) ==> values.len() == ids.len(),
    decreases ids.len(),
{
    if ids.len() > 0 {
        let pos = last_position(stack, ids.last());
        if pos >= 0 {
            lemma_pulled_len(stack.take(pos), ids.drop_last());
        }
    }
}

/// Borrows every value of a vector.
fn borrowed<'a>(args: &'a Vec<Value>) -> (refs: Vec<&'a Value>)
    ensures
        seen(refs@) == values_model(args@),
{
    let mut refs: Vec<&'a Value> = Vec::new();
    let mut i: usize = 0;
    while i < args.len()
        invariant
            i <= args@.len(),
            refs@.len() == i,
            forall|k: int| 0 <= k < i ==> *(#[trigger] refs@[k]) == args@[k],
        decreases args@.len() - i,
    {
        refs.push(&args[i]);
        i += 1;
    }
    assert(seen(refs@) =~= values_model(args@));
    refs
}

/// The identifiers of some expressions.
fn ids_of(exprs: &Vec<IdedExpr>) -> (ids: Vec<u64>)
    ensures
        ids@ == root_ids(models(exprs@)),
{
    let mut ids: Vec<u64> = Vec::new();
    let mut i: usize = 0;
    while i < exprs.len()
        invariant
            i <= exprs@.len(),
            ids@ =~= root_ids(models(exprs@)).take(i as int),
        decreases exprs@.len() - i,
    {
        ids.push(exprs[i].id);
        i += 1;
    }
    ids
}

/// The identifiers of the expressions of some entries.
fn entry_ids_of(entries: &Vec<IdedEntryExpr>) -> (ids: Vec<u64>)
    ensures
        ids@ == root_ids(entry_kids(entry_models(entries@))),
{
    let mut ids: Vec<u64> = Vec::new();
    let mut i: usize = 0;
    let ghost all = entry_models(entries@);
    assert(all.take(0) =~= seq![]);
    while i < entries.len()
        invariant
            i <= entries@.len(),
            all == entry_models(entries@),
            ids@ =~= root_ids(entry_kids(all.take(i as int))),
        decreases entries@.len() - i,
    {
        assert(all.take(i + 1).drop_last() =~= all.take(i as int));
        assert(all.take(i + 1).last() == entries@[i as int]@);
        match &entries[i].expr {
            EntryExpr::MapEntry(e) => {
                ids.push(e.key.id);
                ids.push(e.value.id);
            },
            EntryExpr::StructField(f) => {
                ids.push(f.value.id);
            },
        }
        i += 1;
    }
    assert(all.take(all.len() as int) =~= all);
    ids
}

/// The identifiers of the values of the fields among some entries.
fn field_ids_of(entries: &Vec<IdedEntryExpr>) -> (ids: Vec<u64>)
    ensures
        ids@ == field_ids(entry_models(entries@)),
{
    let mut ids: Vec<u64> = Vec::new();
    let mut i: usize = 0;
    let ghost all = entry_models(entries@);
    assert(all.take(0) =~= seq![]);
    while i < entries.len()
        invariant
            i <= entries@.len(),
            all == entry_models(entries@),
            ids@ =~= field_ids(all.take(i as int)),
        decreases entries@.len() - i,
    {
        assert(all.take(i + 1).drop_last() =~= all.take(i as int));
        assert(all.take(i + 1).last() == entries@[i as int]@);
        match &entries[i].expr {
            EntryExpr::MapEntry(_) => {},
            EntryExpr::StructField(f) => {
                ids.push(f.value.id);
            },
        }
        i += 1;
    }
    assert(all.take(all.len() as int) =~= all);
    ids
}

/// Pulls the values under `ids`, to stand before `values`.
spec fn pulled_onto(stack: Seq<(u64, Val)>, ids: Seq<u64>, values: Seq<Val>) -> (
    Option<Seq<Val>>,
    Seq<(u64, Val)>,
)
    decreases ids.len(),
{
    if ids.len() == 0 {
        (Some(values), stack)
    } else {
        let pos = last_position(stack, ids.last());
        if pos < 0 {
            (None, stack)
        } else {
            pulled_onto(stack.take(pos), ids.drop_last(), seq![stack[pos].1] + values)
        }
    }
}

proof fn lemma_pull_with(stack: Seq<(u64, Val)>, ids: Seq<u64>, values: Seq<Val>)
    ensures
        pulled_onto(stack, ids, values).1 == pulled(stack, ids).1,
        match pulled(stack, ids).0 {
            Some(vs) => pulled_onto(stack, ids, values).0 == Some(vs + values),
            None => pulled_onto(stack, ids, values).0 is None,
        },
    decreases ids.len(),
{
    if ids.len() == 0 {
        assert(seq![] + values =~= values);
    } else {
        let pos = last_position(stack, ids.last());
        if pos >= 0 {
            let onto = seq![stack[pos].1] + values;
            lemma_pull_with(stack.take(pos), ids.drop_last(), onto);
            if let Some(vs) = pulled(stack.take(pos), ids.drop_last()).0 {
                assert(vs + onto =~= vs.push(stack[pos].1) + values);
            }
        }
    }
}

} // verus!
