//! What an evaluation costs as a whole.
//!
//! The tracker sees an evaluation as a sequence of events and recovers the
//! arguments of each call from its stack. [`cost_of`] says what an evaluation
//! costs without any stack: the cost of an expression is the cost of the
//! subexpressions that were evaluated, and what the node itself is charged. The
//! laws state that the tracker arrives at exactly that.

use vstd::prelude::*;
use crate::ast::{entry_kids, Ast, Entry, EntryNode, Node};
use crate::context::Env;
use crate::cost::{
    all_dropped, dropped, is_control_flow, last_position, pulled, root_ids, taken, CostTracker,
    Policy, Tally, LIST_CREATE_BASE_COST, MAP_CREATE_BASE_COST, STRUCT_CREATE_BASE_COST,
};
use crate::entries::key_of;
use crate::error::Fault;
use crate::eval::{
    eval, eval_all, eval_entries, eval_entry, eval_loop, own_event, range_items, round_env, trace,
    trace_all, trace_entries, trace_entry, trace_loop, trace_parts, Event,
};
use crate::observer::{cut_off, passes, Observer};
use crate::operators;
use crate::pricing::{saturated, standard_cost};
use crate::value::Val;

verus! {

/// A fixed way of pricing: what a presence test costs, and what a call costs.
pub struct Rates {
    pub presence_test_has_cost: bool,
    pub price: spec_fn(Seq<char>, Seq<Val>, Val) -> u64,
}

impl Rates {
    /// The rates of the standard model.
    pub open spec fn standard() -> Rates {
        Rates {
            presence_test_has_cost: true,
            price: |function: Seq<char>, args: Seq<Val>, result: Val|
                standard_cost(function, args),
        }
    }
}

impl Policy {
    /// The policy charges these rates and no others.
    pub open spec fn goes_by(self, rates: Rates) -> bool {
        &&& self.presence_test_has_cost == rates.presence_test_has_cost
        &&& forall|function: Seq<char>, args: Seq<Val>, result: Val, price: u64| #[trigger]
            self.may_charge(function, args, result, price) ==> price == (rates.price)(
                function,
                args,
                result,
            )
    }
}

/// The operands of a call, the receiver first.
pub open spec fn operands(target: Option<Box<Ast>>, args: Seq<Ast>, env: Env) -> Seq<Val> {
    match target {
        None => eval_all(args, env)->Ok_0,
        Some(t) => seq![eval(*t, env)->Ok_0] + eval_all(args, env)->Ok_0,
    }
}

/// What a node is charged for its own value.
pub open spec fn own_cost(tree: Ast, env: Env, rates: Rates) -> nat {
    match eval(tree, env) {
        Ok(v) => match tree.node {
            Node::Ident(_) => 1,
            Node::Select { operand, field, test } => if !test || rates.presence_test_has_cost {
                1
            } else {
                0
            },
            Node::List(_) => LIST_CREATE_BASE_COST as nat,
            Node::Dict(_) => MAP_CREATE_BASE_COST as nat,
            Node::Struct { .. } => STRUCT_CREATE_BASE_COST as nat,
            Node::Call { func, target, args } => if is_control_flow(func) {
                0
            } else {
                (rates.price)(func, operands(target, args, env), v) as nat
            },
            _ => 0,
        },
        Err(_) => 0,
    }
}

/// What the evaluation of an expression costs.
pub open spec fn cost_of(tree: Ast, env: Env, rates: Rates) -> nat
    decreases tree, 1nat,
{
    cost_of_parts(tree, env, rates) + own_cost(tree, env, rates)
}

/// What the evaluation of the subexpressions costs, as far as it goes.
pub open spec fn cost_of_parts(tree: Ast, env: Env, rates: Rates) -> nat
    decreases tree, 0nat,
{
    match tree.node {
        Node::Select { operand, field, test } => cost_of(*operand, env, rates),
        Node::List(elements) => cost_of_all(elements, env, rates),
        Node::Dict(entries) => cost_of_entries(entries, env, rates),
        Node::Call { func, target, args } => if func == operators::CONDITIONAL@ {
            if args.len() != 3 {
                0
            } else {
                cost_of(args[0], env, rates) + match eval(args[0], env) {
                    Ok(Val::Bool(b)) => if b {
                        cost_of(args[1], env, rates)
                    } else {
                        cost_of(args[2], env, rates)
                    },
                    _ => 0,
                }
            }
        } else if func == operators::LOGICAL_AND@ || func == operators::LOGICAL_OR@ {
            if args.len() != 2 {
                0
            } else {
                cost_of(args[0], env, rates) + match eval(args[0], env) {
                    Ok(Val::Bool(b)) => if b == (func == operators::LOGICAL_OR@) {
                        0
                    } else {
                        cost_of(args[1], env, rates)
                    },
                    _ => 0,
                }
            }
        } else {
            cost_of_all(args, env, rates) + match target {
                Some(t) => if eval_all(args, env) is Ok {
                    cost_of(*t, env, rates)
                } else {
                    0
                },
                None => 0,
            }
        },
        Node::Comprehension { iter_range, iter_var, accu_var, accu_init, result, .. } => cost_of(
            *iter_range,
            env,
            rates,
        ) + match eval(*iter_range, env) {
            Ok(range) => match range_items(range) {
                Some(items) => cost_of(*accu_init, env, rates) + match eval(*accu_init, env) {
                    Ok(init) => cost_of_loop(tree.node, env, items, 0, init, rates)
                        + match eval_loop(tree.node, env, items, 0, init) {
                        Ok(accu) => cost_of(*result, env.insert(accu_var, accu), rates),
                        Err(_) => 0,
                    },
                    Err(_) => 0,
                },
                None => 0,
            },
            Err(_) => 0,
        },
        _ => 0,
    }
}

/// What the evaluation of some expressions costs, up to the first error.
pub open spec fn cost_of_all(trees: Seq<Ast>, env: Env, rates: Rates) -> nat
    decreases trees, 0nat,
{
    if trees.len() == 0 {
        0
    } else {
        cost_of_all(trees.drop_last(), env, rates) + if eval_all(trees.drop_last(), env) is Ok {
            cost_of(trees.last(), env, rates)
        } else {
            0
        }
    }
}

/// What the evaluation of the entries of a map costs, up to the first error.
pub open spec fn cost_of_entries(entries: Seq<Entry>, env: Env, rates: Rates) -> nat
    decreases entries, 0nat,
{
    if entries.len() == 0 {
        0
    } else {
        cost_of_entries(entries.drop_last(), env, rates) + if eval_entries(
            entries.drop_last(),
            env,
        ) is Ok {
            cost_of_entry(entries.last(), env, rates)
        } else {
            0
        }
    }
}

/// What the evaluation of an entry of a map costs.
pub open spec fn cost_of_entry(entry: Entry, env: Env, rates: Rates) -> nat
    decreases entry, 0nat,
{
    match entry.entry {
        EntryNode::MapEntry { key, value } => cost_of(key, env, rates) + match eval(key, env) {
            Ok(k) => if key_of(k) is Some {
                cost_of(value, env, rates)
            } else {
                0
            },
            Err(_) => 0,
        },
        EntryNode::StructField { field, value } => 0,
    }
}

/// What the rounds of a comprehension cost from item `k` on.
pub open spec fn cost_of_loop(
    node: Node,
    env: Env,
    items: Seq<Val>,
    k: nat,
    accu: Val,
    rates: Rates,
) -> nat
    decreases node, (items.len() - k) as nat,
{
    match node {
        Node::Comprehension { loop_cond, loop_step, .. } => if k >= items.len() {
            0
        } else {
            let scope = round_env(node, env, accu, items[k as int]);
            cost_of(*loop_cond, scope, rates) + if eval(*loop_cond, scope) == Ok::<Val, Fault>(
                Val::Bool(true),
            ) {
                cost_of(*loop_step, scope, rates) + match eval(*loop_step, scope) {
                    Ok(next) => cost_of_loop(node, env, items, k + 1, next, rates),
                    Err(_) => 0,
                }
            } else {
                0
            }
        },
        _ => 0,
    }
}

/// The price of an event under fixed rates.
pub open spec fn price_of(tally: Tally, event: Event, rates: Rates) -> u64 {
    match tally.call_to_price(event.0) {
        Some((func, args)) => (rates.price)(func, args, event.1),
        None => 0,
    }
}

/// The tally after some events under fixed rates.
pub open spec fn tallied(tally: Tally, events: Seq<Event>, rates: Rates) -> Tally
    decreases events.len(),
{
    if events.len() == 0 {
        tally
    } else {
        let before = tallied(tally, events.drop_last(), rates);
        before.observed(
            events.last().0,
            events.last().1,
            price_of(before, events.last(), rates),
        )
    }
}

/// None of the values on the stack stands under one of `ids`.
pub open spec fn clear_of(stack: Seq<(u64, Val)>, ids: Set<u64>) -> bool {
    forall|i: int| 0 <= i < stack.len() ==> !ids.contains((#[trigger] stack[i]).0)
}

/// The values of some trees, each under the identifier of its root.
spec fn laid_out(trees: Seq<Ast>, env: Env) -> Seq<(u64, Val)> {
    Seq::new(trees.len(), |i: int| (trees[i].id, eval(trees[i], env)->Ok_0))
}

/// The trees are distinct in themselves and share no identifiers.
spec fn apart(trees: Seq<Ast>) -> bool {
    &&& forall|i: int| 0 <= i < trees.len() ==> (#[trigger] trees[i]).distinct_ids()
    &&& forall|i: int, j: int|
        #![trigger trees[i], trees[j]]
        0 <= i < j < trees.len() ==> trees[i].ids().disjoint(trees[j].ids())
}

/// No value on the stack stands under an identifier from below the trees.
spec fn clear_below(stack: Seq<(u64, Val)>, trees: Seq<Ast>) -> bool {
    forall|i: int| 0 <= i < trees.len() ==> clear_of(stack, (#[trigger] trees[i]).ids_below())
}

/// Events can be tallied in two parts.
proof fn lemma_tallied_parts(tally: Tally, first: Seq<Event>, second: Seq<Event>, rates: Rates)
    ensures
        tallied(tally, first + second, rates) == tallied(
            tallied(tally, first, rates),
            second,
            rates,
        ),
    decreases second.len(),
{
    if second.len() == 0 {
        assert(first + second =~= first);
    } else {
        assert((first + second).drop_last() =~= first + second.drop_last());
        lemma_tallied_parts(tally, first, second.drop_last(), rates);
    }
}

/// The last position under an identifier, in full.
proof fn lemma_last_position(stack: Seq<(u64, Val)>, id: u64)
    ensures
        -1 <= last_position(stack, id) < stack.len(),
        last_position(stack, id) >= 0 ==> stack[last_position(stack, id)].0 == id,
        forall|j: int|
            last_position(stack, id) < j < stack.len() ==> (#[trigger] stack[j]).0 != id,
    decreases stack.len(),
{
    if stack.len() > 0 && stack.last().0 != id {
        let init = stack.drop_last();
        lemma_last_position(init, id);
        assert forall|j: int| last_position(stack, id) < j < stack.len() implies (
        #[trigger] stack[j]).0 != id by {
            if j < init.len() {
                assert(init[j] == stack[j]);
            }
        }
    }
}

/// What the position of the last value is follows from what stands above it.
proof fn lemma_position_is(stack: Seq<(u64, Val)>, id: u64, pos: int)
    requires
        -1 <= pos < stack.len(),
        pos >= 0 ==> stack[pos].0 == id,
        forall|j: int| pos < j < stack.len() ==> (#[trigger] stack[j]).0 != id,
    ensures
        last_position(stack, id) == pos,
{
    lemma_last_position(stack, id);
    let p = last_position(stack, id);
    if p < pos {
        assert(stack[pos].0 != id);
    } else if p > pos {
        assert(stack[p].0 != id);
    }
}

/// Values that lie on the stack in order come off in order.
proof fn lemma_take_laid_out(stack: Seq<(u64, Val)>, on_top: Seq<(u64, Val)>, ids: Seq<u64>)
    requires
        ids.len() == on_top.len(),
        forall|i: int| 0 <= i < ids.len() ==> #[trigger] ids[i] == on_top[i].0,
    ensures
        taken(stack + on_top, ids) == (
            Some(Seq::new(on_top.len(), |i: int| on_top[i].1)),
            stack,
        ),
{
    let all = stack + on_top;
    assert forall|i: int| 0 <= i < ids.len() implies last_position(all, #[trigger] ids[i])
        >= 0 by {
        lemma_last_position(all, ids[i]);
        assert(all[stack.len() + i].0 == ids[i]);
    }
    lemma_pull_laid_out(stack, on_top, ids);
}

proof fn lemma_pull_laid_out(stack: Seq<(u64, Val)>, on_top: Seq<(u64, Val)>, ids: Seq<u64>)
    requires
        ids.len() == on_top.len(),
        forall|i: int| 0 <= i < ids.len() ==> #[trigger] ids[i] == on_top[i].0,
    ensures
        pulled(stack + on_top, ids) == (
            Some(Seq::new(on_top.len(), |i: int| on_top[i].1)),
            stack,
        ),
    decreases ids.len(),
{
    let values = Seq::new(on_top.len(), |i: int| on_top[i].1);
    if ids.len() == 0 {
        assert(stack + on_top =~= stack);
        assert(values =~= seq![]);
    } else {
        let all = stack + on_top;
        let below = on_top.drop_last();
        assert(all.last() == on_top.last());
        assert(last_position(all, ids.last()) == all.len() - 1);
        assert(all.take(all.len() - 1) =~= stack + below);
        lemma_pull_laid_out(stack, below, ids.drop_last());
        assert(Seq::new(below.len(), |i: int| below[i].1).push(on_top.last().1) =~= values);
    }
}

/// The value of each expression is among the values of all.
proof fn lemma_values_of_all(trees: Seq<Ast>, env: Env)
    ensures
        eval_all(trees, env) matches Ok(values) ==> {
            &&& values.len() == trees.len()
            &&& forall|i: int|
                0 <= i < trees.len() ==> eval(#[trigger] trees[i], env) == Ok::<Val, Fault>(
                    values[i],
                )
        },
    decreases trees.len(),
{
    if trees.len() > 0 {
        let init = trees.drop_last();
        lemma_values_of_all(init, env);
        if let Ok(values) = eval_all(trees, env) {
            assert forall|i: int| 0 <= i < trees.len() implies eval(#[trigger] trees[i], env)
                == Ok::<Val, Fault>(values[i]) by {
                if i < init.len() {
                    assert(init[i] == trees[i]);
                }
            }
        }
    }
}

/// The identifiers of a direct subexpression belong to the nodes below the root.
proof fn lemma_ids_of_kid(tree: Ast, i: int)
    requires
        0 <= i < tree.kids().len(),
    ensures
        tree.kids()[i].ids().subset_of(tree.ids_below()),
        tree.kids()[i].ids_below().subset_of(tree.ids_below()),
        tree.ids_below().contains(tree.kids()[i].id),
{
    assert(tree.kids()[i].ids().contains(tree.kids()[i].id));
}

/// The subexpressions of a distinct tree are apart, and a stack that is clear of
/// what is below the tree is clear of what is below them.
proof fn lemma_kids_apart(tree: Ast, stack: Seq<(u64, Val)>)
    requires
        tree.distinct_ids(),
        clear_of(stack, tree.ids_below()),
    ensures
        apart(tree.kids()),
        clear_below(stack, tree.kids()),
{
    assert forall|i: int| 0 <= i < tree.kids().len() implies clear_of(
        stack,
        (#[trigger] tree.kids()[i]).ids_below(),
    ) by {
        lemma_ids_of_kid(tree, i);
    }
    assert forall|i: int| 0 <= i < tree.kids().len() implies (
    #[trigger] tree.kids()[i]).distinct_ids() by {}
}

/// The parts of a sequence that are apart.
proof fn lemma_apart_prefix(trees: Seq<Ast>, n: int, stack: Seq<(u64, Val)>)
    requires
        apart(trees),
        clear_below(stack, trees),
        0 <= n <= trees.len(),
    ensures
        apart(trees.take(n)),
        clear_below(stack, trees.take(n)),
{
    let part = trees.take(n);
    assert forall|i: int| 0 <= i < part.len() implies (#[trigger] part[i]).distinct_ids() by {
        assert(part[i] == trees[i]);
    }
    assert forall|i: int, j: int|
        #![trigger part[i], part[j]]
        0 <= i < j < part.len() implies part[i].ids().disjoint(part[j].ids()) by {
        assert(part[i] == trees[i] && part[j] == trees[j]);
        assert(trees[i].ids().disjoint(trees[j].ids()));
    }
    assert forall|i: int| 0 <= i < part.len() implies clear_of(
        stack,
        (#[trigger] part[i]).ids_below(),
    ) by {
        assert(part[i] == trees[i]);
    }
}

/// What lies on the stack from the first trees is clear of what is below a later one.
proof fn lemma_laid_out_is_clear(
    stack: Seq<(u64, Val)>,
    trees: Seq<Ast>,
    n: int,
    env: Env,
)
    requires
        apart(trees),
        clear_below(stack, trees),
        0 <= n < trees.len(),
    ensures
        clear_of(stack + laid_out(trees.take(n), env), trees[n].ids_below()),
{
    let top = laid_out(trees.take(n), env);
    let all = stack + top;
    assert(clear_of(stack, trees[n].ids_below()));
    assert forall|i: int| 0 <= i < all.len() implies !trees[n].ids_below().contains(
        (#[trigger] all[i]).0,
    ) by {
        if i >= stack.len() {
            let j = i - stack.len();
            assert(all[i].0 == trees[j].id);
            assert(trees[j].ids().contains(trees[j].id));
            assert(trees[j].ids().disjoint(trees[n].ids()));
        } else {
            assert(all[i] == stack[i]);
        }
    }
}

/// Charging in two steps is charging once.
proof fn lemma_saturated_twice(a: nat, b: nat, c: nat)
    ensures
        saturated(saturated(a + b) as nat + c) == saturated(a + (b + c)),
{
}

/// The tally after the evaluation of an expression.
proof fn lemma_cost(tree: Ast, env: Env, tally: Tally, rates: Rates)
    requires
        tree.distinct_ids(),
        clear_of(tally.stack, tree.ids_below()),
        tally.policy.presence_test_has_cost == rates.presence_test_has_cost,
    ensures
        ({
            let after = tallied(tally, trace(tree, env), rates);
            &&& after.policy == tally.policy
            &&& after.cost == saturated(tally.cost as nat + cost_of(tree, env, rates))
            &&& eval(tree, env) matches Ok(v) ==> after.stack == tally.stack.push((tree.id, v))
        }),
    decreases tree, 3nat,
{
    let parts = trace_parts(tree, env);
    let own = own_event(tree, eval(tree, env));
    let between = tallied(tally, parts, rates);
    lemma_cost_of_parts(tree, env, tally, rates);
    lemma_tallied_parts(tally, parts, own, rates);
    lemma_saturated_twice(
        tally.cost as nat,
        cost_of_parts(tree, env, rates),
        own_cost(tree, env, rates),
    );
    if let Ok(v) = eval(tree, env) {
        assert(own.drop_last() =~= seq![]);
        assert(own.last() == (tree, v));
        let price = price_of(between, (tree, v), rates);
        assert(tallied(between, own.drop_last(), rates) == between);
        assert(tallied(between, own, rates) == between.observed(tree, v, price));
        assert(between.charge_for(tree, price) == own_cost(tree, env, rates));
    }
}

/// The tally after the evaluation of everything below an expression.
proof fn lemma_cost_of_parts(tree: Ast, env: Env, tally: Tally, rates: Rates)
    requires
        tree.distinct_ids(),
        clear_of(tally.stack, tree.ids_below()),
        tally.policy.presence_test_has_cost == rates.presence_test_has_cost,
    ensures
        ({
            let after = tallied(tally, trace_parts(tree, env), rates);
            &&& after.policy == tally.policy
            &&& after.cost == saturated(tally.cost as nat + cost_of_parts(tree, env, rates))
            &&& eval(tree, env) is Ok ==> {
                &&& after.stack_without_parts(tree) == tally.stack
                &&& tree.node matches Node::Call { func, target, args } ==> !is_control_flow(func)
                    ==> after.call_to_price(tree) == Some((func, operands(target, args, env)))
            }
        }),
    decreases tree, 2nat,
{
    lemma_kids_apart(tree, tally.stack);
    match tree.node {
        Node::Select { operand, field, test } => {
            assert(tree.kids()[0] == *operand);
            lemma_cost(*operand, env, tally, rates);
            if let Ok(v) = eval(*operand, env) {
                let after = tallied(tally, trace(*operand, env), rates);
                let ids = seq![operand.id];
                assert(ids.drop_last() =~= seq![]);
                assert(after.stack.take(after.stack.len() - 1) =~= tally.stack);
                reveal_with_fuel(all_dropped, 2);
            }
        },
        Node::List(elements) => {
            lemma_cost_of_all(elements, env, tally, rates);
            if eval(tree, env) is Ok {
                lemma_take_laid_out(
                    tally.stack,
                    laid_out(elements, env),
                    root_ids(elements),
                );
            }
        },
        Node::Dict(entries) => {
            lemma_cost_of_entries(entries, env, tally, rates);
            if eval(tree, env) is Ok {
                lemma_take_laid_out(
                    tally.stack,
                    laid_out(entry_kids(entries), env),
                    root_ids(entry_kids(entries)),
                );
            }
        },
        Node::Call { func, target, args } => {
            lemma_cost_of_call(tree, env, tally, rates);
        },
        Node::Comprehension { .. } => {
            lemma_cost_of_comprehension(tree, env, tally, rates);
        },
        _ => {},
    }
}

/// The tally after the evaluation of some expressions.
proof fn lemma_cost_of_all(trees: Seq<Ast>, env: Env, tally: Tally, rates: Rates)
    requires
        apart(trees),
        clear_below(tally.stack, trees),
        tally.policy.presence_test_has_cost == rates.presence_test_has_cost,
    ensures
        ({
            let after = tallied(tally, trace_all(trees, env), rates);
            &&& after.policy == tally.policy
            &&& after.cost == saturated(tally.cost as nat + cost_of_all(trees, env, rates))
            &&& eval_all(trees, env) is Ok ==> after.stack == tally.stack + laid_out(trees, env)
        }),
    decreases trees, 0nat,
{
    if trees.len() == 0 {
        assert(tally.stack + laid_out(trees, env) =~= tally.stack);
    } else {
        let n = trees.len() - 1;
        let init = trees.drop_last();
        assert(init =~= trees.take(n));
        lemma_apart_prefix(trees, n, tally.stack);
        lemma_cost_of_all(init, env, tally, rates);
        if eval_all(init, env) is Ok {
            let between = tallied(tally, trace_all(init, env), rates);
            let last = trees.last();
            lemma_laid_out_is_clear(tally.stack, trees, n, env);
            lemma_cost(last, env, between, rates);
            lemma_tallied_parts(tally, trace_all(init, env), trace(last, env), rates);
            lemma_saturated_twice(
                tally.cost as nat,
                cost_of_all(init, env, rates),
                cost_of(last, env, rates),
            );
            if let Ok(v) = eval(last, env) {
                assert(tally.stack + laid_out(trees, env) =~= (tally.stack + laid_out(init, env)).push(
                    (last.id, v),
                ));
            }
        } else {
            assert(trace_all(trees, env) =~= trace_all(init, env));
        }
    }
}

/// The tally after the evaluation of the entries of a map.
proof fn lemma_cost_of_entries(entries: Seq<Entry>, env: Env, tally: Tally, rates: Rates)
    requires
        apart(entry_kids(entries)),
        clear_below(tally.stack, entry_kids(entries)),
        tally.policy.presence_test_has_cost == rates.presence_test_has_cost,
    ensures
        ({
            let after = tallied(tally, trace_entries(entries, env), rates);
            &&& after.policy == tally.policy
            &&& after.cost == saturated(tally.cost as nat + cost_of_entries(entries, env, rates))
            &&& eval_entries(entries, env) is Ok ==> after.stack == tally.stack + laid_out(
                entry_kids(entries),
                env,
            )
        }),
    decreases entries, 0nat,
{
    let trees = entry_kids(entries);
    if entries.len() == 0 {
        assert(tally.stack + laid_out(trees, env) =~= tally.stack);
    } else {
        let init = entries.drop_last();
        let n = entry_kids(init).len() as int;
        assert(trees.take(n) =~= entry_kids(init));
        lemma_apart_prefix(trees, n, tally.stack);
        lemma_cost_of_entries(init, env, tally, rates);
        if eval_entries(init, env) is Ok {
            let before = trace_entries(init, env);
            let entry = entries.last();
            let between = tallied(tally, before, rates);
            lemma_tallied_parts(tally, before, trace_entry(entry, env), rates);
            lemma_saturated_twice(
                tally.cost as nat,
                cost_of_entries(init, env, rates),
                cost_of_entry(entry, env, rates),
            );
            assert(decreases_to!(entries => entries[entries.len() - 1]));
            assert(trees.skip(n) =~= entry.kids());
            lemma_cost_of_entry(entry, trees, env, tally.stack, between, rates);
        } else {
            assert(trace_entries(entries, env) =~= trace_entries(init, env));
        }
    }
}

/// The tally after the evaluation of the last entry of a map, where `trees` are
/// the expressions of all its entries.
proof fn lemma_cost_of_entry(
    entry: Entry,
    trees: Seq<Ast>,
    env: Env,
    stack: Seq<(u64, Val)>,
    tally: Tally,
    rates: Rates,
)
    requires
        apart(trees),
        clear_below(stack, trees),
        trees.len() >= entry.kids().len(),
        trees.skip(trees.len() - entry.kids().len()) == entry.kids(),
        tally.stack == stack + laid_out(trees.take(trees.len() - entry.kids().len()), env),
        tally.policy.presence_test_has_cost == rates.presence_test_has_cost,
    ensures
        ({
            let after = tallied(tally, trace_entry(entry, env), rates);
            &&& after.policy == tally.policy
            &&& after.cost == saturated(tally.cost as nat + cost_of_entry(entry, env, rates))
            &&& eval_entry(entry, env) is Ok ==> after.stack == stack + laid_out(trees, env)
        }),
    decreases entry, 0nat,
{
    let n = trees.len() - entry.kids().len();
    match entry.entry {
        EntryNode::StructField { field, value } => {},
        EntryNode::MapEntry { key, value } => {
            assert(decreases_to!(entry => entry.entry));
            assert(decreases_to!(entry.entry => entry.entry->MapEntry_key));
            assert(decreases_to!(entry.entry => entry.entry->MapEntry_value));
            assert(trees[n] == trees.skip(n)[0]);
            assert(trees[n + 1] == trees.skip(n)[1]);
            lemma_laid_out_is_clear(stack, trees, n, env);
            lemma_cost(key, env, tally, rates);
            let after_key = tallied(tally, trace(key, env), rates);
            match eval(key, env) {
                Ok(k) => {
                    if key_of(k) is Some {
                        assert(after_key.stack =~= stack + laid_out(trees.take(n + 1), env));
                        lemma_laid_out_is_clear(stack, trees, n + 1, env);
                        lemma_cost(value, env, after_key, rates);
                        lemma_tallied_parts(tally, trace(key, env), trace(value, env), rates);
                        lemma_saturated_twice(
                            tally.cost as nat,
                            cost_of(key, env, rates),
                            cost_of(value, env, rates),
                        );
                        if let Ok(v) = eval(value, env) {
                            assert(stack + laid_out(trees, env) =~= after_key.stack.push(
                                (value.id, v),
                            ));
                        }
                    } else {
                        assert(trace_entry(entry, env) =~= trace(key, env));
                    }
                },
                Err(_) => {
                    assert(trace_entry(entry, env) =~= trace(key, env));
                },
            }
        },
    }
}

/// A stack stays clear of a tree below another one's value.
proof fn lemma_push_is_clear(stack: Seq<(u64, Val)>, ids: Set<u64>, id: u64, v: Val)
    requires
        clear_of(stack, ids),
        !ids.contains(id),
    ensures
        clear_of(stack.push((id, v)), ids),
{
    let all = stack.push((id, v));
    assert forall|i: int| 0 <= i < all.len() implies !ids.contains((#[trigger] all[i]).0) by {
        if i < stack.len() {
            assert(all[i] == stack[i]);
        }
    }
}

/// What is not on the stack is not dropped.
proof fn lemma_drop_absent(stack: Seq<(u64, Val)>, ids: Set<u64>, id: u64)
    requires
        clear_of(stack, ids),
        ids.contains(id),
    ensures
        dropped(stack, id) == stack,
{
    lemma_position_is(stack, id, -1);
}

/// The first value above a stack takes everything above it along.
proof fn lemma_drop_first(stack: Seq<(u64, Val)>, all: Seq<(u64, Val)>, id: u64)
    requires
        all.len() > stack.len(),
        all.take(stack.len() as int) == stack,
        all[stack.len() as int].0 == id,
        forall|j: int| stack.len() < j < all.len() ==> (#[trigger] all[j]).0 != id,
    ensures
        dropped(all, id) == stack,
{
    lemma_position_is(all, id, stack.len() as int);
}

/// The tally after the evaluation of the operands of a call.
proof fn lemma_cost_of_call(tree: Ast, env: Env, tally: Tally, rates: Rates)
    requires
        tree.node is Call,
        tree.distinct_ids(),
        clear_of(tally.stack, tree.ids_below()),
        tally.policy.presence_test_has_cost == rates.presence_test_has_cost,
    ensures
        ({
            let after = tallied(tally, trace_parts(tree, env), rates);
            &&& after.policy == tally.policy
            &&& after.cost == saturated(tally.cost as nat + cost_of_parts(tree, env, rates))
            &&& eval(tree, env) is Ok ==> {
                &&& after.stack_without_parts(tree) == tally.stack
                &&& tree.node matches Node::Call { func, target, args } ==> !is_control_flow(func)
                    ==> after.call_to_price(tree) == Some((func, operands(target, args, env)))
            }
        }),
    decreases tree, 1nat,
{
    if let Node::Call { func, target, args } = tree.node {
        let n = args.len() as int;
        if func == operators::CONDITIONAL@ {
            if n == 3 {
                lemma_cost_of_branches(tree, env, tally, rates);
            }
        } else if is_control_flow(func) {
            if n == 2 {
                lemma_cost_of_logic(tree, env, tally, rates);
            }
        } else {
            match target {
                None => lemma_cost_of_arguments(tree, env, tally, rates),
                Some(t) => lemma_cost_of_member_call(tree, env, tally, rates),
            }
        }
    }
}

/// The tally after the evaluation of the arguments of a call without a receiver.
proof fn lemma_cost_of_arguments(tree: Ast, env: Env, tally: Tally, rates: Rates)
    requires
        tree.node is Call,
        tree.node->Call_target is None,
        !is_control_flow(tree.node->Call_func),
        tree.distinct_ids(),
        clear_of(tally.stack, tree.ids_below()),
        tally.policy.presence_test_has_cost == rates.presence_test_has_cost,
    ensures
        ({
            let after = tallied(tally, trace_parts(tree, env), rates);
            let (func, args) = (tree.node->Call_func, tree.node->Call_args);
            &&& after.policy == tally.policy
            &&& after.cost == saturated(tally.cost as nat + cost_of_parts(tree, env, rates))
            &&& eval(tree, env) is Ok ==> {
                &&& after.stack_without_parts(tree) == tally.stack
                &&& after.call_to_price(tree) == Some((func, operands(None, args, env)))
            }
        }),
    decreases tree, 0nat,
{
    let args = tree.node->Call_args;
    lemma_kids_apart(tree, tally.stack);
    lemma_cost_of_all(args, env, tally, rates);
    lemma_values_of_all(args, env);
    assert(trace_parts(tree, env) =~= trace_all(args, env));
    if let Ok(values) = eval_all(args, env) {
        let laid = laid_out(args, env);
        lemma_take_laid_out(tally.stack, laid, root_ids(args));
        assert(Seq::new(laid.len(), |i: int| laid[i].1) =~= values);
    }
}

/// The tally after the evaluation of the arguments and the receiver of a call.
proof fn lemma_cost_of_member_call(tree: Ast, env: Env, tally: Tally, rates: Rates)
    requires
        tree.node is Call,
        tree.node->Call_target is Some,
        !is_control_flow(tree.node->Call_func),
        tree.distinct_ids(),
        clear_of(tally.stack, tree.ids_below()),
        tally.policy.presence_test_has_cost == rates.presence_test_has_cost,
    ensures
        ({
            let after = tallied(tally, trace_parts(tree, env), rates);
            let (func, args) = (tree.node->Call_func, tree.node->Call_args);
            &&& after.policy == tally.policy
            &&& after.cost == saturated(tally.cost as nat + cost_of_parts(tree, env, rates))
            &&& eval(tree, env) is Ok ==> {
                &&& after.stack_without_parts(tree) == tally.stack
                &&& after.call_to_price(tree) == Some(
                    (func, operands(tree.node->Call_target, args, env)),
                )
            }
        }),
    decreases tree, 0nat,
{
    let args = tree.node->Call_args;
    let t = *tree.node->Call_target->0;
    let kids = tree.kids();
    let n = args.len() as int;
    lemma_kids_apart(tree, tally.stack);
    assert(kids == args.push(t));
    assert(kids.take(n) =~= args);
    lemma_apart_prefix(kids, n, tally.stack);
    tree.lemma_kids_are_smaller();
    lemma_cost_of_all(args, env, tally, rates);
    lemma_values_of_all(args, env);
    let first = trace_all(args, env);
    let between = tallied(tally, first, rates);
    match eval_all(args, env) {
        Ok(values) => {
            assert(kids[n] == t);
            lemma_laid_out_is_clear(tally.stack, kids, n, env);
            lemma_cost(t, env, between, rates);
            lemma_tallied_parts(tally, first, trace(t, env), rates);
            lemma_saturated_twice(
                tally.cost as nat,
                cost_of_all(args, env, rates),
                cost_of(t, env, rates),
            );
            if let Ok(v) = eval(t, env) {
                let laid = laid_out(kids, env);
                let after = tallied(between, trace(t, env), rates);
                assert(after.stack =~= tally.stack + laid);
                let ids = root_ids(args).push(t.id);
                lemma_take_laid_out(tally.stack, laid, ids);
                let got = Seq::new(laid.len(), |i: int| laid[i].1);
                assert(got =~= values.push(v));
                assert(got.drop_last() =~= values);
            }
        },
        Err(_) => {
            assert(trace_parts(tree, env) =~= first);
        },
    }
}

/// The tally after the evaluation of a condition and the branch that it picks.
proof fn lemma_cost_of_branches(tree: Ast, env: Env, tally: Tally, rates: Rates)
    requires
        tree.node is Call,
        tree.node->Call_func == operators::CONDITIONAL@,
        tree.node->Call_args.len() == 3,
        tree.distinct_ids(),
        clear_of(tally.stack, tree.ids_below()),
        tally.policy.presence_test_has_cost == rates.presence_test_has_cost,
    ensures
        ({
            let after = tallied(tally, trace_parts(tree, env), rates);
            &&& after.policy == tally.policy
            &&& after.cost == saturated(tally.cost as nat + cost_of_parts(tree, env, rates))
            &&& eval(tree, env) is Ok ==> after.stack_without_parts(tree) == tally.stack
        }),
    decreases tree, 0nat,
{
    let args = tree.node->Call_args;
    let kids = tree.kids();
    let stack = tally.stack;
    lemma_kids_apart(tree, stack);
    tree.lemma_kids_are_smaller();
    assert(kids[0] == args[0] && kids[1] == args[1] && kids[2] == args[2]);
    lemma_cost(args[0], env, tally, rates);
    let first = trace(args[0], env);
    let between = tallied(tally, first, rates);
    match eval(args[0], env) {
        Ok(Val::Bool(b)) => {
            let k: int = if b {
                1
            } else {
                2
            };
            let branch = args[k];
            assert(kids[k] == branch);
            assert(kids[0].ids().disjoint(kids[k].ids()));
            assert(kids[0].ids().contains(args[0].id));
            assert(kids[k].ids().contains(branch.id));
            lemma_push_is_clear(stack, branch.ids_below(), args[0].id, Val::Bool(b));
            lemma_cost(branch, env, between, rates);
            lemma_tallied_parts(tally, first, trace(branch, env), rates);
            lemma_saturated_twice(
                tally.cost as nat,
                cost_of(args[0], env, rates),
                cost_of(branch, env, rates),
            );
            if let Ok(v) = eval(branch, env) {
                let all = stack.push((args[0].id, Val::Bool(b))).push((branch.id, v));
                assert(all.take(stack.len() as int) =~= stack);
                lemma_drop_first(stack, all, args[0].id);
                lemma_ids_of_kid(tree, 1);
                lemma_ids_of_kid(tree, 2);
                lemma_drop_absent(stack, tree.ids_below(), args[1].id);
                lemma_drop_absent(stack, tree.ids_below(), args[2].id);
                lemma_drop_three(all, args[0].id, args[1].id, args[2].id);
            }
        },
        _ => {
            assert(trace_parts(tree, env) =~= first);
        },
    }
}

/// Three values are dropped one after the other.
proof fn lemma_drop_three(stack: Seq<(u64, Val)>, a: u64, b: u64, c: u64)
    ensures
        all_dropped(stack, seq![a, b, c]) == dropped(dropped(dropped(stack, a), b), c),
{
    lemma_drop_two(stack, a, b);
    assert(seq![a, b, c].drop_last() =~= seq![a, b]);
}

/// Two values are dropped one after the other.
proof fn lemma_drop_two(stack: Seq<(u64, Val)>, a: u64, b: u64)
    ensures
        all_dropped(stack, seq![a, b]) == dropped(dropped(stack, a), b),
{
    assert(seq![a, b].drop_last() =~= seq![a]);
    assert(seq![a].drop_last() =~= seq![]);
    assert(all_dropped(stack, seq![a]) == dropped(all_dropped(stack, seq![]), a));
}

/// The tally after the evaluation of the operands of a conjunction or disjunction.
proof fn lemma_cost_of_logic(tree: Ast, env: Env, tally: Tally, rates: Rates)
    requires
        tree.node is Call,
        tree.node->Call_func != operators::CONDITIONAL@,
        is_control_flow(tree.node->Call_func),
        tree.node->Call_args.len() == 2,
        tree.distinct_ids(),
        clear_of(tally.stack, tree.ids_below()),
        tally.policy.presence_test_has_cost == rates.presence_test_has_cost,
    ensures
        ({
            let after = tallied(tally, trace_parts(tree, env), rates);
            &&& after.policy == tally.policy
            &&& after.cost == saturated(tally.cost as nat + cost_of_parts(tree, env, rates))
            &&& eval(tree, env) is Ok ==> after.stack_without_parts(tree) == tally.stack
        }),
    decreases tree, 0nat,
{
    let args = tree.node->Call_args;
    let func = tree.node->Call_func;
    let kids = tree.kids();
    let stack = tally.stack;
    lemma_kids_apart(tree, stack);
    tree.lemma_kids_are_smaller();
    assert(kids[0] == args[0] && kids[1] == args[1]);
    lemma_cost(args[0], env, tally, rates);
    let first = trace(args[0], env);
    let between = tallied(tally, first, rates);
    let (a, b) = (args[0].id, args[1].id);
    assert(root_ids(args) =~= seq![a, b]);
    lemma_ids_of_kid(tree, 1);
    lemma_drop_absent(stack, tree.ids_below(), b);
    assert(kids[0].ids().disjoint(kids[1].ids()));
    assert(kids[0].ids().contains(a));
    assert(kids[1].ids().contains(b));
    match eval(args[0], env) {
        Ok(Val::Bool(x)) => {
            let one = stack.push((a, Val::Bool(x)));
            assert(one.take(stack.len() as int) =~= stack);
            if x == (func == operators::LOGICAL_OR@) {
                assert(trace_parts(tree, env) =~= first);
                lemma_drop_first(stack, one, a);
                lemma_drop_two(one, a, b);
            } else {
                lemma_push_is_clear(stack, args[1].ids_below(), a, Val::Bool(x));
                lemma_cost(args[1], env, between, rates);
                lemma_tallied_parts(tally, first, trace(args[1], env), rates);
                lemma_saturated_twice(
                    tally.cost as nat,
                    cost_of(args[0], env, rates),
                    cost_of(args[1], env, rates),
                );
                if let Ok(v) = eval(args[1], env) {
                    let all = one.push((b, v));
                    assert(all.take(stack.len() as int) =~= stack);
                    lemma_drop_first(stack, all, a);
                    lemma_drop_two(all, a, b);
                }
            }
        },
        _ => {
            assert(trace_parts(tree, env) =~= first);
        },
    }
}

/// Above `stack`, there are only values under one of two identifiers.
spec fn rounds_on(stack: Seq<(u64, Val)>, all: Seq<(u64, Val)>, cond: u64, step: u64) -> bool {
    &&& all.len() >= stack.len()
    &&& all.take(stack.len() as int) == stack
    &&& forall|i: int|
        stack.len() <= i < all.len() ==> (#[trigger] all[i]).0 == cond || all[i].0 == step
}

/// The tally after the rounds of a comprehension.
proof fn lemma_cost_of_loop(
    node: Node,
    env: Env,
    items: Seq<Val>,
    k: nat,
    accu: Val,
    tally: Tally,
    rates: Rates,
)
    requires
        node is Comprehension,
        node->loop_cond.distinct_ids(),
        node->loop_step.distinct_ids(),
        node->loop_cond.ids().disjoint(node->loop_step.ids()),
        clear_of(tally.stack, node->loop_cond.ids_below()),
        clear_of(tally.stack, node->loop_step.ids_below()),
        tally.policy.presence_test_has_cost == rates.presence_test_has_cost,
    ensures
        ({
            let after = tallied(tally, trace_loop(node, env, items, k, accu), rates);
            &&& after.policy == tally.policy
            &&& after.cost == saturated(
                tally.cost as nat + cost_of_loop(node, env, items, k, accu, rates),
            )
            &&& eval_loop(node, env, items, k, accu) is Ok ==> rounds_on(
                tally.stack,
                after.stack,
                node->loop_cond.id,
                node->loop_step.id,
            )
        }),
    decreases node, (items.len() - k) as nat,
{
    let stack = tally.stack;
    let (cond, step) = (*node->loop_cond, *node->loop_step);
    if k >= items.len() {
        assert(stack.take(stack.len() as int) =~= stack);
    } else {
        let scope = round_env(node, env, accu, items[k as int]);
        let whole = trace_loop(node, env, items, k, accu);
        let first = trace(cond, scope);
        lemma_cost(cond, scope, tally, rates);
        let t1 = tallied(tally, first, rates);
        assert(cond.ids().contains(cond.id));
        assert(step.ids().contains(step.id));
        match eval(cond, scope) {
            Ok(Val::Bool(go_on)) => {
                let one = stack.push((cond.id, Val::Bool(go_on)));
                assert(one.take(stack.len() as int) =~= stack);
                if go_on {
                    lemma_push_is_clear(stack, step.ids_below(), cond.id, Val::Bool(true));
                    lemma_push_is_clear(stack, cond.ids_below(), cond.id, Val::Bool(true));
                    let second = trace(step, scope);
                    lemma_cost(step, scope, t1, rates);
                    let t2 = tallied(t1, second, rates);
                    if let Ok(next) = eval(step, scope) {
                        let two = one.push((step.id, next));
                        lemma_push_is_clear(one, step.ids_below(), step.id, next);
                        lemma_push_is_clear(one, cond.ids_below(), step.id, next);
                        let third = trace_loop(node, env, items, k + 1, next);
                        lemma_cost_of_loop(node, env, items, k + 1, next, t2, rates);
                        assert(whole =~= first + (second + third));
                        lemma_tallied_parts(tally, first, second + third, rates);
                        lemma_tallied_parts(t1, second, third, rates);
                        let rest = cost_of_loop(node, env, items, k + 1, next, rates);
                        lemma_saturated_twice(t1.cost as nat, cost_of(step, scope, rates), rest);
                        lemma_saturated_twice(
                            tally.cost as nat,
                            cost_of(cond, scope, rates),
                            cost_of(step, scope, rates) + rest,
                        );
                        let after = tallied(t2, third, rates);
                        if eval_loop(node, env, items, k, accu) is Ok {
                            assert(rounds_on(two, after.stack, cond.id, step.id));
                            assert(after.stack.take(stack.len() as int) =~= after.stack.take(
                                two.len() as int,
                            ).take(stack.len() as int));
                            assert(two.take(stack.len() as int) =~= stack);
                            assert forall|i: int| stack.len() <= i < after.stack.len() implies (
                            #[trigger] after.stack[i]).0 == cond.id || after.stack[i].0
                                == step.id by {
                                if i < two.len() {
                                    assert(after.stack[i] == after.stack.take(
                                        two.len() as int,
                                    )[i]);
                                }
                            }
                        }
                    } else {
                        assert(whole =~= first + second);
                        lemma_tallied_parts(tally, first, second, rates);
                        lemma_saturated_twice(
                            tally.cost as nat,
                            cost_of(cond, scope, rates),
                            cost_of(step, scope, rates),
                        );
                    }
                } else {
                    assert(whole =~= first);
                }
            },
            _ => {
                assert(whole =~= first);
            },
        }
    }
}

/// The tally after the evaluation of everything below a comprehension.
#[verifier::rlimit(40)]
#[verifier::spinoff_prover]
proof fn lemma_cost_of_comprehension(tree: Ast, env: Env, tally: Tally, rates: Rates)
    requires
        tree.node is Comprehension,
        tree.distinct_ids(),
        clear_of(tally.stack, tree.ids_below()),
        tally.policy.presence_test_has_cost == rates.presence_test_has_cost,
    ensures
        ({
            let after = tallied(tally, trace_parts(tree, env), rates);
            &&& after.policy == tally.policy
            &&& after.cost == saturated(tally.cost as nat + cost_of_parts(tree, env, rates))
            &&& eval(tree, env) is Ok ==> after.stack_without_parts(tree) == tally.stack
        }),
    decreases tree, 0nat,
{
    let node = tree.node;
    let stack = tally.stack;
    let kids = tree.kids();
    let (range, init, cond, step, result) = (
        *node->iter_range,
        *node->accu_init,
        *node->loop_cond,
        *node->loop_step,
        *node->Comprehension_result,
    );
    lemma_kids_apart(tree, stack);
    tree.lemma_kids_are_smaller();
    assert(kids[0] == range && kids[1] == init && kids[2] == cond && kids[3] == step && kids[4]
        == result);
    assert forall|i: int| 0 <= i < 5 implies (#[trigger] kids[i]).ids().contains(
        kids[i].id,
    ) by {}
    assert forall|i: int, j: int|
        #![trigger kids[i], kids[j]]
        0 <= i < j < 5 implies kids[i].ids().disjoint(kids[j].ids()) by {}
    assert(range.ids().disjoint(init.ids()));
    assert(range.ids().disjoint(cond.ids()));
    assert(range.ids().disjoint(step.ids()));
    assert(range.ids().disjoint(result.ids()));
    assert(init.ids().disjoint(cond.ids()));
    assert(init.ids().disjoint(step.ids()));
    assert(init.ids().disjoint(result.ids()));
    assert(cond.ids().disjoint(step.ids()));
    assert(cond.ids().disjoint(result.ids()));
    assert(step.ids().disjoint(result.ids()));
    let whole = trace_parts(tree, env);
    let first = trace(range, env);
    lemma_cost(range, env, tally, rates);
    let t1 = tallied(tally, first, rates);
    if let Ok(r) = eval(range, env) {
        if let Some(items) = range_items(r) {
            let one = stack.push((range.id, r));
            lemma_push_is_clear(stack, init.ids_below(), range.id, r);
            lemma_push_is_clear(stack, cond.ids_below(), range.id, r);
            lemma_push_is_clear(stack, step.ids_below(), range.id, r);
            lemma_push_is_clear(stack, result.ids_below(), range.id, r);
            let second = trace(init, env);
            lemma_cost(init, env, t1, rates);
            let t2 = tallied(t1, second, rates);
            if let Ok(start) = eval(init, env) {
                let two = one.push((init.id, start));
                lemma_push_is_clear(one, cond.ids_below(), init.id, start);
                lemma_push_is_clear(one, step.ids_below(), init.id, start);
                lemma_push_is_clear(one, result.ids_below(), init.id, start);
                let third = trace_loop(node, env, items, 0, start);
                lemma_cost_of_loop(node, env, items, 0, start, t2, rates);
                let t3 = tallied(t2, third, rates);
                let loop_cost = cost_of_loop(node, env, items, 0, start, rates);
                if let Ok(accu) = eval_loop(node, env, items, 0, start) {
                    let inner = env.insert(node->accu_var, accu);
                    let fourth = trace(result, inner);
                    assert(rounds_on(two, t3.stack, cond.id, step.id));
                    assert(clear_of(t3.stack, result.ids_below())) by {
                        assert forall|i: int| 0 <= i < t3.stack.len() implies
                            !result.ids_below().contains((#[trigger] t3.stack[i]).0) by {
                            if i < two.len() {
                                assert(t3.stack[i] == t3.stack.take(two.len() as int)[i]);
                                assert(two[i] == t3.stack[i]);
                            }
                        }
                    }
                    lemma_cost(result, inner, t3, rates);
                    let t4 = tallied(t3, fourth, rates);
                    assert(whole =~= first + (second + (third + fourth)));
                    lemma_tallied_parts(tally, first, second + (third + fourth), rates);
                    lemma_tallied_parts(t1, second, third + fourth, rates);
                    lemma_tallied_parts(t2, third, fourth, rates);
                    let last_cost = cost_of(result, inner, rates);
                    lemma_saturated_twice(t2.cost as nat, loop_cost, last_cost);
                    lemma_saturated_twice(
                        t1.cost as nat,
                        cost_of(init, env, rates),
                        loop_cost + last_cost,
                    );
                    lemma_saturated_twice(
                        tally.cost as nat,
                        cost_of(range, env, rates),
                        cost_of(init, env, rates) + (loop_cost + last_cost),
                    );
                    if let Ok(v) = eval(result, inner) {
                        let all = t4.stack;
                        assert(all == t3.stack.push((result.id, v)));
                        assert(all.take(stack.len() as int) =~= t3.stack.take(
                            two.len() as int,
                        ).take(stack.len() as int));
                        assert(two.take(stack.len() as int) =~= stack);
                        assert(all[stack.len() as int] == t3.stack.take(
                            two.len() as int,
                        )[stack.len() as int]);
                        assert forall|j: int| stack.len() < j < all.len() implies (
                        #[trigger] all[j]).0 != range.id by {
                            if j < two.len() {
                                assert(all[j] == t3.stack.take(two.len() as int)[j]);
                            } else if j < t3.stack.len() {
                                assert(all[j] == t3.stack[j]);
                            }
                        }
                        lemma_drop_first(stack, all, range.id);
                        assert(seq![range.id].drop_last() =~= seq![]);
                        assert(all_dropped(all, seq![range.id]) == dropped(
                            all_dropped(all, seq![]),
                            range.id,
                        ));
                    }
                } else {
                    assert(whole =~= first + (second + third));
                    lemma_tallied_parts(tally, first, second + third, rates);
                    lemma_tallied_parts(t1, second, third, rates);
                    lemma_saturated_twice(t1.cost as nat, cost_of(init, env, rates), loop_cost);
                    lemma_saturated_twice(
                        tally.cost as nat,
                        cost_of(range, env, rates),
                        cost_of(init, env, rates) + loop_cost,
                    );
                }
            } else {
                assert(whole =~= first + second);
                lemma_tallied_parts(tally, first, second, rates);
                lemma_saturated_twice(
                    tally.cost as nat,
                    cost_of(range, env, rates),
                    cost_of(init, env, rates),
                );
            }
        } else {
            assert(whole =~= first);
        }
    } else {
        assert(whole =~= first);
    }
}

/// An event keeps the policy, and does not lower the cost.
proof fn lemma_event_keeps(before: Tally, event: Event, after: Tally)
    requires
        before.moves_to(event, after),
    ensures
        after.policy == before.policy,
        after.cost >= before.cost,
{
}

/// Under fixed rates, the tally after an event is determined.
proof fn lemma_event_is_determined(before: Tally, event: Event, after: Tally, rates: Rates)
    requires
        before.policy.goes_by(rates),
        before.moves_to(event, after),
    ensures
        after == before.observed(event.0, event.1, price_of(before, event, rates)),
{
    let price = choose|price: u64|
        #![trigger before.may_price(event.0, event.1, price)]
        before.may_price(event.0, event.1, price) && after == before.observed(
            event.0,
            event.1,
            price,
        );
    if let Some((func, args)) = before.call_to_price(event.0) {
        assert(before.policy.may_charge(func, args, event.1, price));
    }
}

/// Under fixed rates, the tally after some events is determined.
proof fn lemma_events_are_determined(
    before: Tally,
    events: Seq<Event>,
    after: Tally,
    rates: Rates,
)
    requires
        before.policy.goes_by(rates),
        passes::<CostTracker>(before, events, after),
    ensures
        after == tallied(before, events, rates),
        after.policy == before.policy,
    decreases events.len(),
{
    if events.len() > 0 {
        let between = choose|between: Tally|
            #![trigger CostTracker::accepts(between, events.last(), after)]
            passes::<CostTracker>(before, events.drop_last(), between) && CostTracker::accepts(
                between,
                events.last(),
                after,
            );
        lemma_events_are_determined(before, events.drop_last(), between, rates);
        lemma_event_is_determined(between, events.last(), after, rates);
    }
}

/// More events do not cost less.
proof fn lemma_tallied_grows(tally: Tally, events: Seq<Event>, n: int, rates: Rates)
    requires
        0 <= n <= events.len(),
    ensures
        tallied(tally, events.take(n), rates).cost <= tallied(tally, events, rates).cost,
        tallied(tally, events, rates).policy == tally.policy,
    decreases events.len(),
{
    if n == events.len() {
        assert(events.take(n) =~= events);
        if n > 0 {
            lemma_tallied_grows(tally, events.drop_last(), n - 1, rates);
        }
    } else {
        assert(events.drop_last().take(n) =~= events.take(n));
        lemma_tallied_grows(tally, events.drop_last(), n, rates);
    }
}

/// Returning no answer delegates to the standard model: a policy without
/// trackers and without an estimator, or whose trackers and estimator never
/// answer, charges the standard cost of every call.
pub proof fn law_no_answer_means_standard_cost(policy: Policy)
    requires
        forall|function: Seq<char>, args: Seq<Val>, result: Val, cost: u64|
            !(#[trigger] policy.overload_may_answer(function, args, result, Some(cost))),
        forall|function: Seq<char>, args: Seq<Val>, result: Val, cost: u64|
            !(#[trigger] policy.estimator_may_answer(function, args, result, Some(cost))),
    ensures
        policy.goes_by(
            Rates {
                presence_test_has_cost: policy.presence_test_has_cost,
                ..Rates::standard()
            },
        ),
{
}

/// Tracking goes on and on: no event lowers the cost or changes the policy.
pub proof fn law_cost_never_falls(before: Tally, events: Seq<Event>, after: Tally)
    requires
        passes::<CostTracker>(before, events, after),
    ensures
        after.cost >= before.cost,
        after.policy == before.policy,
        events.len() > 0 ==> !after.policy.exceeded(after.cost),
    decreases events.len(),
{
    if events.len() > 0 {
        let between = choose|between: Tally|
            #![trigger CostTracker::accepts(between, events.last(), after)]
            passes::<CostTracker>(before, events.drop_last(), between) && CostTracker::accepts(
                between,
                events.last(),
                after,
            );
        law_cost_never_falls(before, events.drop_last(), between);
        lemma_event_keeps(between, events.last(), after);
    }
}

/// Whatever trackers and estimators answer, an evaluation is cut off only over
/// the limit, and the error tells the limit and the cost so far.
pub proof fn law_cut_off_is_over_the_limit(
    before: Tally,
    events: Seq<Event>,
    fault: Fault,
    after: Tally,
)
    requires
        cut_off::<CostTracker>(before, events, fault, after),
    ensures
        after.policy == before.policy,
        after.cost >= before.cost,
        before.policy.limit matches Some(limit) && limit < after.cost && fault == (
        Fault::CostLimitExceeded { limit, actual: after.cost }),
{
    let (n, between) = choose|n: int, between: Tally|
        #![trigger CostTracker::refuses(between, events[n], fault, after)]
        0 <= n < events.len() && passes::<CostTracker>(before, events.take(n), between)
            && CostTracker::refuses(between, events[n], fault, after);
    law_cost_never_falls(before, events.take(n), between);
    lemma_event_keeps(between, events[n], after);
}

/// The tracker arrives at the cost of the expression: whatever values are on its
/// stack from before, an evaluation that it lets pass adds the cost of the
/// subexpressions that were evaluated and of the node itself, and leaves nothing
/// but the value of the expression behind.
pub proof fn law_tracked_cost_is_the_cost_of_the_expression(
    tree: Ast,
    env: Env,
    before: Tally,
    after: Tally,
    rates: Rates,
)
    requires
        tree.distinct_ids(),
        clear_of(before.stack, tree.ids_below()),
        before.policy.goes_by(rates),
        passes::<CostTracker>(before, trace(tree, env), after),
    ensures
        after.policy == before.policy,
        after.cost == saturated(before.cost as nat + cost_of(tree, env, rates)),
        eval(tree, env) matches Ok(v) ==> after.stack == before.stack.push((tree.id, v)),
        eval(tree, env) is Ok ==> !after.policy.exceeded(after.cost),
{
    lemma_events_are_determined(before, trace(tree, env), after, rates);
    lemma_cost(tree, env, before, rates);
    law_cost_never_falls(before, trace(tree, env), after);
}

/// The limit is enforced, and nothing else cuts an evaluation off: where the
/// tracker ends an evaluation, the cost of the expression is over the limit, and
/// the error tells the limit and the cost so far, which is over it too.
pub proof fn law_only_the_limit_cuts_off(
    tree: Ast,
    env: Env,
    before: Tally,
    fault: Fault,
    after: Tally,
    rates: Rates,
)
    requires
        tree.distinct_ids(),
        clear_of(before.stack, tree.ids_below()),
        before.policy.goes_by(rates),
        cut_off::<CostTracker>(before, trace(tree, env), fault, after),
    ensures
        after.policy == before.policy,
        before.policy.limit matches Some(limit) && fault == (Fault::CostLimitExceeded {
            limit,
            actual: after.cost,
        }) && limit < after.cost <= saturated(before.cost as nat + cost_of(tree, env, rates)),
{
    let events = trace(tree, env);
    let (n, between) = choose|n: int, between: Tally|
        #![trigger CostTracker::refuses(between, events[n], fault, after)]
        0 <= n < events.len() && passes::<CostTracker>(before, events.take(n), between)
            && CostTracker::refuses(between, events[n], fault, after);
    law_cost_never_falls(before, events.take(n), between);
    lemma_events_are_determined(before, events.take(n), between, rates);
    lemma_event_is_determined(between, events[n], after, rates);
    lemma_event_keeps(between, events[n], after);
    let upto = events.take(n + 1);
    assert(upto.drop_last() =~= events.take(n));
    assert(after == tallied(before, upto, rates));
    lemma_tallied_grows(before, events, n + 1, rates);
    lemma_cost(tree, env, before, rates);
}

/// An evaluation over the limit does not pass.
pub proof fn law_over_the_limit_does_not_pass(
    tree: Ast,
    env: Env,
    before: Tally,
    after: Tally,
    rates: Rates,
)
    requires
        tree.distinct_ids(),
        clear_of(before.stack, tree.ids_below()),
        before.policy.goes_by(rates),
        !before.policy.exceeded(before.cost),
        before.policy.exceeded(saturated(before.cost as nat + cost_of(tree, env, rates))),
    ensures
        !passes::<CostTracker>(before, trace(tree, env), after),
{
    if passes::<CostTracker>(before, trace(tree, env), after) {
        lemma_events_are_determined(before, trace(tree, env), after, rates);
        lemma_cost(tree, env, before, rates);
        law_cost_never_falls(before, trace(tree, env), after);
    }
}

/// Constants are free.
pub proof fn law_literals_are_free(tree: Ast, env: Env, rates: Rates)
    requires
        tree.node is Literal,
    ensures
        cost_of(tree, env, rates) == 0,
{
}

/// A variable costs one where it has a value.
pub proof fn law_variables_cost_one(tree: Ast, env: Env, rates: Rates)
    requires
        tree.node is Ident,
        eval(tree, env) is Ok,
    ensures
        cost_of(tree, env, rates) == 1,
{
}

/// A selection costs one more than its operand. A test for a field does only
/// where presence tests have a cost.
pub proof fn law_selections_cost_one(
    tree: Ast,
    operand: Ast,
    field: Seq<char>,
    test: bool,
    env: Env,
    rates: Rates,
)
    requires
        tree.node == (Node::Select { operand: Box::new(operand), field, test }),
        eval(tree, env) is Ok,
    ensures
        cost_of(tree, env, rates) == cost_of(operand, env, rates) + if !test
            || rates.presence_test_has_cost {
            1nat
        } else {
            0nat
        },
{
}

/// A list costs ten more than its elements, a map thirty more than its entries.
pub proof fn law_constructions_have_a_base_cost(tree: Ast, env: Env, rates: Rates)
    requires
        eval(tree, env) is Ok,
    ensures
        tree.node matches Node::List(elements) ==> cost_of(tree, env, rates) == cost_of_all(
            elements,
            env,
            rates,
        ) + 10,
        tree.node matches Node::Dict(entries) ==> cost_of(tree, env, rates) == cost_of_entries(
            entries,
            env,
            rates,
        ) + 30,
{
}

/// A conditional is free itself, and only the branch that is taken is charged.
pub proof fn law_only_the_taken_branch_is_charged(
    tree: Ast,
    test: Ast,
    yes: Ast,
    no: Ast,
    chosen: bool,
    env: Env,
    rates: Rates,
)
    requires
        tree.node == (Node::Call {
            func: operators::CONDITIONAL@,
            target: None,
            args: seq![test, yes, no],
        }),
        eval(test, env) == Ok::<Val, Fault>(Val::Bool(chosen)),
    ensures
        cost_of(tree, env, rates) == cost_of(test, env, rates) + if chosen {
            cost_of(yes, env, rates)
        } else {
            cost_of(no, env, rates)
        },
{
    let args = seq![test, yes, no];
    assert(args[0] == test && args[1] == yes && args[2] == no);
    assert(is_control_flow(operators::CONDITIONAL@));
}

/// The logical operators are not the conditional.
proof fn lemma_control_flow_names()
    ensures
        operators::LOGICAL_AND@ != operators::CONDITIONAL@,
        operators::LOGICAL_OR@ != operators::CONDITIONAL@,
        operators::LOGICAL_AND@ != operators::LOGICAL_OR@,
{
    reveal_strlit("_?_:_");
    reveal_strlit("_&&_");
    reveal_strlit("_||_");
    assert(operators::CONDITIONAL@.len() != operators::LOGICAL_AND@.len());
    assert(operators::LOGICAL_AND@[1] != operators::LOGICAL_OR@[1]);
}

/// A logical operator is free itself, and an operand that is not looked at is
/// not charged.
pub proof fn law_skipped_operands_are_free(
    tree: Ast,
    func: Seq<char>,
    left: Ast,
    right: Ast,
    value: bool,
    env: Env,
    rates: Rates,
)
    requires
        func == operators::LOGICAL_AND@ || func == operators::LOGICAL_OR@,
        tree.node == (Node::Call { func, target: None, args: seq![left, right] }),
        eval(left, env) == Ok::<Val, Fault>(Val::Bool(value)),
    ensures
        cost_of(tree, env, rates) == cost_of(left, env, rates) + if value == (func
            == operators::LOGICAL_OR@) {
            0
        } else {
            cost_of(right, env, rates)
        },
{
    lemma_control_flow_names();
    let args = seq![left, right];
    assert(args[0] == left && args[1] == right);
}

/// The cost of a single evaluation is added to what the tracker has counted
/// before: two evaluations of a program, one after the other, cost what each of
/// them costs by itself.
pub proof fn law_evaluations_add_up(
    tree: Ast,
    first: Env,
    second: Env,
    before: Tally,
    between: Tally,
    after: Tally,
    rates: Rates,
)
    requires
        tree.distinct_ids(),
        clear_of(before.stack, tree.ids_below()),
        before.policy.goes_by(rates),
        eval(tree, first) is Ok,
        passes::<CostTracker>(before, trace(tree, first), between),
        passes::<CostTracker>(between, trace(tree, second), after),
    ensures
        after.cost == saturated(
            before.cost as nat + cost_of(tree, first, rates) + cost_of(tree, second, rates),
        ),
{
    law_tracked_cost_is_the_cost_of_the_expression(tree, first, before, between, rates);
    assert(clear_of(between.stack, tree.ids_below()));
    law_tracked_cost_is_the_cost_of_the_expression(tree, second, between, after, rates);
}

/// The tracker of an overload is asked first: where it has an answer, neither
/// the estimator nor the standard model plays a part.
pub proof fn law_overload_answer_decides(
    policy: Policy,
    function: Seq<char>,
    args: Seq<Val>,
    result: Val,
    answer: u64,
    price: u64,
)
    requires
        forall|a: Option<u64>| #[trigger]
            policy.overload_may_answer(function, args, result, a) <==> a == Some(answer),
    ensures
        policy.may_charge(function, args, result, price) <==> price == answer,
{
}

/// Where the tracker of the overload has no answer, the estimator decides.
pub proof fn law_estimator_answer_decides(
    policy: Policy,
    function: Seq<char>,
    args: Seq<Val>,
    result: Val,
    answer: u64,
    price: u64,
)
    requires
        forall|a: Option<u64>| #[trigger]
            policy.overload_may_answer(function, args, result, a) <==> a is None,
        forall|a: Option<u64>| #[trigger]
            policy.estimator_may_answer(function, args, result, a) <==> a == Some(answer),
    ensures
        policy.may_charge(function, args, result, price) <==> price == answer,
{
    assert(policy.overload_may_answer(function, args, result, None));
}

} // verus!
