//! What the evaluation of expressions costs, and how it is counted.

use vstd::prelude::*;
use crate::accounting::{
    cost_of, cost_of_all, cost_of_entries, cost_of_entry, cost_of_loop, Rates,
};
use crate::ast::{Ast, Entry, EntryNode, Node};
use crate::context::Env;
use crate::cost::{
    all_present, call_arguments, dropped, last_position, pulled, root_ids, taken, Policy, Tally,
};
use crate::entries::key_of;
use crate::error::Fault;
use crate::eval::{eval, eval_all, eval_entries, eval_entry, eval_loop, round_env};
use crate::eval_laws::{
    chooses, is_call, is_method_call, law_calls_of_one_operand, law_calls_of_two_operands,
    law_methods_put_the_receiver_first, lemma_one_value, lemma_two_values,
};
use crate::function_laws::lemma_spellings;
use crate::pricing::standard_cost;
use crate::program::{run_cost, run_total};
use crate::value::{KeyVal, Val};

verus! {

proof fn lemma_cost_of_one(a: Ast, env: Env, rates: Rates)
    ensures
        cost_of_all(seq![a], env, rates) == cost_of(a, env, rates),
{
    assert(seq![a].drop_last() =~= seq![]);
    assert(cost_of_all(seq![], env, rates) == 0);
    assert(eval_all(seq![], env) == Ok::<Seq<Val>, Fault>(seq![]));
}

proof fn lemma_cost_of_two(a: Ast, b: Ast, env: Env, rates: Rates)
    ensures
        cost_of_all(seq![a, b], env, rates) == cost_of(a, env, rates) + if eval(a, env) is Ok {
            cost_of(b, env, rates)
        } else {
            0
        },
{
    lemma_cost_of_one(a, env, rates);
    lemma_one_value(a, env);
    assert(seq![a, b].drop_last() =~= seq![a]);
}

/// A call costs what its operands cost, and the price of the function on their
/// values. An operand after an error is not charged, and neither is the call.
pub proof fn law_calls_cost_their_operands_and_a_price(
    tree: Ast,
    func: Seq<char>,
    a: Ast,
    b: Ast,
    env: Env,
    rates: Rates,
)
    requires
        is_call(tree, func, seq![a, b]),
        !chooses(func),
    ensures
        ({
            let (cost, first, second) = (
                cost_of(tree, env, rates),
                cost_of(a, env, rates),
                cost_of(b, env, rates),
            );
            match (eval(a, env), eval(b, env)) {
                (Ok(x), Ok(y)) => match eval(tree, env) {
                    Ok(v) => cost == first + second + (rates.price)(func, seq![x, y], v),
                    Err(_) => cost == first + second,
                },
                (Ok(_), Err(_)) => cost == first + second,
                (Err(_), _) => cost == first,
            }
        }),
{
    lemma_spellings();
    lemma_two_values(a, b, env);
    lemma_cost_of_two(a, b, env, rates);
    law_calls_of_two_operands(tree, func, a, b, env);
}

/// The same of a function of one operand.
pub proof fn law_calls_of_one_cost_their_operand_and_a_price(
    tree: Ast,
    func: Seq<char>,
    a: Ast,
    env: Env,
    rates: Rates,
)
    requires
        is_call(tree, func, seq![a]),
        !chooses(func),
    ensures
        match (eval(a, env), eval(tree, env)) {
            (Ok(x), Ok(v)) => cost_of(tree, env, rates) == cost_of(a, env, rates) + (rates.price)(
                func,
                seq![x],
                v,
            ),
            _ => cost_of(tree, env, rates) == cost_of(a, env, rates),
        },
{
    lemma_spellings();
    lemma_one_value(a, env);
    lemma_cost_of_one(a, env, rates);
    law_calls_of_one_operand(tree, func, a, env);
}

/// A method is priced with its receiver as the first operand.
pub proof fn law_methods_cost_their_operands_and_a_price(
    tree: Ast,
    func: Seq<char>,
    target: Ast,
    a: Ast,
    env: Env,
    rates: Rates,
)
    requires
        is_method_call(tree, func, target, seq![a]),
        !chooses(func),
    ensures
        ({
            let (cost, own, other) = (
                cost_of(tree, env, rates),
                cost_of(target, env, rates),
                cost_of(a, env, rates),
            );
            match (eval(target, env), eval(a, env)) {
                (Ok(t), Ok(x)) => match eval(tree, env) {
                    Ok(v) => cost == own + other + (rates.price)(func, seq![t, x], v),
                    Err(_) => cost == own + other,
                },
                (Err(_), Ok(_)) => cost == own + other,
                (_, Err(_)) => cost == other,
            }
        }),
{
    lemma_spellings();
    lemma_one_value(a, env);
    lemma_cost_of_one(a, env, rates);
    law_methods_put_the_receiver_first(tree, func, target, a, env);
    if eval(a, env) is Ok && eval(target, env) is Ok {
        let (x, t) = (eval(a, env)->Ok_0, eval(target, env)->Ok_0);
        assert(seq![t] + seq![x] =~= seq![t, x]);
    }
}

/// Under the standard rates the price of a call is its standard cost, and
/// presence tests have a cost.
pub proof fn law_standard_rates(func: Seq<char>, args: Seq<Val>, result: Val)
    ensures
        (Rates::standard().price)(func, args, result) == standard_cost(func, args),
        Rates::standard().presence_test_has_cost,
{
}

/// An empty list costs ten, and every element adds its own cost.
pub proof fn law_every_element_of_a_list_is_charged(
    empty: Ast,
    list: Ast,
    longer: Ast,
    elements: Seq<Ast>,
    element: Ast,
    env: Env,
    rates: Rates,
)
    requires
        empty.node == Node::List(seq![]),
        list.node == Node::List(elements),
        longer.node == Node::List(elements.push(element)),
        eval(list, env) is Ok,
        eval(element, env) is Ok,
    ensures
        cost_of(empty, env, rates) == 10,
        cost_of(longer, env, rates) == cost_of(list, env, rates) + cost_of(element, env, rates),
{
    let more = elements.push(element);
    assert(more.drop_last() =~= elements);
    assert(more.last() == element);
    assert(eval_all(seq![], env) == Ok::<Seq<Val>, Fault>(seq![]));
    assert(cost_of_all(seq![], env, rates) == 0);
    assert(eval_all(elements, env) is Ok);
    assert(eval_all(more, env) is Ok);
    assert(cost_of_all(more, env, rates) == cost_of_all(elements, env, rates) + cost_of(
        element,
        env,
        rates,
    ));
}

/// An empty map costs thirty, and every entry adds the costs of its key and its
/// value.
pub proof fn law_every_entry_of_a_map_is_charged(
    empty: Ast,
    tree: Ast,
    longer: Ast,
    entries: Seq<Entry>,
    id: u64,
    key: Ast,
    value: Ast,
    env: Env,
    rates: Rates,
)
    requires
        empty.node == Node::Dict(seq![]),
        tree.node == Node::Dict(entries),
        longer.node == Node::Dict(
            entries.push(Entry { id, entry: EntryNode::MapEntry { key, value } }),
        ),
        eval(tree, env) is Ok,
        eval(longer, env) is Ok,
    ensures
        cost_of(empty, env, rates) == 30,
        cost_of(longer, env, rates) == cost_of(tree, env, rates) + cost_of(key, env, rates)
            + cost_of(value, env, rates),
{
    let last = Entry { id, entry: EntryNode::MapEntry { key, value } };
    let more = entries.push(last);
    assert(more.drop_last() =~= entries);
    assert(more.last() == last);
    assert(eval_entries(seq![], env) == Ok::<Seq<(KeyVal, Val)>, Fault>(seq![]));
    assert(cost_of_entries(seq![], env, rates) == 0);
    assert(eval_entries(more, env) is Ok);
    assert(eval_entry(last, env) is Ok);
    assert(eval(key, env) is Ok && key_of(eval(key, env)->Ok_0) is Some);
    assert(cost_of_entry(last, env, rates) == cost_of(key, env, rates) + cost_of(
        value,
        env,
        rates,
    ));
    assert(cost_of_entries(more, env, rates) == cost_of_entries(entries, env, rates)
        + cost_of_entry(last, env, rates));
}

proof fn lemma_later_rounds(
    node: Node,
    env: Env,
    item: Val,
    rest: Seq<Val>,
    k: nat,
    accu: Val,
    rates: Rates,
)
    ensures
        eval_loop(node, env, seq![item] + rest, k + 1, accu) == eval_loop(
            node,
            env,
            rest,
            k,
            accu,
        ),
        cost_of_loop(node, env, seq![item] + rest, k + 1, accu, rates) == cost_of_loop(
            node,
            env,
            rest,
            k,
            accu,
            rates,
        ),
    decreases rest.len() - k,
{
    if let Node::Comprehension { loop_step, .. } = node {
        if k < rest.len() {
            assert((seq![item] + rest)[(k + 1) as int] == rest[k as int]);
            let scope = round_env(node, env, accu, rest[k as int]);
            if let Ok(next) = eval(*loop_step, scope) {
                lemma_later_rounds(node, env, item, rest, k + 1, next, rates);
            }
        }
    }
}

/// A comprehension goes through the items one by one, from the first on: a round
/// looks at the condition, then takes the step, and the rest goes on with what
/// the step leaves. Each round costs what its condition and its step cost.
/// Without items, nothing happens.
pub proof fn law_comprehensions_go_round_by_round(
    node: Node,
    cond: Ast,
    step: Ast,
    env: Env,
    item: Val,
    rest: Seq<Val>,
    accu: Val,
    rates: Rates,
)
    requires
        node matches Node::Comprehension { loop_cond, loop_step, .. } && *loop_cond == cond
            && *loop_step == step,
    ensures
        ({
            let inside = env.insert(node->accu_var, accu).insert(node->iter_var, item);
            let all = seq![item] + rest;
            let (end, cost) = (
                eval_loop(node, env, all, 0, accu),
                cost_of_loop(node, env, all, 0, accu, rates),
            );
            match (eval(cond, inside), eval(step, inside)) {
                (Ok(Val::Bool(true)), Ok(next)) => {
                    &&& end == eval_loop(node, env, rest, 0, next)
                    &&& cost == cost_of(cond, inside, rates) + cost_of(step, inside, rates)
                        + cost_of_loop(node, env, rest, 0, next, rates)
                },
                (Ok(Val::Bool(true)), Err(f)) => {
                    &&& end == Err::<Val, Fault>(f)
                    &&& cost == cost_of(cond, inside, rates) + cost_of(step, inside, rates)
                },
                (Ok(Val::Bool(false)), _) => {
                    &&& end == Ok::<Val, Fault>(accu)
                    &&& cost == cost_of(cond, inside, rates)
                },
                (Ok(_), _) => {
                    &&& end == Err::<Val, Fault>(Fault::NoSuchOverload)
                    &&& cost == cost_of(cond, inside, rates)
                },
                (Err(f), _) => {
                    &&& end == Err::<Val, Fault>(f)
                    &&& cost == cost_of(cond, inside, rates)
                },
            }
        }),
        eval_loop(node, env, seq![], 0, accu) == Ok::<Val, Fault>(accu),
        cost_of_loop(node, env, seq![], 0, accu, rates) == 0,
{
    let all = seq![item] + rest;
    assert(all[0] == item);
    let inside = round_env(node, env, accu, item);
    if let Ok(next) = eval(step, inside) {
        lemma_later_rounds(node, env, item, rest, 0, next, rates);
    }
}

/// A comprehension that runs over a list costs what the list, the start, the
/// rounds and the result cost. It is free itself.
pub proof fn law_comprehensions_cost_their_parts(
    tree: Ast,
    range: Ast,
    init: Ast,
    result: Ast,
    items: Seq<Val>,
    start: Val,
    last: Val,
    env: Env,
    rates: Rates,
)
    requires
        tree.node matches Node::Comprehension { iter_range, accu_init, result: end, .. }
            && *iter_range == range && *accu_init == init && *end == result,
        eval(range, env) == Ok::<Val, Fault>(Val::List(items)),
        eval(init, env) == Ok::<Val, Fault>(start),
        eval_loop(tree.node, env, items, 0, start) == Ok::<Val, Fault>(last),
    ensures
        ({
            let after = env.insert(tree.node->accu_var, last);
            &&& eval(tree, env) == eval(result, after)
            &&& cost_of(tree, env, rates) == cost_of(range, env, rates) + cost_of(init, env, rates)
                + cost_of_loop(tree.node, env, items, 0, start, rates) + cost_of(
                result,
                after,
                rates,
            )
        }),
{
}

/// A cost up to the limit is within it, and one more is above it. Without a
/// limit no cost is too high.
pub proof fn law_limits_are_within_reach(policy: Policy, limit: u64, cost: u64)
    ensures
        policy.limit is None ==> !policy.exceeded(cost),
        policy.limit == Some(limit) ==> !policy.exceeded(limit),
        policy.limit == Some(limit) && limit < 0xffff_ffff_ffff_ffff ==> policy.exceeded(
            (limit + 1) as u64,
        ),
        policy.limit == Some(limit) && cost < limit ==> !policy.exceeded(cost),
        policy.exceeded(cost) ==> policy.exceeded(0xffff_ffff_ffff_ffff),
{
}

/// The policy of a new builder: no limit, no trackers, no estimator, and
/// presence tests have a cost.
pub proof fn law_new_policies_are_standard(
    function: Seq<char>,
    args: Seq<Val>,
    result: Val,
    cost: u64,
)
    ensures
        !Policy::standard().exceeded(cost),
        Policy::standard().presence_test_has_cost,
        Policy::standard().may_charge(function, args, result, cost) <==> cost == standard_cost(
            function,
            args,
        ),
{
    assert(Policy::standard().overload_may_answer(function, args, result, None));
    assert(Policy::standard().estimator_may_answer(function, args, result, None));
}

/// A run adds its cost to what was counted before, and at least one. The count
/// stops at the largest number.
pub proof fn law_runs_cost_at_least_one(tree: Ast, env: Env, rates: Rates, before: u64)
    ensures
        ({
            let (own, total) = (cost_of(tree, env, rates), run_total(tree, env, rates, before));
            &&& own > 0 && before + own <= 0xffff_ffff_ffff_ffff ==> total == before + own
            &&& own == 0 && before < 0xffff_ffff_ffff_ffff ==> total == before + 1
            &&& before + own > 0xffff_ffff_ffff_ffff ==> total == 0xffff_ffff_ffff_ffffu64
        }),
        before < 0xffff_ffff_ffff_ffff ==> run_cost(before, before) == before + 1,
        forall|after: u64|
            after != before ==> #[trigger] run_cost(before, after) == after,
{
}

/// What an observed node adds to the cost: constants, comprehensions and the
/// calls that steer the evaluation nothing, a variable and a selection one, a
/// list ten, a map thirty, a message forty, and any other call its price.
pub proof fn law_observations_add_to_the_cost(tally: Tally, tree: Ast, value: Val, price: u64)
    requires
        tally.cost <= 0xffff_ffff,
        price <= 0xffff_ffff,
    ensures
        ({
            let added = tally.observed(tree, value, price).cost - tally.cost;
            &&& tree.node is Literal || tree.node is Comprehension ==> added == 0
            &&& tree.node is Ident ==> added == 1
            &&& tree.node is List ==> added == 10
            &&& tree.node is Dict ==> added == 30
            &&& tree.node is Struct ==> added == 40
            &&& tree.node is Select ==> added == if tree.node->test
                && !tally.policy.presence_test_has_cost {
                0int
            } else {
                1int
            }
            &&& tree.node is Call ==> {
                let func = tree.node->func;
                let args = call_arguments(tally.stack, tree.node->target, tree.node->args).0;
                added == if chooses(func) || args is None {
                    0int
                } else {
                    price as int
                }
            }
        }),
        tally.observed(tree, value, price).policy == tally.policy,
        tally.observed(tree, value, price).stack.len() > 0,
        tally.observed(tree, value, price).stack.last() == (tree.id, value),
{
}

/// Some values, each under its identifier.
pub open spec fn labelled(ids: Seq<u64>, values: Seq<Val>) -> Seq<(u64, Val)> {
    Seq::new(ids.len(), |i: int| (ids[i], values[i]))
}

/// Of two values under one identifier, the later counts.
pub proof fn law_the_latest_value_counts(stack: Seq<(u64, Val)>, id: u64, other: u64, v: Val)
    ensures
        last_position(stack.push((id, v)), id) == stack.len(),
        other != id ==> last_position(stack.push((other, v)), id) == last_position(stack, id),
        last_position(stack, id) < stack.len(),
        last_position(seq![], id) < 0,
    decreases stack.len(),
{
    assert(stack.push((id, v)).drop_last() =~= stack);
    assert(stack.push((other, v)).drop_last() =~= stack);
    if stack.len() > 0 {
        law_the_latest_value_counts(stack.drop_last(), id, other, v);
    }
}

proof fn lemma_present(stack: Seq<(u64, Val)>, i: int)
    requires
        0 <= i < stack.len(),
    ensures
        last_position(stack, stack[i].0) >= i,
    decreases stack.len(),
{
    if stack.last().0 != stack[i].0 {
        assert(stack.drop_last()[i] == stack[i]);
        lemma_present(stack.drop_last(), i);
    }
}

proof fn lemma_pulled(stack: Seq<(u64, Val)>, ids: Seq<u64>, values: Seq<Val>)
    requires
        ids.len() == values.len(),
    ensures
        pulled(stack + labelled(ids, values), ids) == (Some(values), stack),
    decreases ids.len(),
{
    let all = stack + labelled(ids, values);
    if ids.len() == 0 {
        assert(all =~= stack);
        assert(values =~= seq![]);
    } else {
        let (fewer, before) = (ids.drop_last(), values.drop_last());
        assert(all.last() == (ids.last(), values.last()));
        let pos = all.len() - 1;
        assert(last_position(all, ids.last()) == pos);
        assert(all.take(pos) =~= stack + labelled(fewer, before));
        lemma_pulled(stack, fewer, before);
        assert(before.push(values.last()) =~= values);
    }
}

/// Values that were put on the stack in order come off it in order, and leave
/// what was there before. Where one of them is not there, all of them stay.
pub proof fn law_values_come_off_the_stack_in_order(
    stack: Seq<(u64, Val)>,
    ids: Seq<u64>,
    values: Seq<Val>,
    missing: int,
)
    requires
        ids.len() == values.len(),
    ensures
        taken(stack + labelled(ids, values), ids) == (Some(values), stack),
        0 <= missing < ids.len() && (forall|i: int|
            0 <= i < stack.len() ==> (#[trigger] stack[i]).0 != ids[missing]) ==> taken(stack, ids)
            == (None::<Seq<Val>>, stack),
{
    let all = stack + labelled(ids, values);
    assert forall|i: int| 0 <= i < ids.len() implies last_position(all, #[trigger] ids[i]) >= 0 by {
        assert(all[stack.len() + i].0 == ids[i]);
        lemma_present(all, stack.len() + i);
    }
    lemma_pulled(stack, ids, values);
    if 0 <= missing < ids.len() && (forall|i: int|
        0 <= i < stack.len() ==> (#[trigger] stack[i]).0 != ids[missing]) {
        lemma_absent(stack, ids[missing]);
        assert(!all_present(stack, ids));
    }
}

proof fn lemma_absent(stack: Seq<(u64, Val)>, id: u64)
    requires
        forall|i: int| 0 <= i < stack.len() ==> (#[trigger] stack[i]).0 != id,
    ensures
        last_position(stack, id) < 0,
    decreases stack.len(),
{
    if stack.len() > 0 {
        assert(stack[stack.len() - 1].0 != id);
        assert forall|i: int| 0 <= i < stack.drop_last().len() implies (
        #[trigger] stack.drop_last()[i]).0 != id by {
            assert(stack[i].0 != id);
        }
        lemma_absent(stack.drop_last(), id);
    }
}

/// The operands of a call come off the stack in order; the receiver was put there
/// last and comes first.
pub proof fn law_operands_come_off_the_stack(
    stack: Seq<(u64, Val)>,
    target: Ast,
    args: Seq<Ast>,
    receiver: Val,
    values: Seq<Val>,
)
    requires
        args.len() == values.len(),
    ensures
        call_arguments(stack + labelled(root_ids(args), values), None, args) == (
            Some(values),
            stack,
        ),
        call_arguments(
            stack + labelled(root_ids(args), values) + seq![(target.id, receiver)],
            Some(Box::new(target)),
            args,
        ) == (Some(seq![receiver] + values), stack),
{
    let ids = root_ids(args);
    law_values_come_off_the_stack_in_order(stack, ids, values, 0);
    let (more, all) = (ids.push(target.id), values.push(receiver));
    law_values_come_off_the_stack_in_order(stack, more, all, 0);
    assert(stack + labelled(ids, values) + seq![(target.id, receiver)] =~= stack + labelled(
        more,
        all,
    ));
    assert(all.drop_last() =~= values);
}

/// Where the receiver has no value on the stack, the operands are taken without
/// it.
pub proof fn law_a_receiver_may_be_missing(
    stack: Seq<(u64, Val)>,
    target: Ast,
    args: Seq<Ast>,
    values: Seq<Val>,
)
    requires
        args.len() == values.len(),
        forall|i: int| 0 <= i < stack.len() ==> (#[trigger] stack[i]).0 != target.id,
        forall|i: int| 0 <= i < args.len() ==> (#[trigger] args[i]).id != target.id,
    ensures
        call_arguments(
            stack + labelled(root_ids(args), values),
            Some(Box::new(target)),
            args,
        ) == (Some(values), stack),
{
    let ids = root_ids(args);
    let all = stack + labelled(ids, values);
    let more = ids.push(target.id);
    assert forall|i: int| 0 <= i < all.len() implies (#[trigger] all[i]).0 != target.id by {
        if i < stack.len() {
            assert(all[i] == stack[i]);
        } else {
            assert(args[i - stack.len()].id != target.id);
        }
    }
    assert(more[ids.len() as int] == target.id);
    law_values_come_off_the_stack_in_order(
        all,
        more,
        values.push(Val::Null),
        ids.len() as int,
    );
    law_values_come_off_the_stack_in_order(stack, ids, values, 0);
}

/// A value that is dropped goes with everything above it, and nothing below it.
/// Where there is none, everything stays.
pub proof fn law_values_are_dropped_with_what_is_above(
    stack: Seq<(u64, Val)>,
    id: u64,
    v: Val,
    above: Seq<(u64, Val)>,
)
    requires
        forall|i: int| 0 <= i < above.len() ==> (#[trigger] above[i]).0 != id,
    ensures
        dropped(stack.push((id, v)) + above, id) == stack,
        dropped(above, id) == above,
{
    lemma_absent(above, id);
    lemma_last_below(stack.push((id, v)), id, above);
    let all = stack.push((id, v)) + above;
    assert(all.take(stack.len() as int) =~= stack);
}

proof fn lemma_last_below(stack: Seq<(u64, Val)>, id: u64, above: Seq<(u64, Val)>)
    requires
        stack.len() > 0,
        stack.last().0 == id,
        forall|i: int| 0 <= i < above.len() ==> (#[trigger] above[i]).0 != id,
    ensures
        last_position(stack + above, id) == stack.len() - 1,
    decreases above.len(),
{
    let all = stack + above;
    if above.len() == 0 {
        assert(all =~= stack);
    } else {
        let fewer = above.drop_last();
        assert(above[above.len() - 1].0 != id);
        assert(all.drop_last() =~= stack + fewer);
        assert forall|i: int| 0 <= i < fewer.len() implies (#[trigger] fewer[i]).0 != id by {
            assert(above[i].0 != id);
        }
        lemma_last_below(stack, id, fewer);
    }
}

} // verus!
