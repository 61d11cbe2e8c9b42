//! What the calls that run over a list or a map evaluate to.
//!
//! The laws speak of the truth values and values that the argument of such a
//! call takes for the items that it runs over, and of the result.

use vstd::prelude::*;
use crate::ast::{Ast, Lit, Node};
use crate::context::Env;
use crate::error::Fault;
use crate::eval::{eval, eval_all, eval_loop, range_items, round_env};
use crate::eval_laws::{
    chooses, law_calls_of_one_operand, law_calls_of_two_operands, law_conditionals_choose,
    law_logic_is_that_of_truth_values, law_logic_looks_left_first, lemma_one_value,
};
use crate::function_laws::{
    applied, law_integer_arithmetic_is_exact, law_integers_are_ordered_by_value, law_not,
    law_sums_join_sequences, lemma_spellings,
};
use crate::lexer::{Mistake, ParseErrorKind};
use crate::macros::{
    accumulator, appended, call_node, expand, filter_fold, fold_node, is_fold, literal_node,
    numbered_node,
};
use crate::operators;
use crate::value::{KeyVal, Val};

verus! {

/// The items are the elements of the list, or the keys of the map, in order.
pub open spec fn runs_over(range: Val, items: Seq<Val>) -> bool {
    match range {
        Val::List(elements) => items == elements,
        Val::Dict(entries) => items.len() == entries.len() && forall|i: int|
            0 <= i < items.len() ==> #[trigger] items[i] == match entries[i].0 {
                KeyVal::Int(x) => Val::Int(x),
                KeyVal::UInt(x) => Val::UInt(x),
                KeyVal::Bool(x) => Val::Bool(x),
                KeyVal::Text(x) => Val::Text(x),
            },
        _ => false,
    }
}

/// The variables that an argument sees: those of the call, the item under the
/// name `var`, and a hidden one.
pub open spec fn scope(env: Env, hidden: Val, var: Seq<char>, item: Val) -> Env {
    env.insert("@result"@, hidden).insert(var, item)
}

/// For the item, the argument evaluates to `v`.
pub open spec fn gives(arg: Ast, env: Env, var: Seq<char>, item: Val, v: Val) -> bool {
    forall|hidden: Val|
        eval(arg, #[trigger] scope(env, hidden, var, item)) == Ok::<Val, Fault>(v)
}

/// For the item, the argument is the error `f`.
pub open spec fn fails(arg: Ast, env: Env, var: Seq<char>, item: Val, f: Fault) -> bool {
    forall|hidden: Val|
        eval(arg, #[trigger] scope(env, hidden, var, item)) == Err::<Val, Fault>(f)
}

/// What a call `range.func(var, ..)` evaluates to, after it has been expanded.
pub open spec fn folded(
    func: Seq<char>,
    range: Ast,
    args: Seq<Ast>,
    n: nat,
    env: Env,
) -> Result<Val, Fault>
    recommends
        expand(func, Some(range), args, n, 0) is Ok,
{
    eval(expand(func, Some(range), args, n, 0)->Ok_0.0, env)
}

/// A variable for the items of what the range evaluates to.
pub open spec fn is_loop(range: Ast, env: Env, items: Seq<Val>, name: Ast, var: Seq<char>) -> bool {
    &&& eval(range, env) matches Ok(r) && runs_over(r, items)
    &&& name.node == Node::Ident(var)
    &&& var != "@result"@
}

/// How the names of the calls are spelled, as far as it keeps them apart.
proof fn lemma_fold_names()
    ensures
        "has"@.len() == 3 && "has"@[0] == 'h',
        "all"@.len() == 3 && "all"@[0] == 'a',
        "map"@.len() == 3 && "map"@[0] == 'm',
        "exists"@.len() == 6 && "exists"@[0] == 'e',
        "filter"@.len() == 6 && "filter"@[0] == 'f',
        "exists_one"@.len() == 10,
{
    reveal_strlit("has");
    reveal_strlit("all");
    reveal_strlit("map");
    reveal_strlit("exists");
    reveal_strlit("filter");
    reveal_strlit("exists_one");
}

/// The rounds of a comprehension up to item `k`, in which the accumulator takes
/// the values `accus`.
proof fn lemma_rounds(node: Node, env: Env, items: Seq<Val>, accus: Seq<Val>, k: nat)
    requires
        node matches Node::Comprehension { loop_cond, loop_step, .. } && forall|i: int|
            0 <= i < k ==> {
                let env = round_env(node, env, #[trigger] accus[i], items[i]);
                &&& eval(*loop_cond, env) == Ok::<Val, Fault>(Val::Bool(true))
                &&& eval(*loop_step, env) == Ok::<Val, Fault>(accus[i + 1])
            },
        k <= items.len(),
        k < accus.len(),
    ensures
        eval_loop(node, env, items, 0, accus[0]) == eval_loop(node, env, items, k, accus[k as int]),
    decreases k,
{
    if k > 0 {
        let j = (k - 1) as nat;
        lemma_rounds(node, env, items, accus, j);
        assert(accus[j as int] == accus[k - 1]);
        assert(eval_loop(node, env, items, j, accus[j as int]) == eval_loop(
            node,
            env,
            items,
            k,
            accus[k as int],
        ));
    }
}

/// The round with this accumulator and item goes on, and leaves `next`.
spec fn goes_on(
    cond: Ast,
    step: Ast,
    env: Env,
    var: Seq<char>,
    accu: Val,
    item: Val,
    next: Result<Val, Fault>,
) -> bool {
    &&& eval(cond, scope(env, accu, var, item)) == Ok::<Val, Fault>(Val::Bool(true))
    &&& eval(step, scope(env, accu, var, item)) == next
}

/// A comprehension whose accumulator takes the values `accus`, and then either
/// has come to the end or stops, or is an error.
proof fn lemma_fold(
    id: nat,
    range: Ast,
    var: Seq<char>,
    init: Ast,
    cond: Ast,
    step: Ast,
    result: Ast,
    env: Env,
    items: Seq<Val>,
    accus: Seq<Val>,
    f: Fault,
)
    requires
        eval(range, env) matches Ok(r) && runs_over(r, items),
        0 < accus.len() <= items.len() + 1,
        eval(init, env) == Ok::<Val, Fault>(accus[0]),
        forall|i: int|
            0 <= i < accus.len() - 1 ==> goes_on(
                cond,
                step,
                env,
                var,
                #[trigger] accus[i],
                items[i],
                Ok(accus[i + 1]),
            ),
    ensures
        ({
            let value = eval(fold_node(id, range, var, init, cond, step, result), env);
            let k = accus.len() - 1;
            &&& k == items.len() || eval(cond, scope(env, accus[k], var, items[k])) == Ok::<
                Val,
                Fault,
            >(Val::Bool(false)) ==> value == eval(result, env.insert("@result"@, accus[k]))
            &&& k < items.len() && goes_on(cond, step, env, var, accus[k], items[k], Err(f))
                ==> value == Err::<Val, Fault>(f)
        }),
{
    let node = fold_node(id, range, var, init, cond, step, result).node;
    let k = (accus.len() - 1) as nat;
    let r = eval(range, env)->Ok_0;
    if let Val::Dict(entries) = r {
        assert(range_items(r)->0 =~= items);
    }
    assert forall|i: int| 0 <= i < k implies {
        let env = round_env(node, env, #[trigger] accus[i], items[i]);
        &&& eval(cond, env) == Ok::<Val, Fault>(Val::Bool(true))
        &&& eval(step, env) == Ok::<Val, Fault>(accus[i + 1])
    } by {
        assert(goes_on(cond, step, env, var, accus[i], items[i], Ok(accus[i + 1])));
    }
    lemma_rounds(node, env, items, accus, k);
    assert(round_env(node, env, accus[k as int], items[k as int]) == scope(
        env,
        accus[k as int],
        var,
        items[k as int],
    ));
}

/// A mention of the accumulator is its value.
proof fn lemma_accumulator(env: Env, accu: Val, var: Seq<char>, item: Val, id: nat)
    requires
        var != "@result"@,
    ensures
        eval(accumulator(id), scope(env, accu, var, item)) == Ok::<Val, Fault>(accu),
        eval(accumulator(id), env.insert("@result"@, accu)) == Ok::<Val, Fault>(accu),
{
}

/// The outcome is a truth value or an error.
spec fn is_answer(r: Result<Val, Fault>) -> bool {
    match r {
        Ok(v) => v is Bool,
        Err(_) => true,
    }
}

/// A round of `all`.
proof fn lemma_all_round(test: Ast, n: nat, env: Env, b: bool)
    requires
        eval(accumulator(n), env) == Ok::<Val, Fault>(Val::Bool(b)),
        eval(accumulator(n + 3), env) == Ok::<Val, Fault>(Val::Bool(b)),
    ensures
        ({
            let cond = call_node(n + 4, operators::NOT_STRICTLY_FALSE@, seq![accumulator(n + 3)]);
            let step = call_node(n + 1, operators::LOGICAL_AND@, seq![accumulator(n), test]);
            &&& eval(cond, env) == Ok::<Val, Fault>(Val::Bool(b))
            &&& b && is_answer(eval(test, env)) ==> eval(step, env) == eval(test, env)
        }),
{
    let cond = call_node(n + 4, "@not_strictly_false"@, seq![accumulator(n + 3)]);
    let step = call_node(n + 1, "_&&_"@, seq![accumulator(n), test]);
    let other = call_node(n + 1, "_||_"@, seq![accumulator(n), test]);
    assert(!chooses("@not_strictly_false"@)) by {
        lemma_spellings();
    }
    law_calls_of_one_operand(cond, "@not_strictly_false"@, accumulator(n + 3), env);
    law_not(Val::Bool(b));
    law_logic_looks_left_first(step, other, accumulator(n), test, env);
    if let Ok(Val::Bool(c)) = eval(test, env) {
        law_logic_is_that_of_truth_values(step, other, accumulator(n), test, b, c, env);
    }
}

/// A round of `exists`.
proof fn lemma_exists_round(test: Ast, n: nat, env: Env, b: bool)
    requires
        eval(accumulator(n), env) == Ok::<Val, Fault>(Val::Bool(b)),
        eval(accumulator(n + 3), env) == Ok::<Val, Fault>(Val::Bool(b)),
    ensures
        ({
            let none_yet = call_node(n + 4, operators::LOGICAL_NOT@, seq![accumulator(n + 3)]);
            let cond = call_node(n + 5, operators::NOT_STRICTLY_FALSE@, seq![none_yet]);
            let step = call_node(n + 1, operators::LOGICAL_OR@, seq![accumulator(n), test]);
            &&& eval(cond, env) == Ok::<Val, Fault>(Val::Bool(!b))
            &&& !b && is_answer(eval(test, env)) ==> eval(step, env) == eval(test, env)
        }),
{
    let none_yet = call_node(n + 4, "!_"@, seq![accumulator(n + 3)]);
    let cond = call_node(n + 5, "@not_strictly_false"@, seq![none_yet]);
    let step = call_node(n + 1, "_||_"@, seq![accumulator(n), test]);
    let other = call_node(n + 1, "_&&_"@, seq![accumulator(n), test]);
    assert(!chooses("@not_strictly_false"@) && !chooses("!_"@)) by {
        lemma_spellings();
    }
    law_calls_of_one_operand(none_yet, "!_"@, accumulator(n + 3), env);
    law_not(Val::Bool(b));
    law_calls_of_one_operand(cond, "@not_strictly_false"@, none_yet, env);
    law_not(Val::Bool(!b));
    law_logic_looks_left_first(other, step, accumulator(n), test, env);
    if let Ok(Val::Bool(c)) = eval(test, env) {
        law_logic_is_that_of_truth_values(other, step, accumulator(n), test, b, c, env);
    }
}

/// A round of `exists_one`.
proof fn lemma_exists_one_round(test: Ast, n: nat, env: Env, so_far: int)
    requires
        eval(accumulator(n), env) == Ok::<Val, Fault>(Val::Int(so_far as i64)),
        eval(accumulator(n + 3), env) == Ok::<Val, Fault>(Val::Int(so_far as i64)),
        0 <= so_far < 0x7fff_ffff_ffff_ffff,
    ensures
        ({
            let one = literal_node(n + 1, Lit::Int(1));
            let counted = call_node(n + 2, operators::ADD@, seq![accumulator(n), one]);
            let step = call_node(
                n + 4,
                operators::CONDITIONAL@,
                seq![test, counted, accumulator(n + 3)],
            );
            &&& eval(test, env) is Err ==> eval(step, env) == eval(test, env)
            &&& eval(test, env) == Ok::<Val, Fault>(Val::Bool(true)) ==> eval(step, env) == Ok::<
                Val,
                Fault,
            >(Val::Int((so_far + 1) as i64))
            &&& eval(test, env) == Ok::<Val, Fault>(Val::Bool(false)) ==> eval(step, env) == Ok::<
                Val,
                Fault,
            >(Val::Int(so_far as i64))
        }),
{
    let one = literal_node(n + 1, Lit::Int(1));
    let counted = call_node(n + 2, "_+_"@, seq![accumulator(n), one]);
    let step = call_node(n + 4, "_?_:_"@, seq![test, counted, accumulator(n + 3)]);
    assert(!chooses("_+_"@)) by {
        lemma_spellings();
    }
    law_conditionals_choose(step, test, counted, accumulator(n + 3), env);
    law_calls_of_two_operands(counted, "_+_"@, accumulator(n), one, env);
    law_integer_arithmetic_is_exact(Val::Int(so_far as i64), Val::Int(1), so_far, 1, true);
}

/// The result of `exists_one`.
proof fn lemma_exists_one_result(n: nat, env: Env, counted: int)
    requires
        eval(accumulator(n + 7), env) == Ok::<Val, Fault>(Val::Int(counted as i64)),
        0 <= counted <= 0x7fff_ffff_ffff_ffff,
    ensures
        eval(
            call_node(
                n + 9,
                operators::EQUALS@,
                seq![accumulator(n + 7), literal_node(n + 8, Lit::Int(1))],
            ),
            env,
        ) == Ok::<Val, Fault>(Val::Bool(counted == 1)),
{
    let one = literal_node(n + 8, Lit::Int(1));
    let result = call_node(n + 9, "_==_"@, seq![accumulator(n + 7), one]);
    assert(!chooses("_==_"@)) by {
        lemma_spellings();
    }
    law_calls_of_two_operands(result, "_==_"@, accumulator(n + 7), one, env);
    law_integers_are_ordered_by_value(Val::Int(counted as i64), Val::Int(1), counted, 1);
}

/// A list of one element.
proof fn lemma_list_of_one(list: Ast, element: Ast, env: Env)
    requires
        list.node == Node::List(seq![element]),
    ensures
        eval(list, env) == match eval(element, env) {
            Ok(v) => Ok::<Val, Fault>(Val::List(seq![v])),
            Err(f) => Err(f),
        },
{
    lemma_one_value(element, env);
}

/// An empty list.
proof fn lemma_empty_list(id: nat, env: Env)
    ensures
        eval(numbered_node(id, Node::List(seq![])), env) == Ok::<Val, Fault>(Val::List(seq![])),
{
    assert(eval_all(seq![], env) == Ok::<Seq<Val>, Fault>(seq![]));
}

/// One more element after the accumulator.
proof fn lemma_appended(element: Ast, n: nat, env: Env, so_far: Seq<Val>)
    requires
        eval(accumulator(n + 1), env) == Ok::<Val, Fault>(Val::List(so_far)),
    ensures
        eval(appended(element, n), env) == match eval(element, env) {
            Ok(v) => Ok::<Val, Fault>(Val::List(so_far.push(v))),
            Err(f) => Err(f),
        },
{
    let list = numbered_node(n, Node::List(seq![element]));
    assert(!chooses("_+_"@)) by {
        lemma_spellings();
    }
    law_calls_of_two_operands(appended(element, n), "_+_"@, accumulator(n + 1), list, env);
    lemma_list_of_one(list, element, env);
    if let Ok(v) = eval(element, env) {
        let (k, last) = (so_far.len() as int, seq![v]);
        law_sums_join_sequences(seq![], seq![], seq![], seq![], so_far, last);
        let sum = applied("_+_"@, Val::List(so_far), Val::List(last))->Ok_0->List_0;
        assert forall|i: int| 0 <= i < sum.len() implies sum[i] == so_far.push(v)[i] by {
            if i < k {
                assert(sum.take(k)[i] == sum[i]);
            } else {
                assert(sum.skip(k)[0] == sum[i]);
            }
        }
        assert(sum =~= so_far.push(v));
    }
}

/// A round of a comprehension that keeps some elements.
proof fn lemma_filter_round(test: Ast, element: Ast, m: nat, env: Env, so_far: Seq<Val>)
    requires
        eval(accumulator(m + 1), env) == Ok::<Val, Fault>(Val::List(so_far)),
        eval(accumulator(m + 3), env) == Ok::<Val, Fault>(Val::List(so_far)),
    ensures
        ({
            let step = call_node(
                m + 4,
                operators::CONDITIONAL@,
                seq![test, appended(element, m), accumulator(m + 3)],
            );
            &&& eval(test, env) is Err ==> eval(step, env) == eval(test, env)
            &&& eval(test, env) == Ok::<Val, Fault>(Val::Bool(false)) ==> eval(step, env) == Ok::<
                Val,
                Fault,
            >(Val::List(so_far))
            &&& eval(test, env) == Ok::<Val, Fault>(Val::Bool(true)) ==> eval(step, env)
                == match eval(element, env) {
                Ok(v) => Ok::<Val, Fault>(Val::List(so_far.push(v))),
                Err(f) => Err(f),
            }
        }),
{
    let more = appended(element, m);
    let step = call_node(m + 4, "_?_:_"@, seq![test, more, accumulator(m + 3)]);
    law_conditionals_choose(step, test, more, accumulator(m + 3), env);
    lemma_appended(element, m, env, so_far);
}

/// `all` holds where its argument holds for every item. It looks at the items in
/// order, and the first for which the argument is false or an error decides.
pub proof fn law_all(
    range: Ast,
    name: Ast,
    var: Seq<char>,
    test: Ast,
    n: nat,
    env: Env,
    items: Seq<Val>,
    k: int,
    f: Fault,
)
    requires
        is_loop(range, env, items, name, var),
        0 <= k <= items.len(),
        forall|i: int|
            0 <= i < k ==> gives(test, env, var, #[trigger] items[i], Val::Bool(true)),
    ensures
        expand("all"@, Some(range), seq![name, test], n, 0) is Ok,
        ({
            let result = folded("all"@, range, seq![name, test], n, env);
            &&& k == items.len() ==> result == Ok::<Val, Fault>(Val::Bool(true))
            &&& k < items.len() && gives(test, env, var, items[k], Val::Bool(false)) ==> result
                == Ok::<Val, Fault>(Val::Bool(false))
            &&& k < items.len() && fails(test, env, var, items[k], f) ==> result == Err::<
                Val,
                Fault,
            >(f)
        }),
{
    lemma_fold_names();
    let args = seq![name, test];
    assert(args[0] == name && args[1] == test);
    let step = call_node(n + 1, operators::LOGICAL_AND@, seq![accumulator(n), test]);
    let init = literal_node(n + 2, Lit::Bool(true));
    let cond = call_node(n + 4, operators::NOT_STRICTLY_FALSE@, seq![accumulator(n + 3)]);
    let result = accumulator(n + 5);
    let (yes, no) = (Val::Bool(true), Val::Bool(false));
    assert forall|i: int, b: bool| 0 <= i < items.len() implies {
        let env = #[trigger] scope(env, Val::Bool(b), var, items[i]);
        &&& eval(cond, env) == Ok::<Val, Fault>(Val::Bool(b))
        &&& b && is_answer(eval(test, env)) ==> eval(step, env) == eval(test, env)
    } by {
        lemma_accumulator(env, Val::Bool(b), var, items[i], n);
        lemma_accumulator(env, Val::Bool(b), var, items[i], n + 3);
        lemma_all_round(test, n, scope(env, Val::Bool(b), var, items[i]), b);
    }
    let accus = Seq::new((k + 1) as nat, |i: int| yes);
    assert forall|i: int| 0 <= i < k implies goes_on(
        cond,
        step,
        env,
        var,
        #[trigger] accus[i],
        items[i],
        Ok(accus[i + 1]),
    ) by {
        assert(gives(test, env, var, items[i], yes));
        assert(eval(test, scope(env, yes, var, items[i])) == Ok::<Val, Fault>(yes));
    }
    lemma_fold(n + 6, range, var, init, cond, step, result, env, items, accus, f);
    if k == items.len() {
        lemma_accumulator(env, yes, var, yes, n + 5);
    } else if gives(test, env, var, items[k], no) {
        let more = accus.push(no);
        assert(eval(test, scope(env, yes, var, items[k])) == Ok::<Val, Fault>(no));
        assert forall|i: int| 0 <= i < k + 1 implies goes_on(
            cond,
            step,
            env,
            var,
            #[trigger] more[i],
            items[i],
            Ok(more[i + 1]),
        ) by {
            if i < k {
                assert(more[i] == accus[i] && more[i + 1] == accus[i + 1]);
            }
        }
        lemma_fold(n + 6, range, var, init, cond, step, result, env, items, more, f);
        if k + 1 < items.len() {
            assert(eval(cond, scope(env, no, var, items[k + 1])) == Ok::<Val, Fault>(no));
        }
        lemma_accumulator(env, no, var, no, n + 5);
    } else if fails(test, env, var, items[k], f) {
        assert(eval(test, scope(env, yes, var, items[k])) == Err::<Val, Fault>(f));
    }
}

/// `exists` holds where its argument holds for an item. It looks at the items in
/// order, and the first for which the argument is true or an error decides.
pub proof fn law_exists(
    range: Ast,
    name: Ast,
    var: Seq<char>,
    test: Ast,
    n: nat,
    env: Env,
    items: Seq<Val>,
    k: int,
    f: Fault,
)
    requires
        is_loop(range, env, items, name, var),
        0 <= k <= items.len(),
        forall|i: int|
            0 <= i < k ==> gives(test, env, var, #[trigger] items[i], Val::Bool(false)),
    ensures
        expand("exists"@, Some(range), seq![name, test], n, 0) is Ok,
        ({
            let result = folded("exists"@, range, seq![name, test], n, env);
            &&& k == items.len() ==> result == Ok::<Val, Fault>(Val::Bool(false))
            &&& k < items.len() && gives(test, env, var, items[k], Val::Bool(true)) ==> result
                == Ok::<Val, Fault>(Val::Bool(true))
            &&& k < items.len() && fails(test, env, var, items[k], f) ==> result == Err::<
                Val,
                Fault,
            >(f)
        }),
{
    lemma_fold_names();
    let args = seq![name, test];
    assert(args[0] == name && args[1] == test);
    let step = call_node(n + 1, operators::LOGICAL_OR@, seq![accumulator(n), test]);
    let init = literal_node(n + 2, Lit::Bool(false));
    let none_yet = call_node(n + 4, operators::LOGICAL_NOT@, seq![accumulator(n + 3)]);
    let cond = call_node(n + 5, operators::NOT_STRICTLY_FALSE@, seq![none_yet]);
    let result = accumulator(n + 6);
    let (yes, no) = (Val::Bool(true), Val::Bool(false));
    assert forall|i: int, b: bool| 0 <= i < items.len() implies {
        let env = #[trigger] scope(env, Val::Bool(b), var, items[i]);
        &&& eval(cond, env) == Ok::<Val, Fault>(Val::Bool(!b))
        &&& !b && is_answer(eval(test, env)) ==> eval(step, env) == eval(test, env)
    } by {
        lemma_accumulator(env, Val::Bool(b), var, items[i], n);
        lemma_accumulator(env, Val::Bool(b), var, items[i], n + 3);
        lemma_exists_round(test, n, scope(env, Val::Bool(b), var, items[i]), b);
    }
    let accus = Seq::new((k + 1) as nat, |i: int| no);
    assert forall|i: int| 0 <= i < k implies goes_on(
        cond,
        step,
        env,
        var,
        #[trigger] accus[i],
        items[i],
        Ok(accus[i + 1]),
    ) by {
        assert(gives(test, env, var, items[i], no));
        assert(eval(test, scope(env, no, var, items[i])) == Ok::<Val, Fault>(no));
    }
    lemma_fold(n + 7, range, var, init, cond, step, result, env, items, accus, f);
    if k == items.len() {
        lemma_accumulator(env, no, var, no, n + 6);
    } else if gives(test, env, var, items[k], yes) {
        let more = accus.push(yes);
        assert(eval(test, scope(env, no, var, items[k])) == Ok::<Val, Fault>(yes));
        assert forall|i: int| 0 <= i < k + 1 implies goes_on(
            cond,
            step,
            env,
            var,
            #[trigger] more[i],
            items[i],
            Ok(more[i + 1]),
        ) by {
            if i < k {
                assert(more[i] == accus[i] && more[i + 1] == accus[i + 1]);
            }
        }
        lemma_fold(n + 7, range, var, init, cond, step, result, env, items, more, f);
        if k + 1 < items.len() {
            assert(eval(cond, scope(env, yes, var, items[k + 1])) == Ok::<Val, Fault>(no));
        }
        lemma_accumulator(env, yes, var, yes, n + 6);
    } else if fails(test, env, var, items[k], f) {
        assert(eval(test, scope(env, no, var, items[k])) == Err::<Val, Fault>(f));
    }
}

/// How many of the truth values are true.
pub open spec fn count(holds: Seq<bool>) -> int
    decreases holds.len(),
{
    if holds.len() == 0 {
        0
    } else if holds.last() {
        count(holds.drop_last()) + 1
    } else {
        count(holds.drop_last())
    }
}

proof fn lemma_count(holds: Seq<bool>)
    ensures
        0 <= count(holds) <= holds.len(),
    decreases holds.len(),
{
    if holds.len() > 0 {
        lemma_count(holds.drop_last());
    }
}

/// `exists_one` holds where its argument holds for exactly one item. It looks at
/// every item, so an error of the argument for any of them is an error.
pub proof fn law_exists_one(
    range: Ast,
    name: Ast,
    var: Seq<char>,
    test: Ast,
    n: nat,
    env: Env,
    items: Seq<Val>,
    holds: Seq<bool>,
    f: Fault,
)
    requires
        is_loop(range, env, items, name, var),
        holds.len() <= items.len() <= 0x7fff_ffff_ffff_ffff,
        forall|i: int|
            0 <= i < holds.len() ==> gives(
                test,
                env,
                var,
                #[trigger] items[i],
                Val::Bool(holds[i]),
            ),
    ensures
        expand("exists_one"@, Some(range), seq![name, test], n, 0) is Ok,
        ({
            let result = folded("exists_one"@, range, seq![name, test], n, env);
            let k = holds.len() as int;
            &&& k == items.len() ==> result == Ok::<Val, Fault>(Val::Bool(count(holds) == 1))
            &&& k < items.len() && fails(test, env, var, items[k], f) ==> result == Err::<
                Val,
                Fault,
            >(f)
        }),
{
    lemma_fold_names();
    let args = seq![name, test];
    assert(args[0] == name && args[1] == test);
    let one = literal_node(n + 1, Lit::Int(1));
    let counted = call_node(n + 2, operators::ADD@, seq![accumulator(n), one]);
    let step = call_node(n + 4, operators::CONDITIONAL@, seq![test, counted, accumulator(n + 3)]);
    let init = literal_node(n + 5, Lit::Int(0));
    let cond = literal_node(n + 6, Lit::Bool(true));
    let result = call_node(
        n + 9,
        operators::EQUALS@,
        seq![accumulator(n + 7), literal_node(n + 8, Lit::Int(1))],
    );
    let k = holds.len() as int;
    let accus = Seq::new((k + 1) as nat, |i: int| Val::Int(count(holds.take(i)) as i64));
    assert forall|i: int| 0 <= i <= k && i < items.len() implies {
        let env = #[trigger] scope(env, accus[i], var, items[i]);
        &&& eval(cond, env) == Ok::<Val, Fault>(Val::Bool(true))
        &&& eval(test, env) is Err ==> eval(step, env) == eval(test, env)
        &&& i < k && eval(test, env) == Ok::<Val, Fault>(Val::Bool(holds[i])) ==> eval(step, env)
            == Ok::<Val, Fault>(accus[i + 1])
    } by {
        lemma_count(holds.take(i));
        if i < k {
            assert(holds.take(i + 1).drop_last() =~= holds.take(i));
            assert(holds.take(i + 1).last() == holds[i]);
        }
        lemma_accumulator(env, accus[i], var, items[i], n);
        lemma_accumulator(env, accus[i], var, items[i], n + 3);
        lemma_exists_one_round(
            test,
            n,
            scope(env, accus[i], var, items[i]),
            count(holds.take(i)),
        );
    }
    assert forall|i: int| 0 <= i < k implies goes_on(
        cond,
        step,
        env,
        var,
        #[trigger] accus[i],
        items[i],
        Ok(accus[i + 1]),
    ) by {
        assert(gives(test, env, var, items[i], Val::Bool(holds[i])));
        assert(eval(test, scope(env, accus[i], var, items[i])) == Ok::<Val, Fault>(
            Val::Bool(holds[i]),
        ));
    }
    assert(holds.take(0) =~= seq![]);
    lemma_fold(n + 10, range, var, init, cond, step, result, env, items, accus, f);
    assert(holds.take(k) =~= holds);
    if k == items.len() {
        lemma_count(holds);
        lemma_accumulator(env, accus[k], var, accus[k], n + 7);
        lemma_exists_one_result(n, env.insert("@result"@, accus[k]), count(holds));
    } else if fails(test, env, var, items[k], f) {
        assert(eval(test, scope(env, accus[k], var, items[k])) == Err::<Val, Fault>(f));
    }
}

/// `map` gives the values of its argument for the items, in order. The first
/// error among them is the result.
pub proof fn law_map(
    range: Ast,
    name: Ast,
    var: Seq<char>,
    element: Ast,
    n: nat,
    env: Env,
    items: Seq<Val>,
    values: Seq<Val>,
    f: Fault,
)
    requires
        is_loop(range, env, items, name, var),
        values.len() <= items.len(),
        forall|i: int|
            0 <= i < values.len() ==> gives(element, env, var, #[trigger] items[i], values[i]),
    ensures
        expand("map"@, Some(range), seq![name, element], n, 0) is Ok,
        ({
            let result = folded("map"@, range, seq![name, element], n, env);
            let k = values.len() as int;
            &&& k == items.len() ==> result == Ok::<Val, Fault>(Val::List(values))
            &&& k < items.len() && fails(element, env, var, items[k], f) ==> result == Err::<
                Val,
                Fault,
            >(f)
        }),
{
    lemma_fold_names();
    let args = seq![name, element];
    assert(args[0] == name && args[1] == element);
    let step = appended(element, n);
    let init = numbered_node(n + 3, Node::List(seq![]));
    let cond = literal_node(n + 4, Lit::Bool(true));
    let result = accumulator(n + 5);
    let k = values.len() as int;
    let accus = Seq::new((k + 1) as nat, |i: int| Val::List(values.take(i)));
    assert forall|i: int| 0 <= i <= k && i < items.len() implies {
        let env = #[trigger] scope(env, accus[i], var, items[i]);
        &&& eval(cond, env) == Ok::<Val, Fault>(Val::Bool(true))
        &&& eval(element, env) is Err ==> eval(step, env) == eval(element, env)
        &&& i < k && eval(element, env) == Ok::<Val, Fault>(values[i]) ==> eval(step, env) == Ok::<
            Val,
            Fault,
        >(accus[i + 1])
    } by {
        if i < k {
            assert(values.take(i).push(values[i]) =~= values.take(i + 1));
        }
        lemma_accumulator(env, accus[i], var, items[i], n + 1);
        lemma_appended(element, n, scope(env, accus[i], var, items[i]), values.take(i));
    }
    assert forall|i: int| 0 <= i < k implies goes_on(
        cond,
        step,
        env,
        var,
        #[trigger] accus[i],
        items[i],
        Ok(accus[i + 1]),
    ) by {
        assert(gives(element, env, var, items[i], values[i]));
        assert(eval(element, scope(env, accus[i], var, items[i])) == Ok::<Val, Fault>(values[i]));
    }
    assert(values.take(0) =~= seq![]);
    lemma_empty_list(n + 3, env);
    lemma_fold(n + 6, range, var, init, cond, step, result, env, items, accus, f);
    assert(values.take(k) =~= values);
    if k == items.len() {
        lemma_accumulator(env, accus[k], var, accus[k], n + 5);
    } else if fails(element, env, var, items[k], f) {
        assert(eval(element, scope(env, accus[k], var, items[k])) == Err::<Val, Fault>(f));
    }
}

/// Those of the values at whose place there is a true truth value, in order.
pub open spec fn kept(values: Seq<Val>, holds: Seq<bool>) -> Seq<Val>
    decreases holds.len(),
{
    if holds.len() == 0 {
        seq![]
    } else if holds.last() {
        kept(values, holds.drop_last()).push(values[holds.len() - 1])
    } else {
        kept(values, holds.drop_last())
    }
}

/// The rounds of a comprehension that keeps some elements.
proof fn lemma_filter(
    func: Seq<char>,
    range: Ast,
    args: Seq<Ast>,
    name: Ast,
    var: Seq<char>,
    test: Ast,
    element: Ast,
    n: nat,
    m: nat,
    env: Env,
    items: Seq<Val>,
    values: Seq<Val>,
    holds: Seq<bool>,
    f: Fault,
)
    requires
        is_loop(range, env, items, name, var),
        expand(func, Some(range), args, n, 0) == Ok::<(Ast, nat), Mistake>(
            filter_fold(range, var, test, element, m),
        ),
        holds.len() <= items.len(),
        forall|i: int|
            0 <= i < holds.len() ==> gives(
                test,
                env,
                var,
                #[trigger] items[i],
                Val::Bool(holds[i]),
            ) && (holds[i] ==> gives(element, env, var, items[i], values[i])),
    ensures
        ({
            let result = folded(func, range, args, n, env);
            let k = holds.len() as int;
            &&& k == items.len() ==> result == Ok::<Val, Fault>(Val::List(kept(values, holds)))
            &&& k < items.len() && fails(test, env, var, items[k], f) ==> result == Err::<
                Val,
                Fault,
            >(f)
            &&& k < items.len() && gives(test, env, var, items[k], Val::Bool(true)) && fails(
                element,
                env,
                var,
                items[k],
                f,
            ) ==> result == Err::<Val, Fault>(f)
        }),
{
    let step = call_node(
        m + 4,
        operators::CONDITIONAL@,
        seq![test, appended(element, m), accumulator(m + 3)],
    );
    let init = numbered_node(m + 5, Node::List(seq![]));
    let cond = literal_node(m + 6, Lit::Bool(true));
    let result = accumulator(m + 7);
    let k = holds.len() as int;
    let accus = Seq::new((k + 1) as nat, |i: int| Val::List(kept(values, holds.take(i))));
    assert forall|i: int| 0 <= i <= k && i < items.len() implies {
        let env = #[trigger] scope(env, accus[i], var, items[i]);
        &&& eval(cond, env) == Ok::<Val, Fault>(Val::Bool(true))
        &&& eval(test, env) is Err ==> eval(step, env) == eval(test, env)
        &&& eval(test, env) == Ok::<Val, Fault>(Val::Bool(true)) && eval(element, env) is Err
            ==> eval(step, env) == eval(element, env)
        &&& i < k && eval(test, env) == Ok::<Val, Fault>(Val::Bool(holds[i])) && (holds[i] ==> eval(
            element,
            env,
        ) == Ok::<Val, Fault>(values[i])) ==> eval(step, env) == Ok::<Val, Fault>(accus[i + 1])
    } by {
        if i < k {
            assert(holds.take(i + 1).drop_last() =~= holds.take(i));
            assert(holds.take(i + 1).last() == holds[i]);
        }
        lemma_accumulator(env, accus[i], var, items[i], m + 1);
        lemma_accumulator(env, accus[i], var, items[i], m + 3);
        lemma_filter_round(
            test,
            element,
            m,
            scope(env, accus[i], var, items[i]),
            kept(values, holds.take(i)),
        );
    }
    assert forall|i: int| 0 <= i < k implies goes_on(
        cond,
        step,
        env,
        var,
        #[trigger] accus[i],
        items[i],
        Ok(accus[i + 1]),
    ) by {
        assert(gives(test, env, var, items[i], Val::Bool(holds[i])));
        assert(eval(test, scope(env, accus[i], var, items[i])) == Ok::<Val, Fault>(
            Val::Bool(holds[i]),
        ));
        if holds[i] {
            assert(gives(element, env, var, items[i], values[i]));
            assert(eval(element, scope(env, accus[i], var, items[i])) == Ok::<Val, Fault>(
                values[i],
            ));
        }
    }
    assert(holds.take(0) =~= seq![]);
    lemma_empty_list(m + 5, env);
    lemma_fold(m + 8, range, var, init, cond, step, result, env, items, accus, f);
    assert(holds.take(k) =~= holds);
    if k == items.len() {
        lemma_accumulator(env, accus[k], var, accus[k], m + 7);
    } else {
        let env2 = scope(env, accus[k], var, items[k]);
        if fails(test, env, var, items[k], f) {
            assert(eval(test, env2) == Err::<Val, Fault>(f));
        }
        if gives(test, env, var, items[k], Val::Bool(true)) && fails(
            element,
            env,
            var,
            items[k],
            f,
        ) {
            assert(eval(test, env2) == Ok::<Val, Fault>(Val::Bool(true)));
            assert(eval(element, env2) == Err::<Val, Fault>(f));
        }
    }
}

/// `filter` gives the items for which its argument holds, in order.
pub proof fn law_filter(
    range: Ast,
    name: Ast,
    var: Seq<char>,
    test: Ast,
    n: nat,
    env: Env,
    items: Seq<Val>,
    holds: Seq<bool>,
    f: Fault,
)
    requires
        is_loop(range, env, items, name, var),
        holds.len() <= items.len(),
        forall|i: int|
            0 <= i < holds.len() ==> gives(
                test,
                env,
                var,
                #[trigger] items[i],
                Val::Bool(holds[i]),
            ),
    ensures
        expand("filter"@, Some(range), seq![name, test], n, 0) is Ok,
        ({
            let result = folded("filter"@, range, seq![name, test], n, env);
            let k = holds.len() as int;
            &&& k == items.len() ==> result == Ok::<Val, Fault>(Val::List(kept(items, holds)))
            &&& k < items.len() && fails(test, env, var, items[k], f) ==> result == Err::<
                Val,
                Fault,
            >(f)
        }),
{
    lemma_fold_names();
    let args = seq![name, test];
    assert(args[0] == name && args[1] == test);
    let element = numbered_node(n, Node::Ident(var));
    assert forall|i: int| 0 <= i < holds.len() implies gives(
        element,
        env,
        var,
        #[trigger] items[i],
        items[i],
    ) by {}
    lemma_filter(
        "filter"@,
        range,
        args,
        name,
        var,
        test,
        element,
        n,
        n + 1,
        env,
        items,
        items,
        holds,
        f,
    );
}

/// `map` with a test before its other argument gives the values of the latter
/// for the items for which the test holds, in order.
pub proof fn law_map_where(
    range: Ast,
    name: Ast,
    var: Seq<char>,
    test: Ast,
    element: Ast,
    n: nat,
    env: Env,
    items: Seq<Val>,
    values: Seq<Val>,
    holds: Seq<bool>,
    f: Fault,
)
    requires
        is_loop(range, env, items, name, var),
        holds.len() <= items.len(),
        forall|i: int|
            0 <= i < holds.len() ==> gives(
                test,
                env,
                var,
                #[trigger] items[i],
                Val::Bool(holds[i]),
            ) && (holds[i] ==> gives(element, env, var, items[i], values[i])),
    ensures
        expand("map"@, Some(range), seq![name, test, element], n, 0) is Ok,
        ({
            let result = folded("map"@, range, seq![name, test, element], n, env);
            let k = holds.len() as int;
            &&& k == items.len() ==> result == Ok::<Val, Fault>(Val::List(kept(values, holds)))
            &&& k < items.len() && fails(test, env, var, items[k], f) ==> result == Err::<
                Val,
                Fault,
            >(f)
            &&& k < items.len() && gives(test, env, var, items[k], Val::Bool(true)) && fails(
                element,
                env,
                var,
                items[k],
                f,
            ) ==> result == Err::<Val, Fault>(f)
        }),
{
    lemma_fold_names();
    let args = seq![name, test, element];
    assert(args[0] == name && args[1] == test && args[2] == element);
    lemma_filter(
        "map"@,
        range,
        args,
        name,
        var,
        test,
        element,
        n,
        n,
        env,
        items,
        values,
        holds,
        f,
    );
}

/// The calls that run over something want a list or a map, and the first error
/// is that of the range.
pub proof fn law_only_containers_are_run_over(
    func: Seq<char>,
    range: Ast,
    args: Seq<Ast>,
    n: nat,
    env: Env,
)
    requires
        is_fold(func, args.len()),
        args[0].node is Ident,
    ensures
        expand(func, Some(range), args, n, 0) is Ok,
        eval(range, env) is Err ==> folded(func, range, args, n, env) == eval(range, env),
        eval(range, env) matches Ok(r) && !(r is List) && !(r is Dict) ==> folded(
            func,
            range,
            args,
            n,
            env,
        ) == Err::<Val, Fault>(Fault::NoSuchOverload),
{
}

/// Which calls run over something: `all`, `exists`, `exists_one`, `map` and
/// `filter` on a receiver with two arguments, and `map` with three. The first
/// argument is a name, or the call is refused. Every other call on a receiver is
/// a method call.
pub proof fn law_which_calls_run_over_something(
    func: Seq<char>,
    range: Ast,
    args: Seq<Ast>,
    n: nat,
    at: int,
)
    ensures
        ({
            let runs = {
                ||| args.len() == 2 && (func == "all"@ || func == "exists"@ || func
                    == "exists_one"@ || func == "map"@ || func == "filter"@)
                ||| args.len() == 3 && func == "map"@
            };
            let r = expand(func, Some(range), args, n, at);
            &&& runs && args[0].node is Ident ==> r is Ok && r->Ok_0.0.node is Comprehension
            &&& runs && !(args[0].node is Ident) ==> r == Err::<(Ast, nat), Mistake>(
                (ParseErrorKind::MacroArgument, at),
            )
            &&& !runs ==> r is Ok && r->Ok_0.0.node == (Node::Call {
                func,
                target: Some(Box::new(range)),
                args,
            })
        }),
{
}

/// `has(e.f)` tests whether `e` has the field `f`, and wants a selection. Every
/// other call without a receiver is a function call.
pub proof fn law_has(func: Seq<char>, args: Seq<Ast>, n: nat, at: int)
    ensures
        ({
            let r = expand(func, None, args, n, at);
            if func == "has"@ && args.len() == 1 {
                match args[0].node {
                    Node::Select { operand, field, test: false } => r matches Ok((tree, _))
                        && tree.node == (Node::Select { operand, field, test: true }),
                    _ => r == Err::<(Ast, nat), Mistake>((ParseErrorKind::MacroArgument, at)),
                }
            } else {
                r matches Ok((tree, _)) && tree.node == (Node::Call { func, target: None, args })
            }
        }),
{
}

} // verus!
