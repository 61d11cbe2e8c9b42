//! What expressions evaluate to.
//!
//! The laws relate the value of an expression to the values of its parts. What
//! the functions do with their operands is for [`function_laws`](crate::function_laws).

use vstd::prelude::*;
use crate::ast::{Ast, Entry, EntryNode, Lit, Node};
use crate::context::Env;
use crate::entries::{key_of, with_entry};
use crate::error::Fault;
use crate::eval::{eval, eval_all, eval_entries, eval_entry};
use crate::function_laws::{applied, is_number, law_fields_are_text_keys, lemma_spellings};
use crate::functions::apply;
use crate::value::{KeyVal, Val};

verus! {

/// The tree is a call of a function without a receiver.
pub open spec fn is_call(tree: Ast, func: Seq<char>, args: Seq<Ast>) -> bool {
    tree.node == (Node::Call { func, target: None, args })
}

/// The tree is a call of a function on a receiver.
pub open spec fn is_method_call(tree: Ast, func: Seq<char>, target: Ast, args: Seq<Ast>) -> bool {
    tree.node == (Node::Call { func, target: Some(Box::new(target)), args })
}

/// The function chooses which of its operands are evaluated.
pub open spec fn chooses(func: Seq<char>) -> bool {
    func == "_?_:_"@ || func == "_&&_"@ || func == "_||_"@
}

/// A constant evaluates to itself, whatever the variables are.
pub proof fn law_constants_are_their_values(tree: Ast, env: Env)
    ensures
        tree.node == Node::Literal(Lit::Null) ==> eval(tree, env) == Ok::<Val, Fault>(Val::Null),
        tree.node matches Node::Literal(Lit::Bool(b)) ==> eval(tree, env) == Ok::<Val, Fault>(
            Val::Bool(b),
        ),
        tree.node matches Node::Literal(Lit::Int(i)) ==> eval(tree, env) == Ok::<Val, Fault>(
            Val::Int(i),
        ),
        tree.node matches Node::Literal(Lit::UInt(u)) ==> eval(tree, env) == Ok::<Val, Fault>(
            Val::UInt(u),
        ),
        tree.node matches Node::Literal(Lit::Text(s)) ==> eval(tree, env) == Ok::<Val, Fault>(
            Val::Text(s),
        ),
        tree.node matches Node::Literal(Lit::Bytes(b)) ==> eval(tree, env) == Ok::<Val, Fault>(
            Val::Bytes(b),
        ),
{
}

/// A variable evaluates to what was bound to it last, whatever else is bound.
/// Without a binding it is an undeclared reference.
pub proof fn law_variables_are_what_was_bound(
    tree: Ast,
    name: Seq<char>,
    env: Env,
    bound: Seq<char>,
    value: Val,
)
    requires
        tree.node == Node::Ident(name),
    ensures
        bound == name ==> eval(tree, env.insert(bound, value)) == Ok::<Val, Fault>(value),
        bound != name ==> eval(tree, env.insert(bound, value)) == eval(tree, env),
        !env.contains_key(name) ==> eval(tree, env) == Err::<Val, Fault>(
            Fault::UndeclaredReference(name),
        ),
{
}

/// A conditional evaluates to what the chosen branch does, and the other branch
/// plays no part.
pub proof fn law_conditionals_choose(tree: Ast, test: Ast, yes: Ast, no: Ast, env: Env)
    requires
        is_call(tree, "_?_:_"@, seq![test, yes, no]),
    ensures
        eval(test, env) == Ok::<Val, Fault>(Val::Bool(true)) ==> eval(tree, env) == eval(yes, env),
        eval(test, env) == Ok::<Val, Fault>(Val::Bool(false)) ==> eval(tree, env) == eval(no, env),
        eval(test, env) is Err ==> eval(tree, env) == eval(test, env),
        eval(test, env) matches Ok(v) && !(v is Bool) ==> eval(tree, env) == Err::<Val, Fault>(
            Fault::NoSuchOverload,
        ),
{
    let args = seq![test, yes, no];
    assert(args[0] == test && args[1] == yes && args[2] == no);
}

/// `l && r` holds where both operands do, and `l || r` where one of them does.
pub proof fn law_logic_is_that_of_truth_values(
    both: Ast,
    either: Ast,
    l: Ast,
    r: Ast,
    x: bool,
    y: bool,
    env: Env,
)
    requires
        is_call(both, "_&&_"@, seq![l, r]),
        is_call(either, "_||_"@, seq![l, r]),
        eval(l, env) == Ok::<Val, Fault>(Val::Bool(x)),
        eval(r, env) == Ok::<Val, Fault>(Val::Bool(y)),
    ensures
        eval(both, env) == Ok::<Val, Fault>(Val::Bool(x && y)),
        eval(either, env) == Ok::<Val, Fault>(Val::Bool(x || y)),
{
    lemma_spellings();
    let args = seq![l, r];
    assert(args[0] == l && args[1] == r);
}

/// The left operand of a logical operator can settle the result alone: then the
/// right one plays no part. Otherwise the result, or the error, is that of the
/// right one.
pub proof fn law_logic_looks_left_first(both: Ast, either: Ast, l: Ast, r: Ast, env: Env)
    requires
        is_call(both, "_&&_"@, seq![l, r]),
        is_call(either, "_||_"@, seq![l, r]),
    ensures
        eval(l, env) == Ok::<Val, Fault>(Val::Bool(false)) ==> {
            &&& eval(both, env) == Ok::<Val, Fault>(Val::Bool(false))
            &&& eval(r, env) is Err ==> eval(either, env) == eval(r, env)
        },
        eval(l, env) == Ok::<Val, Fault>(Val::Bool(true)) ==> {
            &&& eval(either, env) == Ok::<Val, Fault>(Val::Bool(true))
            &&& eval(r, env) is Err ==> eval(both, env) == eval(r, env)
        },
        eval(l, env) is Err ==> eval(both, env) == eval(l, env) && eval(either, env) == eval(
            l,
            env,
        ),
        eval(l, env) matches Ok(v) && !(v is Bool) ==> eval(both, env) == Err::<Val, Fault>(
            Fault::NoSuchOverload,
        ) && eval(either, env) == Err::<Val, Fault>(Fault::NoSuchOverload),
{
    lemma_spellings();
    let args = seq![l, r];
    assert(args[0] == l && args[1] == r);
}

/// The values of expressions in a row: one for each, in order, as long as there
/// is no error among them; else the first error.
pub proof fn law_values_in_a_row(trees: Seq<Ast>, env: Env)
    ensures
        eval_all(trees, env) matches Ok(values) ==> values.len() == trees.len() && forall|i: int|
            0 <= i < trees.len() ==> eval(#[trigger] trees[i], env) == Ok::<Val, Fault>(values[i]),
        eval_all(trees, env) matches Err(f) ==> exists|i: int|
            0 <= i < trees.len() && eval(#[trigger] trees[i], env) == Err::<Val, Fault>(f)
                && forall|j: int| 0 <= j < i ==> eval(#[trigger] trees[j], env) is Ok,
    decreases trees.len(),
{
    if trees.len() > 0 {
        let init = trees.drop_last();
        law_values_in_a_row(init, env);
        match eval_all(init, env) {
            Ok(values) => {
                assert forall|i: int| 0 <= i < init.len() implies eval(
                    #[trigger] trees[i],
                    env,
                ) == Ok::<Val, Fault>(values[i]) by {
                    assert(init[i] == trees[i]);
                }
                let n = trees.len() - 1;
                assert(trees[n] == trees.last());
            },
            Err(f) => {
                let i = choose|i: int|
                    0 <= i < init.len() && eval(#[trigger] init[i], env) == Err::<Val, Fault>(f)
                        && forall|j: int| 0 <= j < i ==> eval(#[trigger] init[j], env) is Ok;
                assert(trees[i] == init[i]);
                assert forall|j: int| 0 <= j < i implies eval(#[trigger] trees[j], env) is Ok by {
                    assert(init[j] == trees[j]);
                }
            },
        }
    }
}

/// A list holds what its elements evaluate to, in order; where one of them is an
/// error, so is the list.
pub proof fn law_lists_hold_their_elements(tree: Ast, elements: Seq<Ast>, env: Env)
    requires
        tree.node == Node::List(elements),
    ensures
        eval(tree, env) matches Ok(v) ==> v is List && v->List_0.len() == elements.len()
            && forall|i: int|
            0 <= i < elements.len() ==> eval(#[trigger] elements[i], env) == Ok::<Val, Fault>(
                v->List_0[i],
            ),
        (forall|i: int| 0 <= i < elements.len() ==> eval(#[trigger] elements[i], env) is Ok)
            ==> eval(tree, env) is Ok,
{
    law_values_in_a_row(elements, env);
}

/// Indexing a list expression by the number `i` gives what its element number
/// `i` evaluates to.
pub proof fn law_index_of_a_list_expression(
    tree: Ast,
    list: Ast,
    elements: Seq<Ast>,
    index: Ast,
    i: int,
    env: Env,
)
    requires
        is_call(tree, "_[_]"@, seq![list, index]),
        list.node == Node::List(elements),
        eval(list, env) is Ok,
        eval(index, env) matches Ok(v) && is_number(v, i),
        0 <= i < elements.len(),
    ensures
        eval(tree, env) == eval(elements[i], env),
{
    lemma_spellings();
    let v = eval(list, env)->Ok_0;
    law_lists_hold_their_elements(list, elements, env);
    law_calls_of_two_operands(tree, "_[_]"@, list, index, env);
    crate::function_laws::law_index_gives_the_element(v->List_0, eval(index, env)->Ok_0, i);
}

/// The values of two expressions.
pub(crate) proof fn lemma_two_values(a: Ast, b: Ast, env: Env)
    ensures
        eval_all(seq![a, b], env) == match (eval(a, env), eval(b, env)) {
            (Ok(x), Ok(y)) => Ok::<Seq<Val>, Fault>(seq![x, y]),
            (Err(f), _) => Err(f),
            (Ok(_), Err(f)) => Err(f),
        },
{
    lemma_one_value(a, env);
    assert(seq![a, b].drop_last() =~= seq![a]);
    if eval(a, env) is Ok && eval(b, env) is Ok {
        let (x, y) = (eval(a, env)->Ok_0, eval(b, env)->Ok_0);
        assert(seq![x].push(y) =~= seq![x, y]);
    }
}

/// The values of one expression.
pub(crate) proof fn lemma_one_value(a: Ast, env: Env)
    ensures
        eval_all(seq![a], env) == match eval(a, env) {
            Ok(x) => Ok::<Seq<Val>, Fault>(seq![x]),
            Err(f) => Err(f),
        },
{
    assert(seq![a].drop_last() =~= seq![]);
    assert(eval_all(seq![], env) == Ok::<Seq<Val>, Fault>(seq![]));
    if let Ok(x) = eval(a, env) {
        assert(Seq::<Val>::empty().push(x) =~= seq![x]);
    }
}

/// A call applies its function to the values of its operands, in order. The
/// first error among the operands is the result.
pub proof fn law_calls_of_two_operands(tree: Ast, func: Seq<char>, a: Ast, b: Ast, env: Env)
    requires
        is_call(tree, func, seq![a, b]),
        !chooses(func),
    ensures
        eval(tree, env) == match (eval(a, env), eval(b, env)) {
            (Ok(x), Ok(y)) => applied(func, x, y),
            (Err(f), _) => Err(f),
            (Ok(_), Err(f)) => Err(f),
        },
{
    lemma_spellings();
    lemma_two_values(a, b, env);
}

/// The same of a function of one operand.
pub proof fn law_calls_of_one_operand(tree: Ast, func: Seq<char>, a: Ast, env: Env)
    requires
        is_call(tree, func, seq![a]),
        !chooses(func),
    ensures
        eval(tree, env) == match eval(a, env) {
            Ok(x) => apply(func, seq![x]),
            Err(f) => Err(f),
        },
{
    lemma_spellings();
    lemma_one_value(a, env);
}

/// A method is its function with the receiver as the first operand. The other
/// operand is evaluated before the receiver. Only four functions are methods.
pub proof fn law_methods_put_the_receiver_first(
    tree: Ast,
    func: Seq<char>,
    target: Ast,
    a: Ast,
    env: Env,
)
    requires
        is_method_call(tree, func, target, seq![a]),
        !chooses(func),
    ensures
        eval(tree, env) == match (eval(a, env), eval(target, env)) {
            (Ok(x), Ok(v)) => if func == "startsWith"@ || func == "endsWith"@ || func == "contains"@
                || func == "size"@ {
                apply(func, seq![v, x])
            } else {
                Err(Fault::NotSupportedAsMethod { method: func, target: v })
            },
            (Err(f), _) => Err(f),
            (Ok(_), Err(f)) => Err(f),
        },
{
    lemma_spellings();
    lemma_one_value(a, env);
    if eval(a, env) is Ok && eval(target, env) is Ok {
        let (x, v) = (eval(a, env)->Ok_0, eval(target, env)->Ok_0);
        assert(seq![v] + seq![x] =~= seq![v, x]);
    }
}

/// `target.size()` is `size(target)`.
pub proof fn law_size_is_a_method(tree: Ast, call: Ast, target: Ast, env: Env)
    requires
        is_method_call(tree, "size"@, target, seq![]),
        is_call(call, "size"@, seq![target]),
    ensures
        eval(tree, env) == eval(call, env),
{
    lemma_spellings();
    law_calls_of_one_operand(call, "size"@, target, env);
    assert(eval_all(seq![], env) == Ok::<Seq<Val>, Fault>(seq![]));
    if let Ok(v) = eval(target, env) {
        assert(seq![v] + seq![] =~= seq![v]);
    }
}

/// A field of what an expression evaluates to is its value under the name.
pub proof fn law_fields_of_expressions(
    tree: Ast,
    operand: Ast,
    field: Seq<char>,
    test: bool,
    env: Env,
)
    requires
        tree.node == (Node::Select { operand: Box::new(operand), field, test }),
    ensures
        eval(operand, env) matches Ok(Val::Dict(d)) ==> eval(tree, env) == if test {
            applied("@in"@, Val::Text(field), Val::Dict(d))
        } else {
            applied("_[_]"@, Val::Dict(d), Val::Text(field))
        },
        eval(operand, env) matches Ok(v) && !(v is Dict) ==> eval(tree, env) == Err::<Val, Fault>(
            Fault::NoSuchOverload,
        ),
        eval(operand, env) is Err ==> eval(tree, env) == eval(operand, env),
{
    if let Ok(v) = eval(operand, env) {
        if let Val::Dict(d) = v {
            law_fields_are_text_keys(d, field);
        }
    }
}

/// An empty map expression is an empty map, and one more entry binds the value
/// of its key to the value of its value.
pub proof fn law_maps_bind_their_entries(
    empty: Ast,
    tree: Ast,
    longer: Ast,
    entries: Seq<Entry>,
    id: u64,
    key: Ast,
    value: Ast,
    env: Env,
)
    requires
        empty.node == Node::Dict(seq![]),
        tree.node == Node::Dict(entries),
        longer.node == Node::Dict(
            entries.push(Entry { id, entry: EntryNode::MapEntry { key, value } }),
        ),
    ensures
        eval(empty, env) == Ok::<Val, Fault>(Val::Dict(seq![])),
        eval(longer, env) == match (eval(tree, env), eval(key, env), eval(value, env)) {
            (Err(f), _, _) => Err(f),
            (_, Err(f), _) => Err(f),
            (_, Ok(k), _) if key_of(k) is None => Err(Fault::UnsupportedKeyType(k)),
            (_, _, Err(f)) => Err(f),
            (Ok(m), Ok(k), Ok(v)) => Ok::<Val, Fault>(
                Val::Dict(with_entry(m->Dict_0, key_of(k)->0, v)),
            ),
        },
        eval(tree, env) matches Ok(m) ==> m is Dict,
{
    let more = entries.push(Entry { id, entry: EntryNode::MapEntry { key, value } });
    assert(more.drop_last() =~= entries);
    let last = Entry { id, entry: EntryNode::MapEntry { key, value } };
    assert(more.last() == last);
    assert(eval_entry(last, env) == match (eval(key, env), eval(value, env)) {
        (Err(f), _) => Err::<(KeyVal, Val), Fault>(f),
        (Ok(k), v) => match key_of(k) {
            None => Err(Fault::UnsupportedKeyType(k)),
            Some(key) => match v {
                Ok(v) => Ok((key, v)),
                Err(f) => Err(f),
            },
        },
    });
    assert(eval_entries(more, env) == match (eval_entries(entries, env), eval_entry(last, env)) {
        (Err(f), _) => Err::<Seq<(KeyVal, Val)>, Fault>(f),
        (_, Err(f)) => Err(f),
        (Ok(m), Ok(e)) => Ok(with_entry(m, e.0, e.1)),
    });
    assert(eval_entries(seq![], env) == Ok::<Seq<(KeyVal, Val)>, Fault>(seq![]));
}

/// The operators that choose among their operands want all of them: three for a
/// conditional, two for a logical operator. Nothing is evaluated before that.
pub proof fn law_choosing_wants_all_operands(
    tree: Ast,
    func: Seq<char>,
    target: Option<Box<Ast>>,
    args: Seq<Ast>,
    env: Env,
)
    requires
        tree.node == (Node::Call { func, target, args }),
    ensures
        func == "_?_:_"@ && args.len() != 3 ==> eval(tree, env) == Err::<Val, Fault>(
            Fault::InvalidArgumentCount { expected: 3, actual: args.len() as usize },
        ),
        (func == "_&&_"@ || func == "_||_"@) && args.len() != 2 ==> eval(tree, env) == Err::<
            Val,
            Fault,
        >(Fault::InvalidArgumentCount { expected: 2, actual: args.len() as usize }),
{
    lemma_spellings();
}

/// What has no value: floating-point constants, messages, and nodes that are
/// nothing.
pub proof fn law_what_has_no_value(tree: Ast, env: Env)
    ensures
        tree.node matches Node::Literal(Lit::Double(_)) ==> eval(tree, env) == Err::<Val, Fault>(
            Fault::UnexpectedType { got: "double"@, want: "exact value"@ },
        ),
        tree.node matches Node::Struct { message_type, .. } ==> eval(tree, env) == Err::<
            Val,
            Fault,
        >(Fault::UndeclaredReference(message_type)),
        tree.node is Unspecified ==> eval(tree, env) == Err::<Val, Fault>(
            Fault::InternalError("unspecified expression"@),
        ),
{
}

} // verus!
