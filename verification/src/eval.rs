//! The meaning of expressions.
//!
//! [`eval`] says what an expression evaluates to, and [`trace`] which of its
//! nodes get a value on the way, in which order. An evaluation can be watched
//! by an [`Observer`](crate::observer::Observer), which sees the trace as it
//! comes and can cut it off.

use vstd::prelude::*;
use crate::ast::{Ast, Entry, EntryNode, Lit, Node};
use crate::context::Env;
use crate::entries::{
    distinct_keys, key_of, law_binding_keeps_keys_apart, value_of_key, with_entry,
};
use crate::error::{Fault, Outcome};
use crate::functions::{apply, is_method, selected};
use crate::operators;
use crate::value::{KeyVal, Val};

verus! {

/// A node with the value that it got.
pub type Event = (Ast, Val);

/// The value of a constant. Floating-point numbers are not evaluated.
pub open spec fn literal_value(lit: Lit) -> Outcome {
    match lit {
        Lit::Null => Ok(Val::Null),
        Lit::Bool(b) => Ok(Val::Bool(b)),
        Lit::Int(i) => Ok(Val::Int(i)),
        Lit::UInt(u) => Ok(Val::UInt(u)),
        Lit::Double(s) => Err(Fault::UnexpectedType { got: "double"@, want: "exact value"@ }),
        Lit::Text(s) => Ok(Val::Text(s)),
        Lit::Bytes(b) => Ok(Val::Bytes(b)),
    }
}

/// What a comprehension runs over: the elements of a list, or the keys of a map.
pub open spec fn range_items(v: Val) -> Option<Seq<Val>> {
    match v {
        Val::List(items) => Some(items),
        Val::Dict(entries) => Some(
            Seq::new(entries.len(), |i: int| value_of_key(entries[i].0)),
        ),
        _ => None,
    }
}

/// What an expression evaluates to under the bindings of `env`.
pub open spec fn eval(tree: Ast, env: Env) -> Outcome
    decreases tree, 0nat,
{
    match tree.node {
        Node::Unspecified => Err(Fault::InternalError("unspecified expression"@)),
        Node::Literal(lit) => literal_value(lit),
        Node::Ident(name) => if env.contains_key(name) {
            Ok(env[name])
        } else {
            Err(Fault::UndeclaredReference(name))
        },
        Node::Select { operand, field, test } => match eval(*operand, env) {
            Ok(v) => selected(v, field, test),
            Err(e) => Err(e),
        },
        Node::List(elements) => match eval_all(elements, env) {
            Ok(values) => Ok(Val::List(values)),
            Err(e) => Err(e),
        },
        Node::Dict(entries) => match eval_entries(entries, env) {
            Ok(values) => Ok(Val::Dict(values)),
            Err(e) => Err(e),
        },
        Node::Struct { message_type, entries } => Err(Fault::UndeclaredReference(message_type)),
        Node::Call { func, target, args } => if func == operators::CONDITIONAL@ {
            if args.len() != 3 {
                Err(Fault::InvalidArgumentCount { expected: 3, actual: args.len() as usize })
            } else {
                match eval(args[0], env) {
                    Ok(Val::Bool(b)) => if b {
                        eval(args[1], env)
                    } else {
                        eval(args[2], env)
                    },
                    Ok(_) => Err(Fault::NoSuchOverload),
                    Err(e) => Err(e),
                }
            }
        } else if func == operators::LOGICAL_AND@ || func == operators::LOGICAL_OR@ {
            if args.len() != 2 {
                Err(Fault::InvalidArgumentCount { expected: 2, actual: args.len() as usize })
            } else {
                match eval(args[0], env) {
                    Ok(Val::Bool(b)) => if b == (func == operators::LOGICAL_OR@) {
                        Ok(Val::Bool(b))
                    } else {
                        match eval(args[1], env) {
                            Ok(Val::Bool(c)) => Ok(Val::Bool(c)),
                            Ok(_) => Err(Fault::NoSuchOverload),
                            Err(e) => Err(e),
                        }
                    },
                    Ok(_) => Err(Fault::NoSuchOverload),
                    Err(e) => Err(e),
                }
            }
        } else {
            match eval_all(args, env) {
                Ok(values) => match target {
                    None => apply(func, values),
                    Some(t) => match eval(*t, env) {
                        Ok(v) => if is_method(func) {
                            apply(func, seq![v] + values)
                        } else {
                            Err(Fault::NotSupportedAsMethod { method: func, target: v })
                        },
                        Err(e) => Err(e),
                    },
                },
                Err(e) => Err(e),
            }
        },
        Node::Comprehension { iter_range, iter_var, accu_var, accu_init, result, .. } => match eval(
            *iter_range,
            env,
        ) {
            Ok(range) => match range_items(range) {
                Some(items) => match eval(*accu_init, env) {
                    Ok(init) => match eval_loop(tree.node, env, items, 0, init) {
                        Ok(accu) => eval(*result, env.insert(accu_var, accu)),
                        Err(e) => Err(e),
                    },
                    Err(e) => Err(e),
                },
                None => Err(Fault::NoSuchOverload),
            },
            Err(e) => Err(e),
        },
    }
}

/// The values of some expressions, or the first error among them.
pub open spec fn eval_all(trees: Seq<Ast>, env: Env) -> Result<Seq<Val>, Fault>
    decreases trees, 0nat,
{
    if trees.len() == 0 {
        Ok(seq![])
    } else {
        match eval_all(trees.drop_last(), env) {
            Ok(values) => match eval(trees.last(), env) {
                Ok(v) => Ok(values.push(v)),
                Err(e) => Err(e),
            },
            Err(e) => Err(e),
        }
    }
}

/// The entries of a map construction, or the first error among them. Under a
/// key that occurs again, the last value stands.
pub open spec fn eval_entries(entries: Seq<Entry>, env: Env) -> Result<Seq<(KeyVal, Val)>, Fault>
    decreases entries, 0nat,
{
    if entries.len() == 0 {
        Ok(seq![])
    } else {
        match eval_entries(entries.drop_last(), env) {
            Ok(before) => match eval_entry(entries.last(), env) {
                Ok((key, value)) => Ok(with_entry(before, key, value)),
                Err(e) => Err(e),
            },
            Err(e) => Err(e),
        }
    }
}

/// The key and the value of an entry of a map construction.
pub open spec fn eval_entry(entry: Entry, env: Env) -> Result<(KeyVal, Val), Fault>
    decreases entry, 0nat,
{
    match entry.entry {
        EntryNode::MapEntry { key, value } => match eval(key, env) {
            Ok(k) => match key_of(k) {
                Some(key) => match eval(value, env) {
                    Ok(v) => Ok((key, v)),
                    Err(e) => Err(e),
                },
                None => Err(Fault::UnsupportedKeyType(k)),
            },
            Err(e) => Err(e),
        },
        EntryNode::StructField { field, value } => Err(Fault::InternalError("field in a map"@)),
    }
}

/// The bindings of one round of a comprehension.
pub open spec fn round_env(node: Node, env: Env, accu: Val, item: Val) -> Env {
    env.insert(node->accu_var, accu).insert(node->iter_var, item)
}

/// What a comprehension has accumulated at its end, where it has come to item
/// `k` with the accumulator `accu`.
pub open spec fn eval_loop(node: Node, env: Env, items: Seq<Val>, k: nat, accu: Val) -> Outcome
    decreases node, (items.len() - k) as nat,
{
    match node {
        Node::Comprehension { loop_cond, loop_step, .. } => if k >= items.len() {
            Ok(accu)
        } else {
            let scope = round_env(node, env, accu, items[k as int]);
            match eval(*loop_cond, scope) {
                Ok(Val::Bool(go_on)) => if go_on {
                    match eval(*loop_step, scope) {
                        Ok(next) => eval_loop(node, env, items, k + 1, next),
                        Err(e) => Err(e),
                    }
                } else {
                    Ok(accu)
                },
                Ok(_) => Err(Fault::NoSuchOverload),
                Err(e) => Err(e),
            }
        },
        _ => Ok(accu),
    }
}

/// The event of a node itself: there is one where it has a value.
pub open spec fn own_event(tree: Ast, r: Outcome) -> Seq<Event> {
    match r {
        Ok(v) => seq![(tree, v)],
        Err(_) => seq![],
    }
}

/// The nodes of an expression that get a value, in the order in which they get it.
pub open spec fn trace(tree: Ast, env: Env) -> Seq<Event>
    decreases tree, 1nat,
{
    trace_parts(tree, env) + own_event(tree, eval(tree, env))
}

/// The part of the trace before the expression itself.
pub open spec fn trace_parts(tree: Ast, env: Env) -> Seq<Event>
    decreases tree, 0nat,
{
    match tree.node {
        Node::Select { operand, field, test } => trace(*operand, env),
        Node::List(elements) => trace_all(elements, env),
        Node::Dict(entries) => trace_entries(entries, env),
        Node::Call { func, target, args } => if func == operators::CONDITIONAL@ {
            if args.len() != 3 {
                seq![]
            } else {
                trace(args[0], env) + match eval(args[0], env) {
                    Ok(Val::Bool(b)) => if b {
                        trace(args[1], env)
                    } else {
                        trace(args[2], env)
                    },
                    _ => seq![],
                }
            }
        } else if func == operators::LOGICAL_AND@ || func == operators::LOGICAL_OR@ {
            if args.len() != 2 {
                seq![]
            } else {
                trace(args[0], env) + match eval(args[0], env) {
                    Ok(Val::Bool(b)) => if b == (func == operators::LOGICAL_OR@) {
                        seq![]
                    } else {
                        trace(args[1], env)
                    },
                    _ => seq![],
                }
            }
        } else {
            trace_all(args, env) + match target {
                Some(t) => if eval_all(args, env) is Ok {
                    trace(*t, env)
                } else {
                    seq![]
                },
                None => seq![],
            }
        },
        Node::Comprehension { iter_range, iter_var, accu_var, accu_init, result, .. } => trace(
            *iter_range,
            env,
        ) + match eval(*iter_range, env) {
            Ok(range) => match range_items(range) {
                Some(items) => trace(*accu_init, env) + match eval(*accu_init, env) {
                    Ok(init) => trace_loop(tree.node, env, items, 0, init) + match eval_loop(
                        tree.node,
                        env,
                        items,
                        0,
                        init,
                    ) {
                        Ok(accu) => trace(*result, env.insert(accu_var, accu)),
                        Err(_) => seq![],
                    },
                    Err(_) => seq![],
                },
                None => seq![],
            },
            Err(_) => seq![],
        },
        _ => seq![],
    }
}

/// The trace of some expressions up to the first error.
pub open spec fn trace_all(trees: Seq<Ast>, env: Env) -> Seq<Event>
    decreases trees, 0nat,
{
    if trees.len() == 0 {
        seq![]
    } else {
        trace_all(trees.drop_last(), env) + if eval_all(trees.drop_last(), env) is Ok {
            trace(trees.last(), env)
        } else {
            seq![]
        }
    }
}

/// The trace of the entries of a map construction up to the first error.
pub open spec fn trace_entries(entries: Seq<Entry>, env: Env) -> Seq<Event>
    decreases entries, 0nat,
{
    if entries.len() == 0 {
        seq![]
    } else {
        trace_entries(entries.drop_last(), env) + if eval_entries(
            entries.drop_last(),
            env,
        ) is Ok {
            trace_entry(entries.last(), env)
        } else {
            seq![]
        }
    }
}

/// The trace of an entry of a map construction: its key, then its value.
pub open spec fn trace_entry(entry: Entry, env: Env) -> Seq<Event>
    decreases entry, 0nat,
{
    match entry.entry {
        EntryNode::MapEntry { key, value } => trace(key, env) + match eval(key, env) {
            Ok(k) => if key_of(k) is Some {
                trace(value, env)
            } else {
                seq![]
            },
            Err(_) => seq![],
        },
        EntryNode::StructField { field, value } => seq![],
    }
}

/// The trace of the rounds of a comprehension from item `k` on.
pub open spec fn trace_loop(
    node: Node,
    env: Env,
    items: Seq<Val>,
    k: nat,
    accu: Val,
) -> Seq<Event>
    decreases node, (items.len() - k) as nat,
{
    match node {
        Node::Comprehension { loop_cond, loop_step, .. } => if k >= items.len() {
            seq![]
        } else {
            let scope = round_env(node, env, accu, items[k as int]);
            trace(*loop_cond, scope) + if eval(*loop_cond, scope) == Ok::<Val, Fault>(
                Val::Bool(true),
            ) {
                trace(*loop_step, scope) + match eval(*loop_step, scope) {
                    Ok(next) => trace_loop(node, env, items, k + 1, next),
                    Err(_) => seq![],
                }
            } else {
                seq![]
            }
        },
        _ => seq![],
    }
}

/// The entries of a map construction have different keys.
pub proof fn law_constructed_keys_differ(entries: Seq<Entry>, env: Env)
    ensures
        eval_entries(entries, env) matches Ok(built) ==> distinct_keys(built),
    decreases entries.len(),
{
    if entries.len() > 0 {
        law_constructed_keys_differ(entries.drop_last(), env);
        if eval_entries(entries, env) is Ok {
            let before = eval_entries(entries.drop_last(), env)->Ok_0;
            let (key, value) = eval_entry(entries.last(), env)->Ok_0;
            law_binding_keeps_keys_apart(before, key, value);
        }
    }
}

} // verus!
