//! The evaluator.

use std::sync::Arc;
use vstd::prelude::*;
use vstd::string::*;
use crate::ast::{
    entry_models, models, Ast, CallExpr, ComprehensionExpr, Entry, EntryExpr, Expr, IdedEntryExpr,
    IdedExpr, Literal, Node,
};
use crate::context::{Context, Env};
use crate::entries::{add_entry, from_key, to_key, value_of_key};
use crate::error::{outcome, ExecutionError, Fault, ResolveResult};
use crate::eval::{
    eval, eval_all, eval_entries, eval_entry, eval_loop, law_constructed_keys_differ,
    literal_value, own_event, range_items, round_env, trace, trace_all, trace_entries, trace_entry, trace_loop, trace_parts,
};
use crate::functions::{
    call_function, is_method, is_text_test, is_unary, names_method, select_field,
};
use crate::observer::{
    cut_off, is_complete, lemma_cut_off_after, lemma_cut_off_before, lemma_cut_off_one,
    lemma_passes_on, lemma_passes_one, passes, Observer,
};
use crate::operators;
use crate::pricing::{arguments_read, compares};
use crate::text::same_text;
use crate::value::{entries_model, values_model, Key, KeyVal, Val, Value};

verus! {

/// The variables in scope: those of a context, and those that comprehensions
/// around the expression have bound since.
pub enum Scope<'a> {
    Outer(&'a Context),
    Bound { parent: &'a Scope<'a>, name: &'a str, value: Value },
}

impl<'a> Scope<'a> {
    /// The bindings of the scope.
    pub open spec fn env(self) -> Env
        decreases self,
    {
        match self {
            Scope::Outer(ctx) => ctx@,
            Scope::Bound { parent, name, value } => parent.env().insert(name@, value@),
        }
    }

    fn lookup(&self, name: &str) -> (value: Option<Value>)
        ensures
            match value {
                Some(v) => self.env().contains_key(name@) && self.env()[name@] == v@,
                None => !self.env().contains_key(name@),
            },
        decreases self,
    {
        match self {
            Scope::Outer(ctx) => ctx.get_variable(name),
            Scope::Bound { parent, name: bound, value } => if same_text(name, bound) {
                Some(value.clone())
            } else {
                parent.lookup(name)
            },
        }
    }
}

/// What a step of the evaluation leaves behind: a result, or the error by which
/// the observer ended the evaluation.
pub type Watched<T> = Result<T, ExecutionError>;

/// The observer has seen `events`, and the evaluation has gone on.
pub open spec fn seen_all<O: Observer>(before: O, events: Seq<(Ast, Val)>, after: O) -> bool {
    passes::<O>(before.state(), events, after.state())
}

/// The observer has ended the evaluation somewhere in `events`.
pub open spec fn ended_in<O: Observer>(
    before: O,
    events: Seq<(Ast, Val)>,
    e: ExecutionError,
    after: O,
) -> bool {
    cut_off::<O>(before.state(), events, e@, after.state())
}

/// Computes [`literal_value`].
fn literal(lit: &Literal) -> (r: ResolveResult)
    ensures
        outcome(r) == literal_value(lit@),
{
    match lit {
        Literal::Null => Ok(Value::Null),
        Literal::Bool(b) => Ok(Value::Bool(*b)),
        Literal::Int(i) => Ok(Value::Int(*i)),
        Literal::UInt(u) => Ok(Value::UInt(*u)),
        Literal::Double(_) => Err(
            ExecutionError::UnexpectedType {
                got: "double".to_string(),
                want: "exact value".to_string(),
            },
        ),
        Literal::String(s) => Ok(Value::text(s.as_str())),
        Literal::Bytes(b) => {
            let mut bytes: Vec<u8> = Vec::new();
            bytes.extend_from_slice(b.as_slice());
            assert(bytes@ =~= b@);
            Ok(Value::Bytes(Arc::new(bytes)))
        },
    }
}

/// Shows the value of a node, where it has one, to the observer.
fn finish<O: Observer>(expr: &IdedExpr, r: ResolveResult, obs: &mut O) -> (w: Watched<
    ResolveResult,
>)
    requires
        r is Ok ==> is_complete(expr@),
    ensures
        match w {
            Ok(same) => same == r && seen_all(
                *old(obs),
                own_event(expr@, outcome(r)),
                *final(obs),
            ),
            Err(e) => ended_in(*old(obs), own_event(expr@, outcome(r)), e, *final(obs)),
        },
{
    match r {
        Ok(value) => {
            match obs.note(expr, &value) {
                Ok(()) => {
                    proof {
                        lemma_passes_one::<O>(old(obs).state(), (expr@, value@), obs.state());
                    }
                    Ok(Ok(value))
                },
                Err(e) => {
                    proof {
                        lemma_cut_off_one::<O>(old(obs).state(), (expr@, value@), e@, obs.state());
                    }
                    Err(e)
                },
            }
        },
        Err(e) => Ok(Err(e)),
    }
}

/// Evaluates an expression before the eyes of an observer.
pub fn resolve<O: Observer>(expr: &IdedExpr, scope: &Scope, obs: &mut O) -> (w: Watched<
    ResolveResult,
>)
    ensures
        match w {
            Ok(r) => {
                &&& outcome(r) == eval(expr@, scope.env())
                &&& seen_all(*old(obs), trace(expr@, scope.env()), *final(obs))
            },
            Err(e) => ended_in(*old(obs), trace(expr@, scope.env()), e, *final(obs)),
        },
    decreases expr, 1nat,
{
    let ghost env = scope.env();
    let ghost before = obs.state();
    let ghost parts = trace_parts(expr@, env);
    let ghost own = own_event(expr@, eval(expr@, env));
    match resolve_parts(expr, scope, obs) {
        Ok(r) => {
            let ghost between = obs.state();
            proof {
                lemma_value_is_complete(expr@, env);
            }
            let w = finish(expr, r, obs);
            proof {
                if w is Ok {
                    lemma_passes_on::<O>(before, parts, between, own, obs.state());
                } else {
                    lemma_cut_off_after::<O>(
                        before,
                        parts,
                        between,
                        own,
                        w->Err_0@,
                        obs.state(),
                    );
                }
            }
            w
        },
        Err(e) => {
            proof {
                lemma_cut_off_before::<O>(before, parts, own, e@, obs.state());
            }
            Err(e)
        },
    }
}

/// Evaluates everything of an expression but the observation of its own value.
fn resolve_parts<O: Observer>(expr: &IdedExpr, scope: &Scope, obs: &mut O) -> (w: Watched<
    ResolveResult,
>)
    ensures
        match w {
            Ok(r) => {
                &&& outcome(r) == eval(expr@, scope.env())
                &&& seen_all(*old(obs), trace_parts(expr@, scope.env()), *final(obs))
            },
            Err(e) => ended_in(*old(obs), trace_parts(expr@, scope.env()), e, *final(obs)),
        },
    decreases expr, 0nat,
{
    let ghost env = scope.env();
    let ghost before = obs.state();
    match &expr.expr {
        Expr::Unspecified => Ok(
            Err(ExecutionError::InternalError("unspecified expression".to_string())),
        ),
        Expr::Literal(lit) => Ok(literal(lit)),
        Expr::Ident(name) => match scope.lookup(name.as_str()) {
            Some(value) => Ok(Ok(value)),
            None => Ok(Err(ExecutionError::undeclared_reference(name.as_str()))),
        },
        Expr::Select(select) => {
            match resolve(&select.operand, scope, obs) {
                Ok(Ok(v)) => Ok(select_field(&v, select.field.as_str(), select.test)),
                Ok(Err(e)) => Ok(Err(e)),
                Err(e) => Err(e),
            }
        },
        Expr::List(list) => {
            assert(expr@.node->List_0 =~= models(list.elements@));
            match resolve_all(&list.elements, scope, obs) {
                Ok(Ok(values)) => Ok(Ok(Value::list(values))),
                Ok(Err(e)) => Ok(Err(e)),
                Err(e) => Err(e),
            }
        },
        Expr::Dict(map) => {
            assert(expr@.node->Dict_0 =~= entry_models(map.entries@));
            match resolve_entries(&map.entries, scope, obs) {
                Ok(Ok(entries)) => {
                    proof {
                        law_constructed_keys_differ(entry_models(map.entries@), env);
                    }
                    Ok(Ok(Value::dict_of_distinct(entries)))
                },
                Ok(Err(e)) => Ok(Err(e)),
                Err(e) => Err(e),
            }
        },
        Expr::Struct(strct) => Ok(
            Err(ExecutionError::undeclared_reference(strct.message_type.as_str())),
        ),
        Expr::Call(call) => resolve_call(expr, call, scope, obs),
        Expr::Comprehension(c) => resolve_comprehension(expr, c, scope, obs),
    }
}

/// Evaluates some expressions in order, up to the first error.
fn resolve_all<O: Observer>(exprs: &Vec<IdedExpr>, scope: &Scope, obs: &mut O) -> (w: Watched<
    Result<Vec<Value>, ExecutionError>,
>)
    ensures
        match w {
            Ok(r) => {
                &&& all_outcome(r) == eval_all(models(exprs@), scope.env())
                &&& seen_all(*old(obs), trace_all(models(exprs@), scope.env()), *final(obs))
            },
            Err(e) => ended_in(
                *old(obs),
                trace_all(models(exprs@), scope.env()),
                e,
                *final(obs),
            ),
        },
    decreases exprs, 0nat,
{
    let ghost env = scope.env();
    let ghost trees = models(exprs@);
    let ghost before = obs.state();
    let mut values: Vec<Value> = Vec::new();
    let mut i: usize = 0;
    assert(trees.take(0) =~= seq![]);
    assert(values_model(values@) =~= seq![]);
    while i < exprs.len()
        invariant
            i <= exprs@.len(),
            env == scope.env(),
            trees == models(exprs@),
            eval_all(trees.take(i as int), env) == Ok::<Seq<Val>, Fault>(values_model(values@)),
            passes::<O>(before, trace_all(trees.take(i as int), env), obs.state()),
            before == old(obs).state(),
        decreases exprs@.len() - i,
    {
        let ghost done = trees.take(i as int);
        let ghost next = trees.take(i + 1);
        let ghost between = obs.state();
        let ghost first = trace_all(done, env);
        let ghost second = trace(trees[i as int], env);
        assert(next.drop_last() =~= done);
        assert(next.last() == exprs@[i as int]@);
        assert(trace_all(next, env) == first + second);
        match resolve(&exprs[i], scope, obs) {
            Ok(Ok(v)) => {
                proof {
                    lemma_passes_on::<O>(before, first, between, second, obs.state());
                }
                let ghost got = values_model(values@);
                values.push(v);
                assert(values_model(values@) =~= got.push(v@));
            },
            Ok(Err(e)) => {
                proof {
                    lemma_passes_on::<O>(before, first, between, second, obs.state());
                    lemma_error_among(trees, env, i + 1);
                }
                return Ok(Err(e));
            },
            Err(e) => {
                proof {
                    lemma_cut_off_after::<O>(before, first, between, second, e@, obs.state());
                    let rest = lemma_trace_prefix(trees, env, i + 1);
                    lemma_cut_off_before::<O>(before, first + second, rest, e@, obs.state());
                }
                return Err(e);
            },
        }
        i += 1;
    }
    assert(trees.take(trees.len() as int) =~= trees);
    Ok(Ok(values))
}

/// Reads the values of some expressions by their models.
pub open spec fn all_outcome(r: Result<Vec<Value>, ExecutionError>) -> Result<Seq<Val>, Fault> {
    match r {
        Ok(values) => Ok(values_model(values@)),
        Err(e) => Err(e@),
    }
}

/// An error among the first expressions is the outcome, and ends the trace.
proof fn lemma_error_among(trees: Seq<Ast>, env: Env, n: int)
    requires
        0 <= n <= trees.len(),
        eval_all(trees.take(n), env) is Err,
    ensures
        eval_all(trees, env) == eval_all(trees.take(n), env),
        trace_all(trees, env) == trace_all(trees.take(n), env),
    decreases trees.len() - n,
{
    if n < trees.len() {
        assert(trees.take(n + 1).drop_last() =~= trees.take(n));
        assert(trace_all(trees.take(n + 1), env) =~= trace_all(trees.take(n), env));
        lemma_error_among(trees, env, n + 1);
    } else {
        assert(trees.take(n) =~= trees);
    }
}

/// The trace of the first expressions begins the trace of all.
proof fn lemma_trace_prefix(trees: Seq<Ast>, env: Env, n: int) -> (rest: Seq<(Ast, Val)>)
    requires
        0 <= n <= trees.len(),
    ensures
        trace_all(trees, env) == trace_all(trees.take(n), env) + rest,
    decreases trees.len() - n,
{
    if n < trees.len() {
        assert(trees.take(n + 1).drop_last() =~= trees.take(n));
        let last = if eval_all(trees.take(n), env) is Ok {
            trace(trees[n], env)
        } else {
            seq![]
        };
        let rest = lemma_trace_prefix(trees, env, n + 1);
        assert(trace_all(trees.take(n), env) + (last + rest) =~= trace_all(trees.take(n), env)
            + last + rest);
        last + rest
    } else {
        assert(trees.take(n) =~= trees);
        assert(trace_all(trees, env) + seq![] =~= trace_all(trees, env));
        seq![]
    }
}

/// The number of values is the number of expressions.
proof fn lemma_all_values(trees: Seq<Ast>, env: Env)
    ensures
        eval_all(trees, env) matches Ok(values) ==> values.len() == trees.len(),
    decreases trees.len(),
{
    if trees.len() > 0 {
        lemma_all_values(trees.drop_last(), env);
    }
}

/// Only a complete call has a value.
proof fn lemma_value_is_complete(tree: Ast, env: Env)
    ensures
        eval(tree, env) is Ok ==> is_complete(tree),
{
    if let Node::Call { func, target, args } = tree.node {
        lemma_all_values(args, env);
        lemma_names_differ();
        if target is Some && is_method(func) && func != "size"@ {
            assert(is_text_test(func));
        }
    }
}

/// The names of functions of one operand, and of methods, are none of the names
/// of comparisons.
proof fn lemma_names_differ()
    ensures
        forall|f: Seq<char>| #[trigger]
            is_unary(f) ==> arguments_read(f) <= 1,
        forall|f: Seq<char>| #[trigger] is_method(f) ==> arguments_read(f) <= 1,
        forall|f: Seq<char>| #[trigger] is_text_test(f) ==> !is_unary(f),
        arguments_read("size"@) == 0,
{
    reveal_strlit("startsWith");
    reveal_strlit("endsWith");
    reveal_strlit("contains");
    reveal_strlit("bytes");
    reveal_strlit("string");
    reveal_strlit("quote");
    reveal_strlit("format");
    reveal_strlit("size");
    reveal_strlit("!_");
    reveal_strlit("-_");
    reveal_strlit("@not_strictly_false");
    reveal_strlit("@in");
    reveal_strlit("_==_");
    reveal_strlit("_!=_");
    reveal_strlit("_<_");
    reveal_strlit("_<=_");
    reveal_strlit("_>_");
    reveal_strlit("_>=_");
    assert(operators::EQUALS@[0] == '_' && operators::NOT_EQUALS@[0] == '_');
    assert(operators::LESS@[0] == '_' && operators::LESS_EQUALS@[0] == '_');
    assert(operators::GREATER@[0] == '_' && operators::GREATER_EQUALS@[0] == '_');
    assert(operators::IN@[0] == '@' && operators::IN@.len() == 3);
    assert(operators::NOT_STRICTLY_FALSE@[0] == '@' && operators::NOT_STRICTLY_FALSE@.len() == 19);
    assert(operators::LOGICAL_NOT@[0] == '!' && operators::NEGATE@[0] == '-');
    assert("size"@[0] == 's' && "string"@[0] == 's' && "bytes"@[0] == 'b');
    assert("contains"@[0] == 'c' && "startsWith"@[0] == 's' && "endsWith"@[0] == 'e');
    assert("contains"@.len() == 8 && operators::LOGICAL_NOT@.len() == 2 && operators::NEGATE@.len()
        == 2);
    assert("size"@.len() == 4 && "startsWith"@.len() == 10 && "endsWith"@.len() == 8);
    assert("bytes"@.len() == 5 && "string"@.len() == 6 && "quote"@.len() == 5 && "format"@.len() == 6);
    assert forall|f: Seq<char>| is_unary(f) || is_method(f) implies !compares(f) && f
        != operators::IN@ by {
        let first = f[0];
        let n = f.len();
    }
    assert forall|f: Seq<char>| #[trigger] is_text_test(f) implies !is_unary(f) by {
        let n = f.len();
    }
}

/// Reads the entries of a map construction by their models.
pub open spec fn entries_outcome(r: Result<Vec<(Key, Value)>, ExecutionError>) -> Result<
    Seq<(KeyVal, Val)>,
    Fault,
> {
    match r {
        Ok(entries) => Ok(entries_model(entries@)),
        Err(e) => Err(e@),
    }
}

/// An error among the first entries is the outcome, and ends the trace.
proof fn lemma_error_among_entries(entries: Seq<Entry>, env: Env, n: int)
    requires
        0 <= n <= entries.len(),
        eval_entries(entries.take(n), env) is Err,
    ensures
        eval_entries(entries, env) == eval_entries(entries.take(n), env),
        trace_entries(entries, env) == trace_entries(entries.take(n), env),
    decreases entries.len() - n,
{
    if n < entries.len() {
        assert(entries.take(n + 1).drop_last() =~= entries.take(n));
        assert(trace_entries(entries.take(n + 1), env) =~= trace_entries(entries.take(n), env));
        lemma_error_among_entries(entries, env, n + 1);
    } else {
        assert(entries.take(n) =~= entries);
    }
}

/// The trace of the first entries begins the trace of all.
proof fn lemma_entry_trace_prefix(entries: Seq<Entry>, env: Env, n: int) -> (rest: Seq<(Ast, Val)>)
    requires
        0 <= n <= entries.len(),
    ensures
        trace_entries(entries, env) == trace_entries(entries.take(n), env) + rest,
    decreases entries.len() - n,
{
    if n < entries.len() {
        let (done, next) = (entries.take(n), entries.take(n + 1));
        assert(next.drop_last() =~= done);
        let rest = lemma_entry_trace_prefix(entries, env, n + 1);
        let last = trace_entries(next, env).skip(trace_entries(done, env).len() as int);
        assert(trace_entries(next, env) =~= trace_entries(done, env) + last);
        assert(trace_entries(done, env) + (last + rest) =~= trace_entries(done, env) + last + rest);
        last + rest
    } else {
        assert(entries.take(n) =~= entries);
        assert(trace_entries(entries, env) + seq![] =~= trace_entries(entries, env));
        seq![]
    }
}

/// Evaluates an entry of a map construction: its key, then its value.
fn resolve_entry<O: Observer>(entry: &IdedEntryExpr, scope: &Scope, obs: &mut O) -> (w: Watched<
    Result<(Key, Value), ExecutionError>,
>)
    ensures
        match w {
            Ok(r) => {
                &&& seen_all(*old(obs), trace_entry(entry@, scope.env()), *final(obs))
                &&& match r {
                    Ok((k, v)) => eval_entry(entry@, scope.env()) == Ok::<(KeyVal, Val), Fault>(
                        (k@, v@),
                    ),
                    Err(e) => eval_entry(entry@, scope.env()) == Err::<(KeyVal, Val), Fault>(e@),
                }
            },
            Err(e) => ended_in(*old(obs), trace_entry(entry@, scope.env()), e, *final(obs)),
        },
    decreases entry, 0nat,
{
    let ghost env = scope.env();
    let ghost before = obs.state();
    match &entry.expr {
        EntryExpr::StructField(_) => Ok(
            Err(ExecutionError::InternalError("field in a map".to_string())),
        ),
        EntryExpr::MapEntry(e) => {
            let ghost first = trace(e.key@, env);
            assert(first + seq![] =~= first);
            match resolve(&e.key, scope, obs) {
                Ok(Ok(k)) => match to_key(&k) {
                    Some(key) => {
                        let ghost between = obs.state();
                        let ghost second = trace(e.value@, env);
                        match resolve(&e.value, scope, obs) {
                            Ok(r) => {
                                proof {
                                    lemma_passes_on::<O>(
                                        before,
                                        first,
                                        between,
                                        second,
                                        obs.state(),
                                    );
                                }
                                match r {
                                    Ok(v) => Ok(Ok((key, v))),
                                    Err(e) => Ok(Err(e)),
                                }
                            },
                            Err(e) => {
                                proof {
                                    lemma_cut_off_after::<O>(
                                        before,
                                        first,
                                        between,
                                        second,
                                        e@,
                                        obs.state(),
                                    );
                                }
                                Err(e)
                            },
                        }
                    },
                    None => Ok(Err(ExecutionError::unsupported_key_type(k))),
                },
                Ok(Err(e)) => Ok(Err(e)),
                Err(e) => {
                    proof {
                        let rest = trace_entry(entry@, env).skip(first.len() as int);
                        assert(trace_entry(entry@, env) =~= first + rest);
                        lemma_cut_off_before::<O>(before, first, rest, e@, obs.state());
                    }
                    Err(e)
                },
            }
        },
    }
}

/// Evaluates the entries of a map construction in order, up to the first error.
fn resolve_entries<O: Observer>(
    entries: &Vec<IdedEntryExpr>,
    scope: &Scope,
    obs: &mut O,
) -> (w: Watched<Result<Vec<(Key, Value)>, ExecutionError>>)
    ensures
        match w {
            Ok(r) => {
                &&& entries_outcome(r) == eval_entries(entry_models(entries@), scope.env())
                &&& seen_all(
                    *old(obs),
                    trace_entries(entry_models(entries@), scope.env()),
                    *final(obs),
                )
            },
            Err(e) => ended_in(
                *old(obs),
                trace_entries(entry_models(entries@), scope.env()),
                e,
                *final(obs),
            ),
        },
    decreases entries, 0nat,
{
    let ghost env = scope.env();
    let ghost all = entry_models(entries@);
    let ghost before = obs.state();
    let mut built: Vec<(Key, Value)> = Vec::new();
    let mut i: usize = 0;
    assert(all.take(0) =~= seq![]);
    assert(entries_model(built@) =~= seq![]);
    while i < entries.len()
        invariant
            i <= entries@.len(),
            env == scope.env(),
            all == entry_models(entries@),
            eval_entries(all.take(i as int), env) == Ok::<Seq<(KeyVal, Val)>, Fault>(
                entries_model(built@),
            ),
            passes::<O>(before, trace_entries(all.take(i as int), env), obs.state()),
            before == old(obs).state(),
        decreases entries@.len() - i,
    {
        let ghost done = all.take(i as int);
        let ghost next = all.take(i + 1);
        let ghost between = obs.state();
        let ghost first = trace_entries(done, env);
        let ghost second = trace_entry(all[i as int], env);
        assert(next.drop_last() =~= done);
        assert(next.last() == entries@[i as int]@);
        assert(trace_entries(next, env) == first + second);
        match resolve_entry(&entries[i], scope, obs) {
            Ok(Ok((key, v))) => {
                proof {
                    lemma_passes_on::<O>(before, first, between, second, obs.state());
                }
                add_entry(&mut built, key, v);
            },
            Ok(Err(e)) => {
                proof {
                    lemma_passes_on::<O>(before, first, between, second, obs.state());
                    lemma_error_among_entries(all, env, i + 1);
                }
                return Ok(Err(e));
            },
            Err(e) => {
                proof {
                    lemma_cut_off_after::<O>(before, first, between, second, e@, obs.state());
                    let rest = lemma_entry_trace_prefix(all, env, i + 1);
                    lemma_cut_off_before::<O>(before, first + second, rest, e@, obs.state());
                }
                return Err(e);
            },
        }
        i += 1;
    }
    assert(all.take(all.len() as int) =~= all);
    Ok(Ok(built))
}

/// Evaluates a conditional: the condition, and the branch that it picks.
fn resolve_conditional<O: Observer>(
    expr: &IdedExpr,
    call: &CallExpr,
    scope: &Scope,
    obs: &mut O,
) -> (w: Watched<ResolveResult>)
    requires
        expr.expr == Expr::Call(*call),
        call.func_name@ == operators::CONDITIONAL@,
    ensures
        match w {
            Ok(r) => {
                &&& outcome(r) == eval(expr@, scope.env())
                &&& seen_all(*old(obs), trace_parts(expr@, scope.env()), *final(obs))
            },
            Err(e) => ended_in(*old(obs), trace_parts(expr@, scope.env()), e, *final(obs)),
        },
    decreases call, 0nat,
{
    let ghost env = scope.env();
    let ghost before = obs.state();
    let ghost args = expr@.node->Call_args;
    assert(args =~= models(call.args@));
    if call.args.len() != 3 {
        return Ok(Err(ExecutionError::invalid_argument_count(3, call.args.len())));
    }
    let ghost first = trace(args[0], env);
    assert(first + seq![] =~= first);
    match resolve(&call.args[0], scope, obs) {
        Ok(Ok(Value::Bool(b))) => {
            let ghost between = obs.state();
            let branch: usize = if b {
                1
            } else {
                2
            };
            let ghost second = trace(args[branch as int], env);
            let w = resolve(&call.args[branch], scope, obs);
            proof {
                if w is Ok {
                    lemma_passes_on::<O>(before, first, between, second, obs.state());
                } else {
                    lemma_cut_off_after::<O>(
                        before,
                        first,
                        between,
                        second,
                        w->Err_0@,
                        obs.state(),
                    );
                }
            }
            w
        },
        Ok(Ok(_)) => Ok(Err(ExecutionError::NoSuchOverload)),
        Ok(Err(e)) => Ok(Err(e)),
        Err(e) => {
            proof {
                let rest = trace_parts(expr@, env).skip(first.len() as int);
                assert(trace_parts(expr@, env) =~= first + rest);
                lemma_cut_off_before::<O>(before, first, rest, e@, obs.state());
            }
            Err(e)
        },
    }
}

/// Evaluates a conjunction or a disjunction: the second operand only where the
/// first does not decide.
fn resolve_logic<O: Observer>(
    expr: &IdedExpr,
    call: &CallExpr,
    scope: &Scope,
    obs: &mut O,
) -> (w: Watched<ResolveResult>)
    requires
        expr.expr == Expr::Call(*call),
        call.func_name@ != operators::CONDITIONAL@,
        call.func_name@ == operators::LOGICAL_AND@ || call.func_name@ == operators::LOGICAL_OR@,
    ensures
        match w {
            Ok(r) => {
                &&& outcome(r) == eval(expr@, scope.env())
                &&& seen_all(*old(obs), trace_parts(expr@, scope.env()), *final(obs))
            },
            Err(e) => ended_in(*old(obs), trace_parts(expr@, scope.env()), e, *final(obs)),
        },
    decreases call, 0nat,
{
    let ghost env = scope.env();
    let ghost before = obs.state();
    let ghost args = expr@.node->Call_args;
    assert(args =~= models(call.args@));
    if call.args.len() != 2 {
        return Ok(Err(ExecutionError::invalid_argument_count(2, call.args.len())));
    }
    let decides: bool = same_text(call.func_name.as_str(), operators::LOGICAL_OR);
    let ghost first = trace(args[0], env);
    assert(first + seq![] =~= first);
    match resolve(&call.args[0], scope, obs) {
        Ok(Ok(Value::Bool(b))) => {
            if b == decides {
                return Ok(Ok(Value::Bool(b)));
            }
            let ghost between = obs.state();
            let ghost second = trace(args[1], env);
            match resolve(&call.args[1], scope, obs) {
                Ok(r) => {
                    proof {
                        lemma_passes_on::<O>(before, first, between, second, obs.state());
                    }
                    match r {
                        Ok(Value::Bool(c)) => Ok(Ok(Value::Bool(c))),
                        Ok(_) => Ok(Err(ExecutionError::NoSuchOverload)),
                        Err(e) => Ok(Err(e)),
                    }
                },
                Err(e) => {
                    proof {
                        lemma_cut_off_after::<O>(before, first, between, second, e@, obs.state());
                    }
                    Err(e)
                },
            }
        },
        Ok(Ok(_)) => Ok(Err(ExecutionError::NoSuchOverload)),
        Ok(Err(e)) => Ok(Err(e)),
        Err(e) => {
            proof {
                let rest = trace_parts(expr@, env).skip(first.len() as int);
                assert(trace_parts(expr@, env) =~= first + rest);
                lemma_cut_off_before::<O>(before, first, rest, e@, obs.state());
            }
            Err(e)
        },
    }
}

/// Evaluates a call: its arguments, then its receiver, then the function.
fn resolve_call<O: Observer>(
    expr: &IdedExpr,
    call: &CallExpr,
    scope: &Scope,
    obs: &mut O,
) -> (w: Watched<ResolveResult>)
    requires
        expr.expr == Expr::Call(*call),
    ensures
        match w {
            Ok(r) => {
                &&& outcome(r) == eval(expr@, scope.env())
                &&& seen_all(*old(obs), trace_parts(expr@, scope.env()), *final(obs))
            },
            Err(e) => ended_in(*old(obs), trace_parts(expr@, scope.env()), e, *final(obs)),
        },
    decreases call, 1nat,
{
    let name = call.func_name.as_str();
    if same_text(name, operators::CONDITIONAL) {
        return resolve_conditional(expr, call, scope, obs);
    }
    if same_text(name, operators::LOGICAL_AND) || same_text(name, operators::LOGICAL_OR) {
        return resolve_logic(expr, call, scope, obs);
    }
    let ghost env = scope.env();
    let ghost before = obs.state();
    let ghost args = expr@.node->Call_args;
    assert(args =~= models(call.args@));
    let ghost first = trace_all(args, env);
    assert(first + seq![] =~= first);
    match resolve_all(&call.args, scope, obs) {
        Ok(Ok(values)) => {
            match &call.target {
                None => Ok(call_function(name, &values)),
                Some(target) => {
                    let ghost between = obs.state();
                    let ghost second = trace(target@, env);
                    assert(expr@.node->Call_target == Some(Box::new(target@)));
                    match resolve(target, scope, obs) {
                        Ok(r) => {
                            proof {
                                lemma_passes_on::<O>(before, first, between, second, obs.state());
                            }
                            match r {
                                Ok(v) => if names_method(name) {
                                    let ghost vs = values_model(values@);
                                    let mut operands = values;
                                    operands.insert(0, v);
                                    assert(values_model(operands@) =~= seq![v@] + vs);
                                    Ok(call_function(name, &operands))
                                } else {
                                    Ok(Err(ExecutionError::not_supported_as_method(name, v)))
                                },
                                Err(e) => Ok(Err(e)),
                            }
                        },
                        Err(e) => {
                            proof {
                                lemma_cut_off_after::<O>(
                                    before,
                                    first,
                                    between,
                                    second,
                                    e@,
                                    obs.state(),
                                );
                            }
                            Err(e)
                        },
                    }
                },
            }
        },
        Ok(Err(e)) => Ok(Err(e)),
        Err(e) => {
            proof {
                let rest = trace_parts(expr@, env).skip(first.len() as int);
                assert(trace_parts(expr@, env) =~= first + rest);
                lemma_cut_off_before::<O>(before, first, rest, e@, obs.state());
            }
            Err(e)
        },
    }
}

/// Computes [`range_items`].
fn items_of(range: &Value) -> (items: Option<Vec<Value>>)
    ensures
        match items {
            Some(vs) => range_items(range@) == Some(values_model(vs@)),
            None => range_items(range@) is None,
        },
{
    match range {
        Value::List(list) => {
            let ghost all = range@->List_0;
            assert(all =~= values_model(list@));
            let mut items: Vec<Value> = Vec::new();
            let mut i: usize = 0;
            while i < list.len()
                invariant
                    i <= list@.len(),
                    all == values_model(list@),
                    items@.len() == i,
                    forall|k: int| 0 <= k < i ==> (#[trigger] items@[k])@ == all[k],
                decreases list@.len() - i,
            {
                items.push(list[i].clone());
                i += 1;
            }
            assert(values_model(items@) =~= all);
            Some(items)
        },
        Value::Dict(entries) => {
            let ghost all = range@->Dict_0;
            assert(all =~= entries_model(entries@));
            let ghost keys = range_items(range@)->0;
            let mut items: Vec<Value> = Vec::new();
            let mut i: usize = 0;
            while i < entries.len()
                invariant
                    i <= entries@.len(),
                    all == entries_model(entries@),
                    items@.len() == i,
                    forall|k: int|
                        0 <= k < i ==> (#[trigger] items@[k])@ == value_of_key(all[k].0),
                decreases entries@.len() - i,
            {
                items.push(from_key(&entries[i].0));
                i += 1;
            }
            assert(values_model(items@) =~= keys);
            Some(items)
        },
        _ => None,
    }
}

/// Runs the rounds of a comprehension.
fn resolve_loop<O: Observer>(
    c: &ComprehensionExpr,
    items: &Vec<Value>,
    init: Value,
    scope: &Scope,
    obs: &mut O,
) -> (w: Watched<ResolveResult>)
    ensures
        ({
            let node = Expr::Comprehension(*c).model();
            let all = values_model(items@);
            match w {
                Ok(r) => {
                    &&& outcome(r) == eval_loop(node, scope.env(), all, 0, init@)
                    &&& seen_all(
                        *old(obs),
                        trace_loop(node, scope.env(), all, 0, init@),
                        *final(obs),
                    )
                },
                Err(e) => ended_in(
                    *old(obs),
                    trace_loop(node, scope.env(), all, 0, init@),
                    e,
                    *final(obs),
                ),
            }
        }),
    decreases c, 0nat,
{
    let ghost node = Expr::Comprehension(*c).model();
    let ghost env = scope.env();
    let ghost all = values_model(items@);
    let ghost before = obs.state();
    let ghost whole = trace_loop(node, env, all, 0, init@);
    let ghost mut seen: Seq<(Ast, Val)> = seq![];
    let mut accu = init;
    let mut k: usize = 0;
    assert(seen + whole =~= whole);
    while k < items.len()
        invariant
            k <= items@.len(),
            node == Expr::Comprehension(*c).model(),
            env == scope.env(),
            all == values_model(items@),
            before == old(obs).state(),
            whole == trace_loop(node, env, all, 0, init@),
            eval_loop(node, env, all, k as nat, accu@) == eval_loop(node, env, all, 0, init@),
            whole == seen + trace_loop(node, env, all, k as nat, accu@),
            passes::<O>(before, seen, obs.state()),
        decreases items@.len() - k,
    {
        let ghost left = trace_loop(node, env, all, k as nat, accu@);
        let with_accu = Scope::Bound {
            parent: scope,
            name: c.accu_var.as_str(),
            value: accu.clone(),
        };
        let round = Scope::Bound {
            parent: &with_accu,
            name: c.iter_var.as_str(),
            value: items[k].clone(),
        };
        let ghost round_of = round_env(node, env, accu@, all[k as int]);
        assert(with_accu.env() == env.insert(node->accu_var, accu@));
        assert(round.env() == round_of);
        let ghost between = obs.state();
        let ghost first = trace(c.loop_cond@, round_of);
        let ghost rest = left.skip(first.len() as int);
        assert(left =~= first + rest);
        assert(whole =~= (seen + first) + rest);
        match resolve(&c.loop_cond, &round, obs) {
            Ok(Ok(Value::Bool(go_on))) => {
                proof {
                    lemma_passes_on::<O>(before, seen, between, first, obs.state());
                }
                if !go_on {
                    assert(rest =~= seq![]);
                    assert(whole =~= seen + first);
                    return Ok(Ok(accu));
                }
                let ghost after_cond = obs.state();
                let ghost second = trace(c.loop_step@, round_of);
                let ghost tail = rest.skip(second.len() as int);
                assert(rest =~= second + tail);
                assert(whole =~= (seen + first) + second + tail);
                match resolve(&c.loop_step, &round, obs) {
                    Ok(Ok(next)) => {
                        proof {
                            lemma_passes_on::<O>(
                                before,
                                seen + first,
                                after_cond,
                                second,
                                obs.state(),
                            );
                            assert(tail =~= trace_loop(node, env, all, (k + 1) as nat, next@));
                            seen = (seen + first) + second;
                        }
                        accu = next;
                    },
                    Ok(Err(e)) => {
                        proof {
                            lemma_passes_on::<O>(
                                before,
                                seen + first,
                                after_cond,
                                second,
                                obs.state(),
                            );
                            assert(tail =~= seq![]);
                            assert(whole =~= (seen + first) + second);
                        }
                        return Ok(Err(e));
                    },
                    Err(e) => {
                        proof {
                            lemma_cut_off_after::<O>(
                                before,
                                seen + first,
                                after_cond,
                                second,
                                e@,
                                obs.state(),
                            );
                            lemma_cut_off_before::<O>(
                                before,
                                (seen + first) + second,
                                tail,
                                e@,
                                obs.state(),
                            );
                        }
                        return Err(e);
                    },
                }
            },
            Ok(Ok(_)) => {
                proof {
                    lemma_passes_on::<O>(before, seen, between, first, obs.state());
                    assert(rest =~= seq![]);
                    assert(whole =~= seen + first);
                }
                return Ok(Err(ExecutionError::NoSuchOverload));
            },
            Ok(Err(e)) => {
                proof {
                    lemma_passes_on::<O>(before, seen, between, first, obs.state());
                    assert(rest =~= seq![]);
                    assert(whole =~= seen + first);
                }
                return Ok(Err(e));
            },
            Err(e) => {
                proof {
                    lemma_cut_off_after::<O>(before, seen, between, first, e@, obs.state());
                    lemma_cut_off_before::<O>(before, seen + first, rest, e@, obs.state());
                }
                return Err(e);
            },
        }
        k += 1;
    }
    assert(whole =~= seen);
    Ok(Ok(accu))
}

/// Evaluates a comprehension: its range, its initial value, its rounds, and its
/// result.
fn resolve_comprehension<O: Observer>(
    expr: &IdedExpr,
    c: &ComprehensionExpr,
    scope: &Scope,
    obs: &mut O,
) -> (w: Watched<ResolveResult>)
    requires
        expr.expr == Expr::Comprehension(*c),
    ensures
        match w {
            Ok(r) => {
                &&& outcome(r) == eval(expr@, scope.env())
                &&& seen_all(*old(obs), trace_parts(expr@, scope.env()), *final(obs))
            },
            Err(e) => ended_in(*old(obs), trace_parts(expr@, scope.env()), e, *final(obs)),
        },
    decreases c, 1nat,
{
    let ghost env = scope.env();
    let ghost node = expr@.node;
    let ghost before = obs.state();
    let ghost whole = trace_parts(expr@, env);
    let ghost first = trace(c.iter_range@, env);
    let ghost after_range = whole.skip(first.len() as int);
    assert(whole =~= first + after_range);
    match resolve(&c.iter_range, scope, obs) {
        Ok(Ok(range)) => match items_of(&range) {
            Some(items) => {
                let ghost all = values_model(items@);
                let ghost s1 = obs.state();
                let ghost second = trace(c.accu_init@, env);
                let ghost after_init = after_range.skip(second.len() as int);
                assert(after_range =~= second + after_init);
                assert(whole =~= first + second + after_init);
                match resolve(&c.accu_init, scope, obs) {
                    Ok(Ok(init)) => {
                        proof {
                            lemma_passes_on::<O>(before, first, s1, second, obs.state());
                        }
                        let ghost s2 = obs.state();
                        let ghost third = trace_loop(node, env, all, 0, init@);
                        let ghost after_loop = after_init.skip(third.len() as int);
                        assert(after_init =~= third + after_loop);
                        assert(whole =~= first + second + third + after_loop);
                        match resolve_loop(c, &items, init, scope, obs) {
                            Ok(Ok(accu)) => {
                                proof {
                                    lemma_passes_on::<O>(
                                        before,
                                        first + second,
                                        s2,
                                        third,
                                        obs.state(),
                                    );
                                }
                                let with_accu = Scope::Bound {
                                    parent: scope,
                                    name: c.accu_var.as_str(),
                                    value: accu,
                                };
                                assert(with_accu.env() == env.insert(node->accu_var, accu@));
                                let ghost s3 = obs.state();
                                assert(after_loop == trace(c.result@, with_accu.env()));
                                let w = resolve(&c.result, &with_accu, obs);
                                proof {
                                    if w is Ok {
                                        lemma_passes_on::<O>(
                                            before,
                                            first + second + third,
                                            s3,
                                            after_loop,
                                            obs.state(),
                                        );
                                    } else {
                                        lemma_cut_off_after::<O>(
                                            before,
                                            first + second + third,
                                            s3,
                                            after_loop,
                                            w->Err_0@,
                                            obs.state(),
                                        );
                                    }
                                }
                                w
                            },
                            Ok(Err(e)) => {
                                proof {
                                    lemma_passes_on::<O>(
                                        before,
                                        first + second,
                                        s2,
                                        third,
                                        obs.state(),
                                    );
                                    assert(after_loop =~= seq![]);
                                    assert(whole =~= first + second + third);
                                }
                                Ok(Err(e))
                            },
                            Err(e) => {
                                proof {
                                    lemma_cut_off_after::<O>(
                                        before,
                                        first + second,
                                        s2,
                                        third,
                                        e@,
                                        obs.state(),
                                    );
                                    lemma_cut_off_before::<O>(
                                        before,
                                        first + second + third,
                                        after_loop,
                                        e@,
                                        obs.state(),
                                    );
                                }
                                Err(e)
                            },
                        }
                    },
                    Ok(Err(e)) => {
                        proof {
                            lemma_passes_on::<O>(before, first, s1, second, obs.state());
                            assert(after_init =~= seq![]);
                            assert(whole =~= first + second);
                        }
                        Ok(Err(e))
                    },
                    Err(e) => {
                        proof {
                            lemma_cut_off_after::<O>(before, first, s1, second, e@, obs.state());
                            lemma_cut_off_before::<O>(
                                before,
                                first + second,
                                after_init,
                                e@,
                                obs.state(),
                            );
                        }
                        Err(e)
                    },
                }
            },
            None => {
                assert(whole =~= first);
                Ok(Err(ExecutionError::NoSuchOverload))
            },
        },
        Ok(Err(e)) => {
            assert(whole =~= first);
            Ok(Err(e))
        },
        Err(e) => {
            proof {
                lemma_cut_off_before::<O>(before, first, after_range, e@, obs.state());
            }
            Err(e)
        },
    }
}

} // verus!
