//! Copies of expressions and errors.

use vstd::prelude::*;
use crate::ast::{
    entry_models, models, CallExpr, ComprehensionExpr, EntryExpr, Expr, IdedEntryExpr, IdedExpr,
    ListExpr, Literal, MapEntryExpr, MapExpr, SelectExpr, StructExpr, StructFieldExpr,
};
use crate::error::ExecutionError;

verus! {

fn copy_bytes(bytes: &Vec<u8>) -> (copy: Vec<u8>)
    ensures
        copy@ == bytes@,
{
    vstd::slice::slice_to_vec(bytes.as_slice())
}

impl Clone for Literal {
    fn clone(&self) -> (copy: Self)
        ensures
            copy@ == self@,
    {
        match self {
            Literal::Null => Literal::Null,
            Literal::Bool(b) => Literal::Bool(*b),
            Literal::Int(i) => Literal::Int(*i),
            Literal::UInt(u) => Literal::UInt(*u),
            Literal::Double(s) => Literal::Double(s.clone()),
            Literal::String(s) => Literal::String(s.clone()),
            Literal::Bytes(b) => Literal::Bytes(copy_bytes(b)),
        }
    }
}

fn copy_expr(e: &IdedExpr) -> (copy: IdedExpr)
    ensures
        copy@ == e@,
    decreases e, 1nat,
{
    IdedExpr { id: e.id, expr: copy_node(&e.expr) }
}

fn copy_node(node: &Expr) -> (copy: Expr)
    ensures
        copy.model() == node.model(),
    decreases node, 0nat,
{
    match node {
        Expr::Unspecified => Expr::Unspecified,
        Expr::Literal(lit) => Expr::Literal(lit.clone()),
        Expr::Ident(name) => Expr::Ident(name.clone()),
        Expr::Select(s) => Expr::Select(copy_select(s)),
        Expr::List(list) => {
            let copy = Expr::List(ListExpr { elements: copy_all(&list.elements) });
            assert(copy.model()->List_0 =~= models(list.elements@));
            assert(node.model()->List_0 =~= models(list.elements@));
            copy
        },
        Expr::Dict(map) => {
            let copy = Expr::Dict(MapExpr { entries: copy_entries(&map.entries) });
            assert(copy.model()->Dict_0 =~= entry_models(map.entries@));
            assert(node.model()->Dict_0 =~= entry_models(map.entries@));
            copy
        },
        Expr::Struct(s) => {
            let copy = Expr::Struct(
                StructExpr {
                    message_type: s.message_type.clone(),
                    entries: copy_entries(&s.entries),
                },
            );
            assert(copy.model()->Struct_entries =~= entry_models(s.entries@));
            assert(node.model()->Struct_entries =~= entry_models(s.entries@));
            copy
        },
        Expr::Call(call) => {
            let target: Option<Box<IdedExpr>> = match &call.target {
                Some(t) => Some(Box::new(copy_expr(t))),
                None => None,
            };
            let copy = Expr::Call(
                CallExpr { func_name: call.func_name.clone(), target, args: copy_all(&call.args) },
            );
            proof {
                assert(copy.model()->Call_args =~= models(call.args@));
                assert(node.model()->Call_args =~= models(call.args@));
                if call.target is Some {
                    assert((*(target->0))@ == (*(call.target->0))@);
                }
            }
            copy
        },
        Expr::Comprehension(c) => {
            let iter_range = Box::new(copy_expr(&c.iter_range));
            let accu_init = Box::new(copy_expr(&c.accu_init));
            let loop_cond = Box::new(copy_expr(&c.loop_cond));
            let loop_step = Box::new(copy_expr(&c.loop_step));
            let result = Box::new(copy_expr(&c.result));
            proof {
                assert((*iter_range)@ == (*c.iter_range)@);
                assert((*accu_init)@ == (*c.accu_init)@);
                assert((*loop_cond)@ == (*c.loop_cond)@);
                assert((*loop_step)@ == (*c.loop_step)@);
                assert((*result)@ == (*c.result)@);
            }
            Expr::Comprehension(
                ComprehensionExpr {
                    iter_range,
                    iter_var: c.iter_var.clone(),
                    accu_var: c.accu_var.clone(),
                    accu_init,
                    loop_cond,
                    loop_step,
                    result,
                },
            )
        },
    }
}

fn copy_select(s: &SelectExpr) -> (copy: SelectExpr)
    ensures
        copy@ == s@,
    decreases s, 0nat,
{
    let operand = Box::new(copy_expr(&s.operand));
    assert((*operand)@ == (*s.operand)@);
    SelectExpr { operand, field: s.field.clone(), test: s.test }
}

fn copy_all(exprs: &Vec<IdedExpr>) -> (copy: Vec<IdedExpr>)
    ensures
        models(copy@) == models(exprs@),
    decreases exprs, 0nat,
{
    let mut copy: Vec<IdedExpr> = Vec::new();
    let mut i: usize = 0;
    while i < exprs.len()
        invariant
            i <= exprs@.len(),
            copy@.len() == i,
            forall|k: int| 0 <= k < i ==> (#[trigger] copy@[k])@ == exprs@[k]@,
        decreases exprs@.len() - i,
    {
        copy.push(copy_expr(&exprs[i]));
        i += 1;
    }
    assert(models(copy@) =~= models(exprs@));
    copy
}

fn copy_entries(entries: &Vec<IdedEntryExpr>) -> (copy: Vec<IdedEntryExpr>)
    ensures
        entry_models(copy@) == entry_models(entries@),
    decreases entries, 0nat,
{
    let mut copy: Vec<IdedEntryExpr> = Vec::new();
    let mut i: usize = 0;
    while i < entries.len()
        invariant
            i <= entries@.len(),
            copy@.len() == i,
            forall|k: int| 0 <= k < i ==> (#[trigger] copy@[k])@ == entries@[k]@,
        decreases entries@.len() - i,
    {
        copy.push(copy_entry(&entries[i]));
        i += 1;
    }
    assert(entry_models(copy@) =~= entry_models(entries@));
    copy
}

fn copy_entry(entry: &IdedEntryExpr) -> (copy: IdedEntryExpr)
    ensures
        copy@ == entry@,
    decreases entry, 0nat,
{
    let expr = match &entry.expr {
        EntryExpr::StructField(f) => {
            let value = copy_expr(&f.value);
            assert(value@ == f.value@);
            EntryExpr::StructField(StructFieldExpr { field: f.field.clone(), value })
        },
        EntryExpr::MapEntry(e) => {
            let key = copy_expr(&e.key);
            let value = copy_expr(&e.value);
            assert(key@ == e.key@);
            assert(value@ == e.value@);
            EntryExpr::MapEntry(MapEntryExpr { key, value })
        },
    };
    IdedEntryExpr { id: entry.id, expr }
}

impl Clone for IdedExpr {
    fn clone(&self) -> (copy: Self)
        ensures
            copy@ == self@,
    {
        copy_expr(self)
    }
}

impl Clone for SelectExpr {
    fn clone(&self) -> (copy: Self)
        ensures
            copy@ == self@,
    {
        copy_select(self)
    }
}

impl Clone for ExecutionError {
    fn clone(&self) -> (copy: Self)
        ensures
            copy@ == self@,
    {
        match self {
            ExecutionError::InvalidArgumentCount { expected, actual } => {
                ExecutionError::InvalidArgumentCount { expected: *expected, actual: *actual }
            },
            ExecutionError::UnsupportedTargetType { target } => {
                ExecutionError::UnsupportedTargetType { target: target.clone() }
            },
            ExecutionError::NotSupportedAsMethod { method, target } => {
                ExecutionError::NotSupportedAsMethod {
                    method: method.clone(),
                    target: target.clone(),
                }
            },
            ExecutionError::UnsupportedKeyType(v) => ExecutionError::UnsupportedKeyType(v.clone()),
            ExecutionError::UnexpectedType { got, want } => ExecutionError::UnexpectedType {
                got: got.clone(),
                want: want.clone(),
            },
            ExecutionError::NoSuchKey(key) => ExecutionError::NoSuchKey(key.clone()),
            ExecutionError::NoSuchOverload => ExecutionError::NoSuchOverload,
            ExecutionError::UndeclaredReference(name) => {
                ExecutionError::UndeclaredReference(name.clone())
            },
            ExecutionError::MissingArgumentOrTarget => ExecutionError::MissingArgumentOrTarget,
            ExecutionError::ValuesNotComparable(l, r) => {
                ExecutionError::ValuesNotComparable(l.clone(), r.clone())
            },
            ExecutionError::UnsupportedUnaryOperator(op, v) => {
                ExecutionError::UnsupportedUnaryOperator(*op, v.clone())
            },
            ExecutionError::UnsupportedBinaryOperator(op, l, r) => {
                ExecutionError::UnsupportedBinaryOperator(*op, l.clone(), r.clone())
            },
            ExecutionError::UnsupportedMapIndex(v) => {
                ExecutionError::UnsupportedMapIndex(v.clone())
            },
            ExecutionError::UnsupportedListIndex(v) => {
                ExecutionError::UnsupportedListIndex(v.clone())
            },
            ExecutionError::UnsupportedIndex(i, v) => {
                ExecutionError::UnsupportedIndex(i.clone(), v.clone())
            },
            ExecutionError::UnsupportedFunctionCallIdentifierType(e) => {
                ExecutionError::UnsupportedFunctionCallIdentifierType(e.clone())
            },
            ExecutionError::UnsupportedFieldsConstruction(s) => {
                ExecutionError::UnsupportedFieldsConstruction(s.clone())
            },
            ExecutionError::FunctionError { function, message } => ExecutionError::FunctionError {
                function: function.clone(),
                message: message.clone(),
            },
            ExecutionError::DivisionByZero(v) => ExecutionError::DivisionByZero(v.clone()),
            ExecutionError::RemainderByZero(v) => ExecutionError::RemainderByZero(v.clone()),
            ExecutionError::Overflow(op, l, r) => {
                ExecutionError::Overflow(*op, l.clone(), r.clone())
            },
            ExecutionError::IndexOutOfBounds(v) => ExecutionError::IndexOutOfBounds(v.clone()),
            ExecutionError::CostLimitExceeded { limit, actual } => {
                ExecutionError::CostLimitExceeded { limit: *limit, actual: *actual }
            },
            ExecutionError::InternalError(m) => ExecutionError::InternalError(m.clone()),
        }
    }
}

} // verus!
