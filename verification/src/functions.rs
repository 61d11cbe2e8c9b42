//! The operators and functions of the language, applied to evaluated operands.

use std::sync::Arc;
use vstd::prelude::*;
use vstd::string::*;
use vstd::utf8::encode_utf8;
use crate::compare::{comparison, equal, values_compare, values_equal};
use crate::entries::{find_key, key_of, key_text, position_of_key, text_of_key, to_key};
use crate::error::{outcome, ExecutionError, Fault, Outcome, ResolveResult};
use crate::operators;
use crate::text::{
    bool_text, decimal, decimal_text, occurs_in, same_text, signed_decimal, signed_decimal_text,
    stands_at, text_contains, text_ends_with, text_of_bool, text_starts_with,
};
use crate::value::{entries_model, values_model, Key, KeyVal, Val, Value};

verus! {

/// The magnitude of an integer.
pub open spec fn magnitude(i: int) -> int {
    if i < 0 {
        -i
    } else {
        i
    }
}

/// The quotient of two integers, rounded towards zero.
pub open spec fn quotient(x: int, d: int) -> int {
    let q = magnitude(x) / magnitude(d);
    if (x < 0) == (d < 0) {
        q
    } else {
        -q
    }
}

/// What is left of `x` after its quotient by `d`; it has the sign of `x`.
pub open spec fn remainder(x: int, d: int) -> int {
    let r = magnitude(x) % magnitude(d);
    if x < 0 {
        -r
    } else {
        r
    }
}

/// An integer result, where it fits.
pub open spec fn int_result(op: Seq<char>, n: int, l: Val, r: Val) -> Outcome {
    if i64::MIN <= n <= i64::MAX {
        Ok(Val::Int(n as i64))
    } else {
        Err(Fault::Overflow(op, l, r))
    }
}

/// An unsigned integer result, where it fits.
pub open spec fn uint_result(op: Seq<char>, n: int, l: Val, r: Val) -> Outcome {
    if 0 <= n <= u64::MAX {
        Ok(Val::UInt(n as u64))
    } else {
        Err(Fault::Overflow(op, l, r))
    }
}

/// `l + r`: the sum of two numbers, or two sequences joined.
pub open spec fn sum_of(l: Val, r: Val) -> Outcome {
    match (l, r) {
        (Val::Int(x), Val::Int(y)) => int_result("add"@, x + y, l, r),
        (Val::UInt(x), Val::UInt(y)) => uint_result("add"@, x + y, l, r),
        (Val::Text(x), Val::Text(y)) => Ok(Val::Text(x + y)),
        (Val::Bytes(x), Val::Bytes(y)) => Ok(Val::Bytes(x + y)),
        (Val::List(x), Val::List(y)) => Ok(Val::List(x + y)),
        _ => Err(Fault::NoSuchOverload),
    }
}

/// `l - r`.
pub open spec fn difference_of(l: Val, r: Val) -> Outcome {
    match (l, r) {
        (Val::Int(x), Val::Int(y)) => int_result("sub"@, x - y, l, r),
        (Val::UInt(x), Val::UInt(y)) => uint_result("sub"@, x - y, l, r),
        _ => Err(Fault::NoSuchOverload),
    }
}

/// `l * r`.
pub open spec fn product_of(l: Val, r: Val) -> Outcome {
    match (l, r) {
        (Val::Int(x), Val::Int(y)) => int_result("mul"@, x * y, l, r),
        (Val::UInt(x), Val::UInt(y)) => uint_result("mul"@, x * y, l, r),
        _ => Err(Fault::NoSuchOverload),
    }
}

/// `l / r`.
pub open spec fn quotient_of(l: Val, r: Val) -> Outcome {
    match (l, r) {
        (Val::Int(x), Val::Int(y)) => if y == 0 {
            Err(Fault::DivisionByZero(l))
        } else {
            int_result("div"@, quotient(x as int, y as int), l, r)
        },
        (Val::UInt(x), Val::UInt(y)) => if y == 0 {
            Err(Fault::DivisionByZero(l))
        } else {
            Ok(Val::UInt((x / y) as u64))
        },
        _ => Err(Fault::NoSuchOverload),
    }
}

/// `l % r`. The quotient of the operands has to fit as well.
pub open spec fn remainder_of(l: Val, r: Val) -> Outcome {
    match (l, r) {
        (Val::Int(x), Val::Int(y)) => if y == 0 {
            Err(Fault::RemainderByZero(l))
        } else if x == i64::MIN && y == -1 {
            Err(Fault::Overflow("rem"@, l, r))
        } else {
            Ok(Val::Int(remainder(x as int, y as int) as i64))
        },
        (Val::UInt(x), Val::UInt(y)) => if y == 0 {
            Err(Fault::RemainderByZero(l))
        } else {
            Ok(Val::UInt((x % y) as u64))
        },
        _ => Err(Fault::NoSuchOverload),
    }
}

/// `-v`.
pub open spec fn negation_of(v: Val) -> Outcome {
    match v {
        Val::Int(x) => int_result("neg"@, -(x as int), v, Val::Null),
        _ => Err(Fault::NoSuchOverload),
    }
}

/// An order test, from the sign of the comparison.
pub open spec fn order_test(l: Val, r: Val, holds: spec_fn(int) -> bool) -> Outcome {
    match comparison(l, r) {
        Some(sign) => Ok(Val::Bool(holds(sign))),
        None => Err(Fault::NoSuchOverload),
    }
}

/// `l in r`: an element of a list, or a key of a map.
pub open spec fn membership(l: Val, r: Val) -> Outcome {
    match r {
        Val::List(items) => Ok(
            Val::Bool(exists|i: int| 0 <= i < items.len() && equal(#[trigger] items[i], l)),
        ),
        Val::Dict(entries) => match key_of(l) {
            Some(key) => Ok(Val::Bool(find_key(entries, key) >= 0)),
            None => Err(Fault::UnsupportedKeyType(l)),
        },
        _ => Err(Fault::NoSuchOverload),
    }
}

/// `l[r]`: the element of a list at a position, or the value under a key.
pub open spec fn indexed(l: Val, r: Val) -> Outcome {
    match (l, r) {
        (Val::List(items), Val::Int(i)) => if 0 <= i < items.len() {
            Ok(items[i as int])
        } else {
            Err(Fault::IndexOutOfBounds(r))
        },
        (Val::List(items), Val::UInt(i)) => if i < items.len() {
            Ok(items[i as int])
        } else {
            Err(Fault::IndexOutOfBounds(r))
        },
        (Val::Dict(entries), _) => match key_of(r) {
            Some(key) => if find_key(entries, key) >= 0 {
                Ok(entries[find_key(entries, key)].1)
            } else {
                Err(Fault::NoSuchKey(key_text(key)))
            },
            None => Err(Fault::UnsupportedKeyType(r)),
        },
        _ => Err(Fault::NoSuchOverload),
    }
}

/// `v.field`, or whether `v` has the field.
pub open spec fn selected(v: Val, field: Seq<char>, test: bool) -> Outcome {
    match v {
        Val::Dict(entries) => {
            let pos = find_key(entries, KeyVal::Text(field));
            if test {
                Ok(Val::Bool(pos >= 0))
            } else if pos >= 0 {
                Ok(entries[pos].1)
            } else {
                Err(Fault::NoSuchKey(field))
            }
        },
        _ => Err(Fault::NoSuchOverload),
    }
}

/// `size(v)`.
pub open spec fn size_result(v: Val) -> Outcome {
    match v {
        Val::Text(s) => int_result("size"@, s.len() as int, v, Val::Null),
        Val::Bytes(b) => int_result("size"@, b.len() as int, v, Val::Null),
        Val::List(items) => int_result("size"@, items.len() as int, v, Val::Null),
        Val::Dict(entries) => int_result("size"@, entries.len() as int, v, Val::Null),
        _ => Err(Fault::NoSuchOverload),
    }
}

/// `string(v)`.
pub open spec fn string_result(v: Val) -> Outcome {
    match v {
        Val::Text(s) => Ok(v),
        Val::Bool(b) => Ok(Val::Text(bool_text(b))),
        Val::Int(i) => Ok(Val::Text(signed_decimal(i as int))),
        Val::UInt(u) => Ok(Val::Text(decimal(u as nat))),
        _ => Err(Fault::NoSuchOverload),
    }
}

/// `bytes(v)`: the UTF-8 encoding of a text.
pub open spec fn bytes_result(v: Val) -> Outcome {
    match v {
        Val::Text(s) => Ok(Val::Bytes(encode_utf8(s))),
        Val::Bytes(b) => Ok(v),
        _ => Err(Fault::NoSuchOverload),
    }
}

/// The functions of one operand.
pub open spec fn is_unary(func: Seq<char>) -> bool {
    ||| func == operators::LOGICAL_NOT@
    ||| func == operators::NEGATE@
    ||| func == operators::NOT_STRICTLY_FALSE@
    ||| func == "size"@
    ||| func == "string"@
    ||| func == "bytes"@
}

/// A function of one operand, applied.
pub open spec fn apply_unary(func: Seq<char>, v: Val) -> Outcome {
    if func == operators::LOGICAL_NOT@ {
        match v {
            Val::Bool(b) => Ok(Val::Bool(!b)),
            _ => Err(Fault::NoSuchOverload),
        }
    } else if func == operators::NEGATE@ {
        negation_of(v)
    } else if func == operators::NOT_STRICTLY_FALSE@ {
        Ok(Val::Bool(v != Val::Bool(false)))
    } else if func == "size"@ {
        size_result(v)
    } else if func == "string"@ {
        string_result(v)
    } else {
        bytes_result(v)
    }
}

/// The functions of two operands that compute a number or join sequences.
pub open spec fn is_arithmetic(func: Seq<char>) -> bool {
    ||| func == operators::ADD@
    ||| func == operators::SUBTRACT@
    ||| func == operators::MULTIPLY@
    ||| func == operators::DIVIDE@
    ||| func == operators::MODULO@
}

/// An arithmetic operator, applied.
pub open spec fn apply_arithmetic(func: Seq<char>, l: Val, r: Val) -> Outcome {
    if func == operators::ADD@ {
        sum_of(l, r)
    } else if func == operators::SUBTRACT@ {
        difference_of(l, r)
    } else if func == operators::MULTIPLY@ {
        product_of(l, r)
    } else if func == operators::DIVIDE@ {
        quotient_of(l, r)
    } else {
        remainder_of(l, r)
    }
}

/// The tests of two operands.
pub open spec fn is_relation(func: Seq<char>) -> bool {
    ||| func == operators::EQUALS@
    ||| func == operators::NOT_EQUALS@
    ||| func == operators::LESS@
    ||| func == operators::LESS_EQUALS@
    ||| func == operators::GREATER@
    ||| func == operators::GREATER_EQUALS@
    ||| func == operators::IN@
}

/// A relation, applied.
pub open spec fn apply_relation(func: Seq<char>, l: Val, r: Val) -> Outcome {
    if func == operators::EQUALS@ {
        Ok(Val::Bool(equal(l, r)))
    } else if func == operators::NOT_EQUALS@ {
        Ok(Val::Bool(!equal(l, r)))
    } else if func == operators::LESS@ {
        order_test(l, r, |sign: int| sign < 0)
    } else if func == operators::LESS_EQUALS@ {
        order_test(l, r, |sign: int| sign <= 0)
    } else if func == operators::GREATER@ {
        order_test(l, r, |sign: int| sign > 0)
    } else if func == operators::GREATER_EQUALS@ {
        order_test(l, r, |sign: int| sign >= 0)
    } else {
        membership(l, r)
    }
}

/// The tests of one text against another.
pub open spec fn is_text_test(func: Seq<char>) -> bool {
    ||| func == "contains"@
    ||| func == "startsWith"@
    ||| func == "endsWith"@
}

/// A text test, applied.
pub open spec fn apply_text_test(func: Seq<char>, l: Val, r: Val) -> Outcome {
    match (l, r) {
        (Val::Text(a), Val::Text(b)) => Ok(
            Val::Bool(
                if func == "contains"@ {
                    occurs_in(a, b)
                } else if func == "startsWith"@ {
                    stands_at(a, b, 0)
                } else {
                    stands_at(a, b, a.len() - b.len())
                },
            ),
        ),
        _ => Err(Fault::NoSuchOverload),
    }
}

/// The functions that can be called on a receiver.
pub open spec fn is_method(func: Seq<char>) -> bool {
    func == "size"@ || is_text_test(func)
}

/// A function applied to its operands, the receiver first.
pub open spec fn apply(func: Seq<char>, operands: Seq<Val>) -> Outcome {
    if is_unary(func) {
        if operands.len() == 1 {
            apply_unary(func, operands[0])
        } else {
            Err(Fault::InvalidArgumentCount { expected: 1, actual: operands.len() as usize })
        }
    } else if is_arithmetic(func) || is_relation(func) || is_text_test(func) || func
        == operators::INDEX@ {
        if operands.len() == 2 {
            let (l, r) = (operands[0], operands[1]);
            if is_arithmetic(func) {
                apply_arithmetic(func, l, r)
            } else if is_relation(func) {
                apply_relation(func, l, r)
            } else if is_text_test(func) {
                apply_text_test(func, l, r)
            } else {
                indexed(l, r)
            }
        } else {
            Err(Fault::InvalidArgumentCount { expected: 2, actual: operands.len() as usize })
        }
    } else {
        Err(Fault::UndeclaredReference(func))
    }
}

/// An integer result, where it fits.
fn checked_int(op: &'static str, n: Option<i64>, l: &Value, r: &Value) -> (res: ResolveResult)
    ensures
        outcome(res) == match n {
            Some(i) => Ok(Val::Int(i)),
            None => Err(Fault::Overflow(op@, l@, r@)),
        },
{
    match n {
        Some(i) => Ok(Value::Int(i)),
        None => Err(ExecutionError::Overflow(op, l.clone(), r.clone())),
    }
}

/// An unsigned integer result, where it fits.
fn checked_uint(op: &'static str, n: Option<u64>, l: &Value, r: &Value) -> (res: ResolveResult)
    ensures
        outcome(res) == match n {
            Some(u) => Ok(Val::UInt(u)),
            None => Err(Fault::Overflow(op@, l@, r@)),
        },
{
    match n {
        Some(u) => Ok(Value::UInt(u)),
        None => Err(ExecutionError::Overflow(op, l.clone(), r.clone())),
    }
}

fn join_lists(x: &Vec<Value>, y: &Vec<Value>) -> (joined: Vec<Value>)
    ensures
        values_model(joined@) == values_model(x@) + values_model(y@),
{
    let mut joined: Vec<Value> = Vec::new();
    let ghost (xs, ys) = (values_model(x@), values_model(y@));
    let mut i: usize = 0;
    while i < x.len()
        invariant
            i <= x@.len(),
            xs == values_model(x@),
            values_model(joined@) =~= xs.take(i as int),
        decreases x@.len() - i,
    {
        let ghost before = values_model(joined@);
        joined.push(x[i].clone());
        assert(values_model(joined@) =~= before.push(xs[i as int]));
        i += 1;
    }
    let mut j: usize = 0;
    while j < y.len()
        invariant
            j <= y@.len(),
            xs == values_model(x@),
            ys == values_model(y@),
            values_model(joined@) =~= xs + ys.take(j as int),
        decreases y@.len() - j,
    {
        let ghost before = values_model(joined@);
        joined.push(y[j].clone());
        assert(values_model(joined@) =~= before.push(ys[j as int]));
        j += 1;
    }
    joined
}

fn join_bytes(x: &Vec<u8>, y: &Vec<u8>) -> (joined: Vec<u8>)
    ensures
        joined@ == x@ + y@,
{
    let mut joined: Vec<u8> = Vec::new();
    joined.extend_from_slice(x.as_slice());
    joined.extend_from_slice(y.as_slice());
    assert(joined@ =~= x@ + y@);
    joined
}

/// Computes [`sum_of`].
pub fn plus(l: &Value, r: &Value) -> (res: ResolveResult)
    ensures
        outcome(res) == sum_of(l@, r@),
{
    match (l, r) {
        (Value::Int(x), Value::Int(y)) => checked_int("add", x.checked_add(*y), l, r),
        (Value::UInt(x), Value::UInt(y)) => checked_uint("add", x.checked_add(*y), l, r),
        (Value::String(x), Value::String(y)) => {
            let mut joined = x.as_str().to_string();
            joined.append(y.as_str());
            Ok(Value::String(Arc::new(joined)))
        },
        (Value::Bytes(x), Value::Bytes(y)) => Ok(Value::Bytes(Arc::new(join_bytes(x, y)))),
        (Value::List(x), Value::List(y)) => {
            assert(l@->List_0 =~= values_model(x@));
            assert(r@->List_0 =~= values_model(y@));
            Ok(Value::list(join_lists(x, y)))
        },
        _ => Err(ExecutionError::NoSuchOverload),
    }
}

/// Computes [`difference_of`].
pub fn minus(l: &Value, r: &Value) -> (res: ResolveResult)
    ensures
        outcome(res) == difference_of(l@, r@),
{
    match (l, r) {
        (Value::Int(x), Value::Int(y)) => checked_int("sub", x.checked_sub(*y), l, r),
        (Value::UInt(x), Value::UInt(y)) => checked_uint("sub", x.checked_sub(*y), l, r),
        _ => Err(ExecutionError::NoSuchOverload),
    }
}

/// Computes [`product_of`].
pub fn times(l: &Value, r: &Value) -> (res: ResolveResult)
    ensures
        outcome(res) == product_of(l@, r@),
{
    match (l, r) {
        (Value::Int(x), Value::Int(y)) => checked_int("mul", x.checked_mul(*y), l, r),
        (Value::UInt(x), Value::UInt(y)) => checked_uint("mul", x.checked_mul(*y), l, r),
        _ => Err(ExecutionError::NoSuchOverload),
    }
}

/// Computes [`quotient_of`].
pub fn divide(l: &Value, r: &Value) -> (res: ResolveResult)
    ensures
        outcome(res) == quotient_of(l@, r@),
{
    match (l, r) {
        (Value::Int(x), Value::Int(y)) => if *y == 0 {
            Err(ExecutionError::DivisionByZero(l.clone()))
        } else {
            checked_int("div", x.checked_div(*y), l, r)
        },
        (Value::UInt(x), Value::UInt(y)) => if *y == 0 {
            Err(ExecutionError::DivisionByZero(l.clone()))
        } else {
            Ok(Value::UInt(*x / *y))
        },
        _ => Err(ExecutionError::NoSuchOverload),
    }
}

/// Computes [`remainder_of`].
pub fn modulo(l: &Value, r: &Value) -> (res: ResolveResult)
    ensures
        outcome(res) == remainder_of(l@, r@),
{
    match (l, r) {
        (Value::Int(x), Value::Int(y)) => if *y == 0 {
            Err(ExecutionError::RemainderByZero(l.clone()))
        } else {
            proof {
                lemma_remainder_fits(*x as int, *y as int);
            }
            checked_int("rem", x.checked_rem(*y), l, r)
        },
        (Value::UInt(x), Value::UInt(y)) => if *y == 0 {
            Err(ExecutionError::RemainderByZero(l.clone()))
        } else {
            Ok(Value::UInt(*x % *y))
        },
        _ => Err(ExecutionError::NoSuchOverload),
    }
}

/// A remainder is smaller than what it is taken of.
proof fn lemma_remainder_fits(x: int, d: int)
    requires
        d != 0,
    ensures
        0 <= magnitude(x) % magnitude(d) <= magnitude(x),
{
    let (a, b) = (magnitude(x), magnitude(d));
    vstd::arithmetic::div_mod::lemma_mod_bound(a, b);
    vstd::arithmetic::div_mod::lemma_mod_decreases(a as nat, b as nat);
}

/// Computes [`negation_of`].
pub fn negate(v: &Value) -> (res: ResolveResult)
    ensures
        outcome(res) == negation_of(v@),
{
    match v {
        Value::Int(x) => if *x == i64::MIN {
            Err(ExecutionError::Overflow("neg", v.clone(), Value::Null))
        } else {
            Ok(Value::Int(-*x))
        },
        _ => Err(ExecutionError::NoSuchOverload),
    }
}

/// Computes [`membership`].
pub fn is_member(l: &Value, r: &Value) -> (res: ResolveResult)
    ensures
        outcome(res) == membership(l@, r@),
{
    match r {
        Value::List(items) => {
            let ghost all = r@->List_0;
            assert(all =~= values_model(items@));
            let mut i: usize = 0;
            while i < items.len()
                invariant
                    i <= items@.len(),
                    *r == Value::List(*items),
                    all == r@->List_0,
                    all == values_model(items@),
                    forall|k: int| 0 <= k < i ==> !equal(#[trigger] all[k], l@),
                decreases items@.len() - i,
            {
                if values_equal(&items[i], l) {
                    assert(equal(all[i as int], l@));
                    return Ok(Value::Bool(true));
                }
                i += 1;
            }
            Ok(Value::Bool(false))
        },
        Value::Dict(entries) => {
            assert(r@->Dict_0 =~= entries_model(entries@));
            match to_key(l) {
                Some(key) => Ok(Value::Bool(position_of_key(entries, &key).is_some())),
                None => Err(ExecutionError::UnsupportedKeyType(l.clone())),
            }
        },
        _ => Err(ExecutionError::NoSuchOverload),
    }
}

/// Computes [`indexed`].
pub fn index_into(l: &Value, r: &Value) -> (res: ResolveResult)
    ensures
        outcome(res) == indexed(l@, r@),
{
    match l {
        Value::List(items) => {
            assert(l@->List_0 =~= values_model(items@));
            match r {
                Value::Int(i) => if *i >= 0 && (*i as u64) < (items.len() as u64) {
                    Ok(items[*i as usize].clone())
                } else {
                    Err(ExecutionError::IndexOutOfBounds(r.clone()))
                },
                Value::UInt(i) => if *i < (items.len() as u64) {
                    Ok(items[*i as usize].clone())
                } else {
                    Err(ExecutionError::IndexOutOfBounds(r.clone()))
                },
                _ => Err(ExecutionError::NoSuchOverload),
            }
        },
        Value::Dict(entries) => {
            assert(l@->Dict_0 =~= entries_model(entries@));
            match to_key(r) {
                Some(key) => match position_of_key(entries, &key) {
                    Some(pos) => Ok(entries[pos].1.clone()),
                    None => Err(ExecutionError::no_such_key(text_of_key(&key).as_str())),
                },
                None => Err(ExecutionError::unsupported_key_type(r.clone())),
            }
        },
        _ => Err(ExecutionError::NoSuchOverload),
    }
}

/// Computes [`selected`].
pub fn select_field(v: &Value, field: &str, test: bool) -> (res: ResolveResult)
    ensures
        outcome(res) == selected(v@, field@, test),
{
    match v {
        Value::Dict(entries) => {
            assert(v@->Dict_0 =~= entries_model(entries@));
            let key = Key::String(Arc::new(field.to_string()));
            match position_of_key(entries, &key) {
                Some(pos) => if test {
                    Ok(Value::Bool(true))
                } else {
                    Ok(entries[pos].1.clone())
                },
                None => if test {
                    Ok(Value::Bool(false))
                } else {
                    Err(ExecutionError::no_such_key(field))
                },
            }
        },
        _ => Err(ExecutionError::NoSuchOverload),
    }
}

/// A size as an integer value.
fn size_value(n: usize, v: &Value) -> (res: ResolveResult)
    ensures
        outcome(res) == int_result("size"@, n as int, v@, Val::Null),
{
    if (n as u64) <= i64::MAX as u64 {
        Ok(Value::Int(n as i64))
    } else {
        Err(ExecutionError::Overflow("size", v.clone(), Value::Null))
    }
}

/// Computes [`size_result`].
pub fn size(v: &Value) -> (res: ResolveResult)
    ensures
        outcome(res) == size_result(v@),
{
    match v {
        Value::String(s) => size_value(s.as_str().unicode_len(), v),
        Value::Bytes(b) => size_value(b.len(), v),
        Value::List(items) => size_value(items.len(), v),
        Value::Dict(entries) => size_value(entries.len(), v),
        _ => Err(ExecutionError::NoSuchOverload),
    }
}

/// Computes [`string_result`].
pub fn to_text(v: &Value) -> (res: ResolveResult)
    ensures
        outcome(res) == string_result(v@),
{
    match v {
        Value::String(_) => Ok(v.clone()),
        Value::Bool(b) => Ok(Value::String(Arc::new(text_of_bool(*b)))),
        Value::Int(i) => Ok(Value::String(Arc::new(signed_decimal_text(*i)))),
        Value::UInt(u) => Ok(Value::String(Arc::new(decimal_text(*u)))),
        _ => Err(ExecutionError::NoSuchOverload),
    }
}

/// Computes [`bytes_result`].
pub fn to_bytes(v: &Value) -> (res: ResolveResult)
    ensures
        outcome(res) == bytes_result(v@),
{
    match v {
        Value::String(s) => Ok(Value::Bytes(Arc::new(s.as_str().as_bytes_vec()))),
        Value::Bytes(_) => Ok(v.clone()),
        _ => Err(ExecutionError::NoSuchOverload),
    }
}

fn names_unary(func: &str) -> (yes: bool)
    ensures
        yes == is_unary(func@),
{
    same_text(func, operators::LOGICAL_NOT) || same_text(func, operators::NEGATE) || same_text(
        func,
        operators::NOT_STRICTLY_FALSE,
    ) || same_text(func, "size") || same_text(func, "string") || same_text(func, "bytes")
}

fn names_arithmetic(func: &str) -> (yes: bool)
    ensures
        yes == is_arithmetic(func@),
{
    same_text(func, operators::ADD) || same_text(func, operators::SUBTRACT) || same_text(
        func,
        operators::MULTIPLY,
    ) || same_text(func, operators::DIVIDE) || same_text(func, operators::MODULO)
}

fn names_relation(func: &str) -> (yes: bool)
    ensures
        yes == is_relation(func@),
{
    same_text(func, operators::EQUALS) || same_text(func, operators::NOT_EQUALS) || same_text(
        func,
        operators::LESS,
    ) || same_text(func, operators::LESS_EQUALS) || same_text(func, operators::GREATER)
        || same_text(func, operators::GREATER_EQUALS) || same_text(func, operators::IN)
}

fn names_text_test(func: &str) -> (yes: bool)
    ensures
        yes == is_text_test(func@),
{
    same_text(func, "contains") || same_text(func, "startsWith") || same_text(func, "endsWith")
}

/// Computes [`is_method`].
pub fn names_method(func: &str) -> (yes: bool)
    ensures
        yes == is_method(func@),
{
    same_text(func, "size") || names_text_test(func)
}

fn call_unary(func: &str, v: &Value) -> (res: ResolveResult)
    requires
        is_unary(func@),
    ensures
        outcome(res) == apply_unary(func@, v@),
{
    if same_text(func, operators::LOGICAL_NOT) {
        match v {
            Value::Bool(b) => Ok(Value::Bool(!*b)),
            _ => Err(ExecutionError::NoSuchOverload),
        }
    } else if same_text(func, operators::NEGATE) {
        negate(v)
    } else if same_text(func, operators::NOT_STRICTLY_FALSE) {
        match v {
            Value::Bool(false) => Ok(Value::Bool(false)),
            _ => Ok(Value::Bool(true)),
        }
    } else if same_text(func, "size") {
        size(v)
    } else if same_text(func, "string") {
        to_text(v)
    } else {
        to_bytes(v)
    }
}

fn call_arithmetic(func: &str, l: &Value, r: &Value) -> (res: ResolveResult)
    requires
        is_arithmetic(func@),
    ensures
        outcome(res) == apply_arithmetic(func@, l@, r@),
{
    if same_text(func, operators::ADD) {
        plus(l, r)
    } else if same_text(func, operators::SUBTRACT) {
        minus(l, r)
    } else if same_text(func, operators::MULTIPLY) {
        times(l, r)
    } else if same_text(func, operators::DIVIDE) {
        divide(l, r)
    } else {
        modulo(l, r)
    }
}

fn call_relation(func: &str, l: &Value, r: &Value) -> (res: ResolveResult)
    requires
        is_relation(func@),
    ensures
        outcome(res) == apply_relation(func@, l@, r@),
{
    if same_text(func, operators::EQUALS) {
        Ok(Value::Bool(values_equal(l, r)))
    } else if same_text(func, operators::NOT_EQUALS) {
        Ok(Value::Bool(!values_equal(l, r)))
    } else if same_text(func, operators::LESS) {
        match values_compare(l, r) {
            Some(sign) => Ok(Value::Bool(sign < 0)),
            None => Err(ExecutionError::NoSuchOverload),
        }
    } else if same_text(func, operators::LESS_EQUALS) {
        match values_compare(l, r) {
            Some(sign) => Ok(Value::Bool(sign <= 0)),
            None => Err(ExecutionError::NoSuchOverload),
        }
    } else if same_text(func, operators::GREATER) {
        match values_compare(l, r) {
            Some(sign) => Ok(Value::Bool(sign > 0)),
            None => Err(ExecutionError::NoSuchOverload),
        }
    } else if same_text(func, operators::GREATER_EQUALS) {
        match values_compare(l, r) {
            Some(sign) => Ok(Value::Bool(sign >= 0)),
            None => Err(ExecutionError::NoSuchOverload),
        }
    } else {
        is_member(l, r)
    }
}

fn call_text_test(func: &str, l: &Value, r: &Value) -> (res: ResolveResult)
    requires
        is_text_test(func@),
    ensures
        outcome(res) == apply_text_test(func@, l@, r@),
{
    match (l, r) {
        (Value::String(a), Value::String(b)) => {
            let (a, b) = (a.as_str(), b.as_str());
            Ok(
                Value::Bool(
                    if same_text(func, "contains") {
                        text_contains(a, b)
                    } else if same_text(func, "startsWith") {
                        text_starts_with(a, b)
                    } else {
                        text_ends_with(a, b)
                    },
                ),
            )
        },
        _ => Err(ExecutionError::NoSuchOverload),
    }
}

/// Computes [`apply`].
pub fn call_function(func: &str, operands: &Vec<Value>) -> (res: ResolveResult)
    ensures
        outcome(res) == apply(func@, values_model(operands@)),
{
    if names_unary(func) {
        if operands.len() == 1 {
            call_unary(func, &operands[0])
        } else {
            Err(ExecutionError::invalid_argument_count(1, operands.len()))
        }
    } else if names_arithmetic(func) || names_relation(func) || names_text_test(func) || same_text(
        func,
        operators::INDEX,
    ) {
        if operands.len() == 2 {
            let (l, r) = (&operands[0], &operands[1]);
            if names_arithmetic(func) {
                call_arithmetic(func, l, r)
            } else if names_relation(func) {
                call_relation(func, l, r)
            } else if names_text_test(func) {
                call_text_test(func, l, r)
            } else {
                index_into(l, r)
            }
        } else {
            Err(ExecutionError::invalid_argument_count(2, operands.len()))
        }
    } else {
        Err(ExecutionError::undeclared_reference(func))
    }
}

} // verus!
