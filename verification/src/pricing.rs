//! What a call costs under the standard model.
//!
//! A call is charged according to the amount of data that it traverses: the
//! sizes of its arguments, taken in tenths for text that is read once.

use vstd::prelude::*;
use vstd::string::*;
use crate::operators;
use crate::rounding::{quarter_rounded_up, quarter_up, tenth_rounded_up, tenth_up};
use crate::text::same_text;
use crate::value::{Val, Value};

verus! {

/// The number of elements that a traversal of the value visits. An optional
/// value counts as what it holds; a value without elements counts as one.
pub open spec fn size_of(v: Val) -> nat
    decreases v,
{
    match v {
        Val::Text(s) => s.len(),
        Val::Bytes(b) => b.len(),
        Val::List(items) => items.len(),
        Val::Dict(entries) => entries.len(),
        Val::Optional(Some(inner)) => size_of(*inner),
        _ => 1,
    }
}

/// Computes [`size_of`].
pub fn actual_size(value: &Value) -> (size: u64)
    ensures
        size == size_of(value@),
    decreases value,
{
    match value {
        Value::String(s) => s.as_str().unicode_len() as u64,
        Value::Bytes(b) => b.len() as u64,
        Value::List(items) => items.len() as u64,
        Value::Dict(entries) => entries.len() as u64,
        Value::Optional(Some(inner)) => actual_size(inner),
        _ => 1,
    }
}

/// The cost of reading `size` characters once.
pub fn traversal(size: u64) -> (cost: u64)
    ensures
        cost == tenth_rounded_up(size as nat),
{
    tenth_up(size)
}

/// `n`, or the largest cost where `n` is larger.
pub open spec fn saturated(n: nat) -> u64 {
    if n > u64::MAX {
        u64::MAX
    } else {
        n as u64
    }
}

/// The functions that read their first argument once.
pub open spec fn reads_first(function: Seq<char>) -> bool {
    ||| function == "startsWith"@
    ||| function == "endsWith"@
    ||| function == "bytes"@
    ||| function == "string"@
    ||| function == "quote"@
    ||| function == "format"@
}

/// The operators that compare two values.
pub open spec fn compares(function: Seq<char>) -> bool {
    ||| function == operators::EQUALS@
    ||| function == operators::NOT_EQUALS@
    ||| function == operators::LESS@
    ||| function == operators::LESS_EQUALS@
    ||| function == operators::GREATER@
    ||| function == operators::GREATER_EQUALS@
}

/// How many arguments the standard model reads of a call.
pub open spec fn arguments_read(function: Seq<char>) -> nat {
    if reads_first(function) {
        1
    } else if function == operators::IN@ || compares(function) {
        2
    } else {
        0
    }
}

/// The cost of a call under the standard model.
pub open spec fn standard_cost(function: Seq<char>, args: Seq<Val>) -> u64
    recommends
        args.len() >= arguments_read(function),
{
    if reads_first(function) {
        tenth_rounded_up(size_of(args[0])) as u64
    } else if function == operators::IN@ {
        size_of(args[1]) as u64
    } else if compares(function) {
        let (a, b) = (size_of(args[0]), size_of(args[1]));
        tenth_rounded_up(if a <= b { a } else { b }) as u64
    } else if function == operators::ADD@ && args.len() == 2 && (args[0] is Text
        || args[0] is Bytes) {
        tenth_rounded_up(saturated(size_of(args[0]) + size_of(args[1])) as nat) as u64
    } else if function == "matches"@ && args.len() >= 2 {
        saturated(
            tenth_rounded_up(saturated(size_of(args[0]) + 1) as nat) * quarter_rounded_up(
                size_of(args[1]),
            ),
        )
    } else if function == "contains"@ && args.len() >= 2 {
        saturated(tenth_rounded_up(size_of(args[0])) * tenth_rounded_up(size_of(args[1])))
    } else {
        1
    }
}

/// The models of a sequence of borrowed values.
pub open spec fn seen(args: Seq<&Value>) -> Seq<Val> {
    Seq::new(args.len(), |i: int| args[i]@)
}

/// Multiplies, stopping at the largest cost.
fn saturating_product(a: u64, b: u64) -> (c: u64)
    ensures
        c == saturated((a as nat) * (b as nat)),
{
    match a.checked_mul(b) {
        Some(c) => c,
        None => u64::MAX,
    }
}

fn is_reader_of_first(function: &str) -> (yes: bool)
    ensures
        yes == reads_first(function@),
{
    same_text(function, "startsWith") || same_text(function, "endsWith") || same_text(
        function,
        "bytes",
    ) || same_text(function, "string") || same_text(function, "quote") || same_text(
        function,
        "format",
    )
}

fn is_comparison(function: &str) -> (yes: bool)
    ensures
        yes == compares(function@),
{
    same_text(function, operators::EQUALS) || same_text(function, operators::NOT_EQUALS)
        || same_text(function, operators::LESS) || same_text(function, operators::LESS_EQUALS)
        || same_text(function, operators::GREATER) || same_text(
        function,
        operators::GREATER_EQUALS,
    )
}

fn is_text_or_bytes(value: &Value) -> (yes: bool)
    ensures
        yes == (value@ is Text || value@ is Bytes),
{
    match value {
        Value::String(_) => true,
        Value::Bytes(_) => true,
        _ => false,
    }
}

/// Computes [`standard_cost`].
pub fn standard_call_cost(function: &str, args: &[&Value]) -> (cost: u64)
    requires
        args@.len() >= arguments_read(function@),
    ensures
        cost == standard_cost(function@, seen(args@)),
{
    if is_reader_of_first(function) {
        traversal(actual_size(args[0]))
    } else if same_text(function, operators::IN) {
        actual_size(args[1])
    } else if is_comparison(function) {
        let a: u64 = actual_size(args[0]);
        let b: u64 = actual_size(args[1]);
        traversal(
            if a <= b {
                a
            } else {
                b
            },
        )
    } else if same_text(function, operators::ADD) && args.len() == 2 && is_text_or_bytes(args[0]) {
        traversal(actual_size(args[0]).saturating_add(actual_size(args[1])))
    } else if same_text(function, "matches") && args.len() >= 2 {
        saturating_product(
            traversal(actual_size(args[0]).saturating_add(1)),
            quarter_up(actual_size(args[1])),
        )
    } else if same_text(function, "contains") && args.len() >= 2 {
        saturating_product(traversal(actual_size(args[0])), traversal(actual_size(args[1])))
    } else {
        1
    }
}

} // verus!
