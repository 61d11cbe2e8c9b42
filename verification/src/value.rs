//! Runtime values and their mathematical model.

use std::sync::Arc;
use vstd::prelude::*;
use vstd::string::*;
use crate::entries::{bind_in_order, bound_in_order, distinct_keys, law_bound_keys_differ};

verus! {

/// The key of a map entry.
#[derive(Debug, PartialEq)]
pub enum Key {
    Int(i64),
    UInt(u64),
    Bool(bool),
    String(Arc<String>),
}

/// A value that an expression evaluates to.
#[derive(Debug, PartialEq)]
pub enum Value {
    Null,
    Bool(bool),
    Int(i64),
    UInt(u64),
    String(Arc<String>),
    Bytes(Arc<Vec<u8>>),
    List(Arc<Vec<Value>>),
    /// A map. No two entries have the same key; [`Value::dict`] sees to that.
    Dict(Arc<Vec<(Key, Value)>>),
    Optional(Option<Arc<Value>>),
}

/// The model of a [`Key`].
pub enum KeyVal {
    Int(i64),
    UInt(u64),
    Bool(bool),
    Text(Seq<char>),
}

/// The model of a [`Value`].
pub enum Val {
    Null,
    Bool(bool),
    Int(i64),
    UInt(u64),
    Text(Seq<char>),
    Bytes(Seq<u8>),
    List(Seq<Val>),
    Dict(Seq<(KeyVal, Val)>),
    Optional(Option<Box<Val>>),
}

impl View for Key {
    type V = KeyVal;

    open spec fn view(&self) -> KeyVal {
        match *self {
            Key::Int(i) => KeyVal::Int(i),
            Key::UInt(u) => KeyVal::UInt(u),
            Key::Bool(b) => KeyVal::Bool(b),
            Key::String(s) => KeyVal::Text(s@),
        }
    }
}

impl Value {
    /// What the value stands for, with every shared buffer read out.
    pub open spec fn model(self) -> Val
        decreases self,
    {
        match self {
            Value::Null => Val::Null,
            Value::Bool(b) => Val::Bool(b),
            Value::Int(i) => Val::Int(i),
            Value::UInt(u) => Val::UInt(u),
            Value::String(s) => Val::Text(s@),
            Value::Bytes(b) => Val::Bytes(b@),
            Value::List(items) => Val::List(
                Seq::new(
                    items@.len(),
                    |i: int|
                        if 0 <= i < items@.len() {
                            items@[i].model()
                        } else {
                            Val::Null
                        },
                ),
            ),
            Value::Dict(entries) => Val::Dict(
                Seq::new(
                    entries@.len(),
                    |i: int|
                        if 0 <= i < entries@.len() {
                            (entries@[i].0@, entries@[i].1.model())
                        } else {
                            (KeyVal::Bool(false), Val::Null)
                        },
                ),
            ),
            Value::Optional(Some(inner)) => Val::Optional(Some(Box::new(inner.model()))),
            Value::Optional(None) => Val::Optional(None),
        }
    }
}

impl View for Value {
    type V = Val;

    open spec fn view(&self) -> Val {
        self.model()
    }
}

impl Clone for Value {
    fn clone(&self) -> (copy: Value)
        ensures
            copy == *self,
    {
        match self {
            Value::Null => Value::Null,
            Value::Bool(b) => Value::Bool(*b),
            Value::Int(i) => Value::Int(*i),
            Value::UInt(u) => Value::UInt(*u),
            Value::String(s) => Value::String(s.clone()),
            Value::Bytes(b) => Value::Bytes(b.clone()),
            Value::List(items) => Value::List(items.clone()),
            Value::Dict(entries) => Value::Dict(entries.clone()),
            Value::Optional(Some(inner)) => Value::Optional(Some(inner.clone())),
            Value::Optional(None) => Value::Optional(None),
        }
    }
}

impl Value {
    /// A string value.
    pub fn text(s: &str) -> (value: Value)
        ensures
            value@ == Val::Text(s@),
    {
        Value::String(Arc::new(s.to_string()))
    }

    /// A list value.
    pub fn list(items: Vec<Value>) -> (value: Value)
        ensures
            value@ == Val::List(values_model(items@)),
    {
        let value = Value::List(Arc::new(items));
        assert(value@->List_0 =~= values_model(items@));
        value
    }

    /// A map value with these entries. Under a key that occurs again, the last
    /// value stands.
    pub fn dict(entries: Vec<(Key, Value)>) -> (value: Value)
        ensures
            value@ == Val::Dict(bound_in_order(entries_model(entries@))),
            distinct_keys(value@->Dict_0),
    {
        let ghost all = entries_model(entries@);
        let bound = bind_in_order(entries);
        proof {
            law_bound_keys_differ(all);
        }
        Value::dict_of_distinct(bound)
    }

    /// A map value with entries whose keys are known to differ.
    pub(crate) fn dict_of_distinct(entries: Vec<(Key, Value)>) -> (value: Value)
        requires
            distinct_keys(entries_model(entries@)),
        ensures
            value@ == Val::Dict(entries_model(entries@)),
    {
        let value = Value::Dict(Arc::new(entries));
        assert(value@->Dict_0 =~= entries_model(entries@));
        value
    }
}

/// The models of a sequence of values.
pub open spec fn values_model(values: Seq<Value>) -> Seq<Val> {
    Seq::new(values.len(), |i: int| values[i]@)
}

/// The models of a sequence of map entries.
pub open spec fn entries_model(entries: Seq<(Key, Value)>) -> Seq<(KeyVal, Val)> {
    Seq::new(entries.len(), |i: int| (entries[i].0@, entries[i].1@))
}

impl From<bool> for Value {
    fn from(b: bool) -> (value: Value) {
        Value::Bool(b)
    }
}

impl vstd::std_specs::convert::FromSpecImpl<bool> for Value {
    open spec fn obeys_from_spec() -> bool {
        true
    }

    open spec fn from_spec(b: bool) -> Value {
        Value::Bool(b)
    }
}

impl From<i64> for Value {
    fn from(i: i64) -> (value: Value) {
        Value::Int(i)
    }
}

impl vstd::std_specs::convert::FromSpecImpl<i64> for Value {
    open spec fn obeys_from_spec() -> bool {
        true
    }

    open spec fn from_spec(i: i64) -> Value {
        Value::Int(i)
    }
}

impl From<u64> for Value {
    fn from(u: u64) -> (value: Value) {
        Value::UInt(u)
    }
}

impl vstd::std_specs::convert::FromSpecImpl<u64> for Value {
    open spec fn obeys_from_spec() -> bool {
        true
    }

    open spec fn from_spec(u: u64) -> Value {
        Value::UInt(u)
    }
}

impl From<String> for Value {
    fn from(s: String) -> (value: Value) {
        Value::String(Arc::new(s))
    }
}

impl vstd::std_specs::convert::FromSpecImpl<String> for Value {
    open spec fn obeys_from_spec() -> bool {
        true
    }

    open spec fn from_spec(s: String) -> Value {
        Value::String(Arc::new(s))
    }
}

impl From<Vec<Value>> for Value {
    fn from(items: Vec<Value>) -> (value: Value) {
        Value::List(Arc::new(items))
    }
}

impl vstd::std_specs::convert::FromSpecImpl<Vec<Value>> for Value {
    open spec fn obeys_from_spec() -> bool {
        true
    }

    open spec fn from_spec(items: Vec<Value>) -> Value {
        Value::List(Arc::new(items))
    }
}

/// The buffer of the value is new, so that only its contents are told.
impl From<&str> for Value {
    fn from(s: &str) -> (value: Value)
        ensures
            value@ == Val::Text(s@),
    {
        Value::text(s)
    }
}

impl vstd::std_specs::convert::FromSpecImpl<&str> for Value {
    open spec fn obeys_from_spec() -> bool {
        false
    }

    open spec fn from_spec(s: &str) -> Value {
        arbitrary()
    }
}

} // verus!
