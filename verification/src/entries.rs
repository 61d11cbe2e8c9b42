//! The keys and entries of maps.

use vstd::prelude::*;
use vstd::string::*;
use crate::text::{
    bool_text, decimal, decimal_text, same_text, signed_decimal, signed_decimal_text, text_of_bool,
};
use crate::value::{entries_model, Key, KeyVal, Val, Value};

verus! {

/// The key that a value can serve as.
pub open spec fn key_of(v: Val) -> Option<KeyVal> {
    match v {
        Val::Int(i) => Some(KeyVal::Int(i)),
        Val::UInt(u) => Some(KeyVal::UInt(u)),
        Val::Bool(b) => Some(KeyVal::Bool(b)),
        Val::Text(s) => Some(KeyVal::Text(s)),
        _ => None,
    }
}

/// The value of a key.
pub open spec fn value_of_key(k: KeyVal) -> Val {
    match k {
        KeyVal::Int(i) => Val::Int(i),
        KeyVal::UInt(u) => Val::UInt(u),
        KeyVal::Bool(b) => Val::Bool(b),
        KeyVal::Text(s) => Val::Text(s),
    }
}

/// How a key reads in a message.
pub open spec fn key_text(k: KeyVal) -> Seq<char> {
    match k {
        KeyVal::Int(i) => signed_decimal(i as int),
        KeyVal::UInt(u) => decimal(u as nat),
        KeyVal::Bool(b) => bool_text(b),
        KeyVal::Text(s) => s,
    }
}

/// Two keys are the same key. Integers are compared by their value.
pub open spec fn same_key(a: KeyVal, b: KeyVal) -> bool {
    match (a, b) {
        (KeyVal::Int(x), KeyVal::Int(y)) => x == y,
        (KeyVal::UInt(x), KeyVal::UInt(y)) => x == y,
        (KeyVal::Int(x), KeyVal::UInt(y)) => x as int == y as int,
        (KeyVal::UInt(x), KeyVal::Int(y)) => x as int == y as int,
        (KeyVal::Bool(x), KeyVal::Bool(y)) => x == y,
        (KeyVal::Text(x), KeyVal::Text(y)) => x == y,
        _ => false,
    }
}

/// The position of the first entry under a key, or -1 where there is none.
pub open spec fn find_key(entries: Seq<(KeyVal, Val)>, key: KeyVal) -> int
    decreases entries.len(),
{
    if entries.len() == 0 {
        -1
    } else {
        let before = find_key(entries.drop_last(), key);
        if before >= 0 {
            before
        } else if same_key(entries.last().0, key) {
            entries.len() - 1
        } else {
            -1
        }
    }
}

/// The entries once `key` was bound to `value`.
pub open spec fn with_entry(
    entries: Seq<(KeyVal, Val)>,
    key: KeyVal,
    value: Val,
) -> Seq<(KeyVal, Val)> {
    let pos = find_key(entries, key);
    if pos >= 0 {
        entries.update(pos, (entries[pos].0, value))
    } else {
        entries.push((key, value))
    }
}

/// The entries that come of binding keys to values one after the other.
pub open spec fn bound_in_order(entries: Seq<(KeyVal, Val)>) -> Seq<(KeyVal, Val)>
    decreases entries.len(),
{
    if entries.len() == 0 {
        seq![]
    } else {
        with_entry(bound_in_order(entries.drop_last()), entries.last().0, entries.last().1)
    }
}

/// No two entries have the same key.
pub open spec fn distinct_keys(entries: Seq<(KeyVal, Val)>) -> bool {
    forall|i: int, j: int|
        #![trigger entries[i], entries[j]]
        0 <= i < j < entries.len() ==> !same_key(entries[i].0, entries[j].0)
}

/// The value under a key.
pub open spec fn value_under(entries: Seq<(KeyVal, Val)>, key: KeyVal) -> Option<Val> {
    let pos = find_key(entries, key);
    if pos >= 0 {
        Some(entries[pos].1)
    } else {
        None
    }
}

/// Computes [`key_of`].
pub fn to_key(value: &Value) -> (key: Option<Key>)
    ensures
        match key {
            Some(k) => key_of(value@) == Some(k@),
            None => key_of(value@) is None,
        },
{
    match value {
        Value::Int(i) => Some(Key::Int(*i)),
        Value::UInt(u) => Some(Key::UInt(*u)),
        Value::Bool(b) => Some(Key::Bool(*b)),
        Value::String(s) => Some(Key::String(s.clone())),
        _ => None,
    }
}

/// Computes [`value_of_key`].
pub fn from_key(key: &Key) -> (value: Value)
    ensures
        value@ == value_of_key(key@),
{
    match key {
        Key::Int(i) => Value::Int(*i),
        Key::UInt(u) => Value::UInt(*u),
        Key::Bool(b) => Value::Bool(*b),
        Key::String(s) => Value::String(s.clone()),
    }
}

/// Computes [`key_text`].
pub fn text_of_key(key: &Key) -> (s: String)
    ensures
        s@ == key_text(key@),
{
    match key {
        Key::Int(i) => signed_decimal_text(*i),
        Key::UInt(u) => decimal_text(*u),
        Key::Bool(b) => text_of_bool(*b),
        Key::String(s) => s.as_str().to_string(),
    }
}

fn is_same_key(a: &Key, b: &Key) -> (same: bool)
    ensures
        same == same_key(a@, b@),
{
    match (a, b) {
        (Key::Int(x), Key::Int(y)) => *x == *y,
        (Key::UInt(x), Key::UInt(y)) => *x == *y,
        (Key::Int(x), Key::UInt(y)) => *x >= 0 && (*x as u64) == *y,
        (Key::UInt(x), Key::Int(y)) => *y >= 0 && *x == (*y as u64),
        (Key::Bool(x), Key::Bool(y)) => *x == *y,
        (Key::String(x), Key::String(y)) => same_text(x.as_str(), y.as_str()),
        _ => false,
    }
}

/// Computes [`find_key`].
pub fn position_of_key(entries: &Vec<(Key, Value)>, key: &Key) -> (pos: Option<usize>)
    ensures
        match pos {
            Some(p) => p < entries@.len() && p == find_key(entries_model(entries@), key@),
            None => find_key(entries_model(entries@), key@) == -1,
        },
{
    let ghost all = entries_model(entries@);
    let mut i: usize = 0;
    while i < entries.len()
        invariant
            i <= entries@.len(),
            all == entries_model(entries@),
            find_key(all.take(i as int), key@) == -1,
        decreases entries@.len() - i,
    {
        assert(all.take(i + 1).drop_last() =~= all.take(i as int));
        if is_same_key(&entries[i].0, key) {
            proof {
                lemma_first_found(all, key@, i + 1);
            }
            return Some(i);
        }
        i += 1;
    }
    assert(all.take(all.len() as int) =~= all);
    None
}

/// What is found in a prefix is found in the whole.
proof fn lemma_first_found(entries: Seq<(KeyVal, Val)>, key: KeyVal, n: int)
    requires
        0 <= n <= entries.len(),
        find_key(entries.take(n), key) >= 0,
    ensures
        find_key(entries, key) == find_key(entries.take(n), key),
    decreases entries.len() - n,
{
    if n < entries.len() {
        assert(entries.take(n + 1).drop_last() =~= entries.take(n));
        lemma_first_found(entries, key, n + 1);
    } else {
        assert(entries.take(n) =~= entries);
    }
}

/// A key that is found has its entry.
pub proof fn lemma_find_key(entries: Seq<(KeyVal, Val)>, key: KeyVal)
    ensures
        -1 <= find_key(entries, key) < entries.len(),
        find_key(entries, key) >= 0 ==> same_key(entries[find_key(entries, key)].0, key),
        find_key(entries, key) < 0 ==> forall|i: int|
            0 <= i < entries.len() ==> !same_key(#[trigger] entries[i].0, key),
    decreases entries.len(),
{
    if entries.len() > 0 {
        let init = entries.drop_last();
        lemma_find_key(init, key);
        assert forall|i: int|
            find_key(entries, key) < 0 && 0 <= i < entries.len() implies !same_key(
            #[trigger] entries[i].0,
            key,
        ) by {
            if i < init.len() {
                assert(init[i] == entries[i]);
            }
        }
    }
}

/// Computes [`with_entry`].
pub fn add_entry(entries: &mut Vec<(Key, Value)>, key: Key, value: Value)
    ensures
        entries_model(final(entries)@) == with_entry(entries_model(old(entries)@), key@, value@),
{
    let ghost before = entries_model(entries@);
    match position_of_key(entries, &key) {
        Some(pos) => {
            entries[pos].1 = value;
            assert(entries_model(entries@) =~= before.update(pos as int, (before[pos as int].0, value@)));
        },
        None => {
            entries.push((key, value));
            assert(entries_model(entries@) =~= before.push((key@, value@)));
        },
    }
}

/// Computes [`bound_in_order`].
pub fn bind_in_order(entries: Vec<(Key, Value)>) -> (bound: Vec<(Key, Value)>)
    ensures
        entries_model(bound@) == bound_in_order(entries_model(entries@)),
{
    let ghost all = entries_model(entries@);
    let mut rest = entries;
    let mut bound: Vec<(Key, Value)> = Vec::new();
    let ghost mut n: int = 0;
    assert(entries_model(bound@) =~= bound_in_order(all.take(0)));
    assert(all.skip(0) =~= all);
    while rest.len() > 0
        invariant
            0 <= n,
            n + rest@.len() == all.len(),
            entries_model(rest@) == all.skip(n),
            entries_model(bound@) == bound_in_order(all.take(n)),
        decreases rest@.len(),
    {
        assert(entries_model(rest@)[0] == all[n]);
        assert(all.take(n + 1).drop_last() =~= all.take(n));
        let ghost before = entries_model(rest@);
        let (key, value) = rest.remove(0);
        assert(entries_model(rest@) =~= before.skip(1));
        assert(before.skip(1) =~= all.skip(n + 1));
        add_entry(&mut bound, key, value);
        proof {
            n = n + 1;
        }
    }
    assert(all.take(n) =~= all);
    bound
}

/// Binding a key keeps the keys of a map apart.
pub proof fn law_binding_keeps_keys_apart(entries: Seq<(KeyVal, Val)>, key: KeyVal, value: Val)
    requires
        distinct_keys(entries),
    ensures
        distinct_keys(with_entry(entries, key, value)),
{
    lemma_find_key(entries, key);
    let after = with_entry(entries, key, value);
    assert forall|i: int, j: int|
        #![trigger after[i], after[j]]
        0 <= i < j < after.len() implies !same_key(after[i].0, after[j].0) by {
        assert(after[i].0 == entries[i].0);
        if j < entries.len() {
            assert(after[j].0 == entries[j].0);
        }
    }
}

/// However often keys occur, the map that is built of them holds each once.
pub proof fn law_bound_keys_differ(entries: Seq<(KeyVal, Val)>)
    ensures
        distinct_keys(bound_in_order(entries)),
    decreases entries.len(),
{
    if entries.len() > 0 {
        law_bound_keys_differ(entries.drop_last());
        law_binding_keeps_keys_apart(
            bound_in_order(entries.drop_last()),
            entries.last().0,
            entries.last().1,
        );
    }
}

/// The same key is found at the same place.
proof fn lemma_find_same_key(entries: Seq<(KeyVal, Val)>, a: KeyVal, b: KeyVal)
    requires
        same_key(a, b),
    ensures
        find_key(entries, a) == find_key(entries, b),
    decreases entries.len(),
{
    if entries.len() > 0 {
        lemma_find_same_key(entries.drop_last(), a, b);
    }
}

/// Where a key is found depends on the keys alone.
proof fn lemma_find_by_keys(a: Seq<(KeyVal, Val)>, b: Seq<(KeyVal, Val)>, key: KeyVal)
    requires
        a.len() == b.len(),
        forall|i: int| 0 <= i < a.len() ==> (#[trigger] a[i]).0 == b[i].0,
    ensures
        find_key(a, key) == find_key(b, key),
    decreases a.len(),
{
    if a.len() > 0 {
        let (x, y) = (a.drop_last(), b.drop_last());
        assert forall|i: int| 0 <= i < x.len() implies (#[trigger] x[i]).0 == y[i].0 by {
            assert(a[i].0 == b[i].0);
        }
        lemma_find_by_keys(x, y, key);
        assert(a[a.len() - 1].0 == b[a.len() - 1].0);
    }
}

/// A key that was bound has its new value, and every other key the value that it
/// had before.
pub proof fn law_binding_changes_one_key(
    entries: Seq<(KeyVal, Val)>,
    key: KeyVal,
    value: Val,
    other: KeyVal,
)
    ensures
        value_under(with_entry(entries, key, value), other) == if same_key(key, other) {
            Some(value)
        } else {
            value_under(entries, other)
        },
{
    lemma_find_key(entries, key);
    lemma_find_key(entries, other);
    let after = with_entry(entries, key, value);
    if same_key(key, other) {
        lemma_find_same_key(entries, key, other);
    }
    if find_key(entries, key) >= 0 {
        lemma_find_by_keys(entries, after, other);
    } else {
        assert(after.drop_last() =~= entries);
    }
}

/// Of the values that a key is given, the last one stands.
pub proof fn law_last_value_stands(entries: Seq<(KeyVal, Val)>, i: int)
    requires
        0 <= i < entries.len(),
        forall|j: int|
            i < j < entries.len() ==> !same_key((#[trigger] entries[j]).0, entries[i].0),
    ensures
        value_under(bound_in_order(entries), entries[i].0) == Some(entries[i].1),
    decreases entries.len(),
{
    let init = entries.drop_last();
    law_binding_changes_one_key(
        bound_in_order(init),
        entries.last().0,
        entries.last().1,
        entries[i].0,
    );
    if i < init.len() {
        assert forall|j: int| i < j < init.len() implies !same_key(
            (#[trigger] init[j]).0,
            init[i].0,
        ) by {
            assert(entries[j] == init[j]);
        }
        assert(!same_key(entries[entries.len() - 1].0, entries[i].0));
        law_last_value_stands(init, i);
    }
}

} // verus!
