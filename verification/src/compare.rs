//! Equality and order of values.

use vstd::prelude::*;
use vstd::string::*;
use crate::entries::{find_key, position_of_key};
use crate::text::{chars_of, same_bytes, same_text};
use crate::value::{entries_model, Val, Value};

verus! {

/// Two values are equal. Integers are compared by their value, lists element
/// by element, and maps by what they hold under each key; values of different
/// types are not equal.
pub open spec fn equal(l: Val, r: Val) -> bool
    decreases l,
{
    match (l, r) {
        (Val::Null, Val::Null) => true,
        (Val::Bool(x), Val::Bool(y)) => x == y,
        (Val::Int(x), Val::Int(y)) => x == y,
        (Val::UInt(x), Val::UInt(y)) => x == y,
        (Val::Int(x), Val::UInt(y)) => x as int == y as int,
        (Val::UInt(x), Val::Int(y)) => x as int == y as int,
        (Val::Text(x), Val::Text(y)) => x == y,
        (Val::Bytes(x), Val::Bytes(y)) => x == y,
        (Val::List(x), Val::List(y)) => {
            &&& x.len() == y.len()
            &&& forall|i: int| 0 <= i < x.len() ==> equal(#[trigger] x[i], y[i])
        },
        (Val::Dict(x), Val::Dict(y)) => {
            &&& x.len() == y.len()
            &&& forall|i: int|
                0 <= i < x.len() ==> {
                    let j = find_key(y, (#[trigger] x[i]).0);
                    j >= 0 && equal(x[i].1, y[j].1)
                }
        },
        (Val::Optional(None), Val::Optional(None)) => true,
        (Val::Optional(Some(x)), Val::Optional(Some(y))) => equal(*x, *y),
        _ => false,
    }
}

/// Computes [`equal`].
pub fn values_equal(l: &Value, r: &Value) -> (same: bool)
    ensures
        same == equal(l@, r@),
    decreases l,
{
    match (l, r) {
        (Value::Null, Value::Null) => true,
        (Value::Bool(x), Value::Bool(y)) => *x == *y,
        (Value::Int(x), Value::Int(y)) => *x == *y,
        (Value::UInt(x), Value::UInt(y)) => *x == *y,
        (Value::Int(x), Value::UInt(y)) => *x >= 0 && (*x as u64) == *y,
        (Value::UInt(x), Value::Int(y)) => *y >= 0 && *x == (*y as u64),
        (Value::String(x), Value::String(y)) => same_text(x.as_str(), y.as_str()),
        (Value::Bytes(x), Value::Bytes(y)) => same_bytes(x.as_slice(), y.as_slice()),
        (Value::List(x), Value::List(y)) => {
            let ghost (xs, ys) = (l@->List_0, r@->List_0);
            if x.len() != y.len() {
                return false;
            }
            let n: usize = x.len();
            let mut i: usize = 0;
            while i < n
                invariant
                    *l == Value::List(*x),
                    *r == Value::List(*y),
                    n == x@.len(),
                    n == y@.len(),
                    xs == l@->List_0,
                    ys == r@->List_0,
                    xs.len() == n,
                    ys.len() == n,
                    i <= n,
                    forall|k: int| 0 <= k < i ==> equal(#[trigger] xs[k], ys[k]),
                decreases n - i,
            {
                assert(xs[i as int] == x@[i as int]@);
                assert(ys[i as int] == y@[i as int]@);
                if !values_equal(&x[i], &y[i]) {
                    return false;
                }
                i += 1;
            }
            true
        },
        (Value::Dict(x), Value::Dict(y)) => {
            let ghost (xs, ys) = (l@->Dict_0, r@->Dict_0);
            assert(ys =~= entries_model(y@));
            if x.len() != y.len() {
                return false;
            }
            let n: usize = x.len();
            let mut i: usize = 0;
            while i < n
                invariant
                    *l == Value::Dict(*x),
                    *r == Value::Dict(*y),
                    n == x@.len(),
                    n == y@.len(),
                    xs == l@->Dict_0,
                    ys == r@->Dict_0,
                    ys == entries_model(y@),
                    xs.len() == n,
                    ys.len() == n,
                    i <= n,
                    forall|k: int|
                        0 <= k < i ==> {
                            let j = find_key(ys, (#[trigger] xs[k]).0);
                            j >= 0 && equal(xs[k].1, ys[j].1)
                        },
                decreases n - i,
            {
                assert(xs[i as int] == (x@[i as int].0@, x@[i as int].1@));
                match position_of_key(y, &x[i].0) {
                    None => {
                        return false;
                    },
                    Some(j) => {
                        if !values_equal(&x[i].1, &y[j].1) {
                            assert(ys[j as int].1 == y@[j as int].1@);
                            return false;
                        }
                    },
                }
                i += 1;
            }
            true
        },
        (Value::Optional(None), Value::Optional(None)) => true,
        (Value::Optional(Some(x)), Value::Optional(Some(y))) => values_equal(x, y),
        _ => false,
    }
}

/// The sign of the lexicographic comparison of two sequences of numbers.
pub open spec fn sequence_sign(a: Seq<int>, b: Seq<int>) -> int
    decreases a.len(),
{
    if a.len() == 0 || b.len() == 0 {
        number_sign(a.len() as int, b.len() as int)
    } else if a[0] != b[0] {
        number_sign(a[0], b[0])
    } else {
        sequence_sign(a.skip(1), b.skip(1))
    }
}

/// The sign of the comparison of two numbers.
pub open spec fn number_sign(a: int, b: int) -> int {
    if a < b {
        -1
    } else if a > b {
        1
    } else {
        0
    }
}

/// The code points of a text.
pub open spec fn code_points(s: Seq<char>) -> Seq<int> {
    Seq::new(s.len(), |i: int| s[i] as int)
}

/// The numbers of some bytes.
pub open spec fn byte_numbers(b: Seq<u8>) -> Seq<int> {
    Seq::new(b.len(), |i: int| b[i] as int)
}

/// How two values compare: negative, zero or positive, or `None` where they
/// have no order. Integers compare by their value, text by code points, bytes
/// by their numbers, and `false` comes before `true`.
pub open spec fn comparison(l: Val, r: Val) -> Option<int> {
    match (l, r) {
        (Val::Int(x), Val::Int(y)) => Some(number_sign(x as int, y as int)),
        (Val::UInt(x), Val::UInt(y)) => Some(number_sign(x as int, y as int)),
        (Val::Int(x), Val::UInt(y)) => Some(number_sign(x as int, y as int)),
        (Val::UInt(x), Val::Int(y)) => Some(number_sign(x as int, y as int)),
        (Val::Bool(x), Val::Bool(y)) => Some(
            number_sign(
                if x {
                    1
                } else {
                    0
                },
                if y {
                    1
                } else {
                    0
                },
            ),
        ),
        (Val::Text(x), Val::Text(y)) => Some(sequence_sign(code_points(x), code_points(y))),
        (Val::Bytes(x), Val::Bytes(y)) => Some(sequence_sign(byte_numbers(x), byte_numbers(y))),
        _ => None,
    }
}

/// The first position where two sequences differ decides their comparison.
proof fn lemma_sign_after_prefix(a: Seq<int>, b: Seq<int>, n: int)
    requires
        0 <= n <= a.len(),
        n <= b.len(),
        forall|k: int| 0 <= k < n ==> a[k] == b[k],
    ensures
        sequence_sign(a, b) == sequence_sign(a.skip(n), b.skip(n)),
    decreases n,
{
    if n > 0 {
        lemma_sign_after_prefix(a.skip(1), b.skip(1), n - 1);
        assert(a.skip(1).skip(n - 1) =~= a.skip(n));
        assert(b.skip(1).skip(n - 1) =~= b.skip(n));
    } else {
        assert(a.skip(0) =~= a);
        assert(b.skip(0) =~= b);
    }
}

fn sign_of(a: i128, b: i128) -> (sign: i8)
    ensures
        sign == number_sign(a as int, b as int),
{
    if a < b {
        -1
    } else if a > b {
        1
    } else {
        0
    }
}

fn code_point(c: char) -> (code: u32)
    ensures
        code == c as int,
{
    c as u32
}

fn text_sign(a: &str, b: &str) -> (sign: i8)
    ensures
        sign == sequence_sign(code_points(a@), code_points(b@)),
{
    let (x, y) = (chars_of(a), chars_of(b));
    let ghost (xs, ys) = (code_points(a@), code_points(b@));
    let mut i: usize = 0;
    while i < x.len() && i < y.len()
        invariant
            x@ == a@,
            y@ == b@,
            xs == code_points(a@),
            ys == code_points(b@),
            i <= x@.len(),
            i <= y@.len(),
            forall|k: int| 0 <= k < i ==> xs[k] == ys[k],
        decreases x@.len() - i,
    {
        proof {
            lemma_sign_after_prefix(xs, ys, i as int);
        }
        let p: u32 = code_point(x[i]);
        let q: u32 = code_point(y[i]);
        if p != q {
            return sign_of(p as i128, q as i128);
        }
        i += 1;
    }
    proof {
        lemma_sign_after_prefix(xs, ys, i as int);
    }
    sign_of((x.len() - i) as i128, (y.len() - i) as i128)
}

fn bytes_sign(x: &Vec<u8>, y: &Vec<u8>) -> (sign: i8)
    ensures
        sign == sequence_sign(byte_numbers(x@), byte_numbers(y@)),
{
    let ghost (xs, ys) = (byte_numbers(x@), byte_numbers(y@));
    let mut i: usize = 0;
    while i < x.len() && i < y.len()
        invariant
            xs == byte_numbers(x@),
            ys == byte_numbers(y@),
            i <= x@.len(),
            i <= y@.len(),
            forall|k: int| 0 <= k < i ==> xs[k] == ys[k],
        decreases x@.len() - i,
    {
        proof {
            lemma_sign_after_prefix(xs, ys, i as int);
        }
        if x[i] != y[i] {
            return sign_of(x[i] as i128, y[i] as i128);
        }
        i += 1;
    }
    proof {
        lemma_sign_after_prefix(xs, ys, i as int);
    }
    sign_of((x.len() - i) as i128, (y.len() - i) as i128)
}

/// Computes [`comparison`].
pub fn values_compare(l: &Value, r: &Value) -> (sign: Option<i8>)
    ensures
        match sign {
            Some(s) => comparison(l@, r@) == Some(s as int),
            None => comparison(l@, r@) is None,
        },
{
    match (l, r) {
        (Value::Int(x), Value::Int(y)) => Some(sign_of(*x as i128, *y as i128)),
        (Value::UInt(x), Value::UInt(y)) => Some(sign_of(*x as i128, *y as i128)),
        (Value::Int(x), Value::UInt(y)) => Some(sign_of(*x as i128, *y as i128)),
        (Value::UInt(x), Value::Int(y)) => Some(sign_of(*x as i128, *y as i128)),
        (Value::Bool(x), Value::Bool(y)) => Some(
            sign_of(
                if *x {
                    1
                } else {
                    0
                },
                if *y {
                    1
                } else {
                    0
                },
            ),
        ),
        (Value::String(x), Value::String(y)) => Some(text_sign(x.as_str(), y.as_str())),
        (Value::Bytes(x), Value::Bytes(y)) => Some(bytes_sign(x, y)),
        _ => None,
    }
}

} // verus!
