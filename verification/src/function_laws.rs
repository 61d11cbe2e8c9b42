//! What the operators and functions of the language do.
//!
//! The laws name every operator and function as it stands in the expression
//! tree, and relate the results of applying it to its operands.

use vstd::prelude::*;
use vstd::utf8::encode_utf8;
use crate::compare::{comparison, equal, sequence_sign};
use crate::entries::{
    find_key, key_of, law_binding_changes_one_key, lemma_find_key, same_key, value_of_key,
    with_entry,
};
use crate::error::{Fault, Outcome};
use crate::functions::{apply, membership, selected};
use crate::text::{decimal, occurs_in, signed_decimal, stands_at};
use crate::value::{KeyVal, Val};

verus! {

/// How the names of the operators and functions are spelled, as far as it keeps
/// them apart.
pub(crate) proof fn lemma_spellings()
    ensures
        "_?_:_"@.len() == 5 && "_?_:_"@[0] == '_',
        "_&&_"@.len() == 4 && "_&&_"@[0] == '_' && "_&&_"@[1] == '&',
        "_||_"@.len() == 4 && "_||_"@[0] == '_' && "_||_"@[1] == '|',
        "!_"@.len() == 2 && "!_"@[0] == '!',
        "-_"@.len() == 2 && "-_"@[0] == '-',
        "_==_"@.len() == 4 && "_==_"@[0] == '_' && "_==_"@[1] == '=',
        "_!=_"@.len() == 4 && "_!=_"@[0] == '_' && "_!=_"@[1] == '!',
        "_<=_"@.len() == 4 && "_<=_"@[0] == '_' && "_<=_"@[1] == '<',
        "_>=_"@.len() == 4 && "_>=_"@[0] == '_' && "_>=_"@[1] == '>',
        "_[_]"@.len() == 4 && "_[_]"@[0] == '_' && "_[_]"@[1] == '[',
        "_<_"@.len() == 3 && "_<_"@[0] == '_' && "_<_"@[1] == '<',
        "_>_"@.len() == 3 && "_>_"@[0] == '_' && "_>_"@[1] == '>',
        "_+_"@.len() == 3 && "_+_"@[0] == '_' && "_+_"@[1] == '+',
        "_-_"@.len() == 3 && "_-_"@[0] == '_' && "_-_"@[1] == '-',
        "_*_"@.len() == 3 && "_*_"@[0] == '_' && "_*_"@[1] == '*',
        "_/_"@.len() == 3 && "_/_"@[0] == '_' && "_/_"@[1] == '/',
        "_%_"@.len() == 3 && "_%_"@[0] == '_' && "_%_"@[1] == '%',
        "@in"@.len() == 3 && "@in"@[0] == '@',
        "@not_strictly_false"@.len() == 19,
        "size"@.len() == 4 && "size"@[0] == 's',
        "string"@.len() == 6 && "string"@[0] == 's',
        "bytes"@.len() == 5 && "bytes"@[0] == 'b',
        "quote"@.len() == 5 && "quote"@[0] == 'q',
        "format"@.len() == 6 && "format"@[0] == 'f',
        "matches"@.len() == 7,
        "contains"@.len() == 8 && "contains"@[0] == 'c',
        "endsWith"@.len() == 8 && "endsWith"@[0] == 'e',
        "startsWith"@.len() == 10,
{
    reveal_strlit("_?_:_");
    reveal_strlit("_&&_");
    reveal_strlit("_||_");
    reveal_strlit("!_");
    reveal_strlit("-_");
    reveal_strlit("_==_");
    reveal_strlit("_!=_");
    reveal_strlit("_<=_");
    reveal_strlit("_>=_");
    reveal_strlit("_[_]");
    reveal_strlit("_<_");
    reveal_strlit("_>_");
    reveal_strlit("_+_");
    reveal_strlit("_-_");
    reveal_strlit("_*_");
    reveal_strlit("_/_");
    reveal_strlit("_%_");
    reveal_strlit("@in");
    reveal_strlit("@not_strictly_false");
    reveal_strlit("size");
    reveal_strlit("string");
    reveal_strlit("bytes");
    reveal_strlit("quote");
    reveal_strlit("format");
    reveal_strlit("matches");
    reveal_strlit("contains");
    reveal_strlit("endsWith");
    reveal_strlit("startsWith");
}

/// Applies a function of two operands.
pub open spec fn applied(func: Seq<char>, l: Val, r: Val) -> Outcome {
    apply(func, seq![l, r])
}

/// The value is the integer `x`, signed or not.
pub open spec fn is_number(v: Val, x: int) -> bool {
    match v {
        Val::Int(i) => i == x,
        Val::UInt(u) => u == x,
        _ => false,
    }
}

/// The order tests of two integers are those of the numbers, whether the
/// integers are signed or not.
pub proof fn law_integers_are_ordered_by_value(l: Val, r: Val, x: int, y: int)
    requires
        is_number(l, x),
        is_number(r, y),
    ensures
        applied("_<_"@, l, r) == Ok::<Val, Fault>(Val::Bool(x < y)),
        applied("_<=_"@, l, r) == Ok::<Val, Fault>(Val::Bool(x <= y)),
        applied("_>_"@, l, r) == Ok::<Val, Fault>(Val::Bool(x > y)),
        applied("_>=_"@, l, r) == Ok::<Val, Fault>(Val::Bool(x >= y)),
        applied("_==_"@, l, r) == Ok::<Val, Fault>(Val::Bool(x == y)),
        applied("_!=_"@, l, r) == Ok::<Val, Fault>(Val::Bool(x != y)),
{
    lemma_spellings();
}

/// Of any two values, `>=` is the negation of `<`, `<=` that of `>`, and `!=`
/// that of `==`; and `>` is `<` with the operands exchanged. Either all order
/// tests of the two values have an answer or none has.
pub proof fn law_order_tests_agree(l: Val, r: Val)
    ensures
        applied("_<_"@, l, r) matches Ok(v) ==> {
            &&& v is Bool
            &&& applied("_>=_"@, l, r) == Ok::<Val, Fault>(Val::Bool(!v->Bool_0))
            &&& applied("_>_"@, r, l) == Ok::<Val, Fault>(v)
            &&& applied("_<=_"@, r, l) == Ok::<Val, Fault>(Val::Bool(!v->Bool_0))
        },
        applied("_<_"@, l, r) is Err ==> {
            &&& applied("_<_"@, l, r) == Err::<Val, Fault>(Fault::NoSuchOverload)
            &&& applied("_<=_"@, l, r) == Err::<Val, Fault>(Fault::NoSuchOverload)
            &&& applied("_>_"@, l, r) == Err::<Val, Fault>(Fault::NoSuchOverload)
            &&& applied("_>=_"@, l, r) == Err::<Val, Fault>(Fault::NoSuchOverload)
        },
        applied("_==_"@, l, r) matches Ok(v) && v is Bool && applied("_!=_"@, l, r) == Ok::<
            Val,
            Fault,
        >(Val::Bool(!v->Bool_0)),
{
    lemma_spellings();
    lemma_comparison_turns(l, r);
}

/// Comparing the other way round turns the sign.
proof fn lemma_sequence_sign_turns(a: Seq<int>, b: Seq<int>)
    ensures
        sequence_sign(b, a) == -sequence_sign(a, b),
        -1 <= sequence_sign(a, b) <= 1,
    decreases a.len(),
{
    if a.len() > 0 && b.len() > 0 && a[0] == b[0] {
        lemma_sequence_sign_turns(a.skip(1), b.skip(1));
    }
}

proof fn lemma_comparison_turns(l: Val, r: Val)
    ensures
        comparison(l, r) matches Some(sign) ==> comparison(r, l) == Some(-sign) && -1 <= sign <= 1,
        comparison(l, r) is None ==> comparison(r, l) is None,
{
    match (l, r) {
        (Val::Text(x), Val::Text(y)) => {
            lemma_sequence_sign_turns(
                crate::compare::code_points(x),
                crate::compare::code_points(y),
            );
        },
        (Val::Bytes(x), Val::Bytes(y)) => {
            lemma_sequence_sign_turns(
                crate::compare::byte_numbers(x),
                crate::compare::byte_numbers(y),
            );
        },
        _ => {},
    }
}

/// The order of texts is that of a dictionary, by code points: a text comes
/// before every longer text that begins with it, and the first character in
/// which two texts differ decides.
pub proof fn law_texts_are_ordered_as_in_a_dictionary(
    p: Seq<char>,
    c: char,
    d: char,
    s: Seq<char>,
    t: Seq<char>,
)
    ensures
        applied("_<_"@, Val::Text(p), Val::Text(p)) == Ok::<Val, Fault>(Val::Bool(false)),
        applied("_<_"@, Val::Text(p), Val::Text(p + seq![c] + s)) == Ok::<Val, Fault>(
            Val::Bool(true),
        ),
        c != d ==> applied("_<_"@, Val::Text(p + seq![c] + s), Val::Text(p + seq![d] + t)) == Ok::<
            Val,
            Fault,
        >(Val::Bool((c as int) < (d as int))),
{
    lemma_spellings();
    let (x, y, z) = (
        crate::compare::code_points(p),
        crate::compare::code_points(p + seq![c] + s),
        crate::compare::code_points(p + seq![d] + t),
    );
    let n = p.len() as int;
    lemma_sign_past_prefix(x, x, n);
    lemma_sign_past_prefix(x, y, n);
    assert((p + seq![c] + s)[n] == c);
    assert((p + seq![d] + t)[n] == d);
    lemma_sign_past_prefix(y, z, n);
    assert(y.skip(n)[0] == c as int);
    assert(z.skip(n)[0] == d as int);
}

/// The order of bytes is that of a dictionary, by their numbers.
pub proof fn law_bytes_are_ordered_as_in_a_dictionary(
    p: Seq<u8>,
    c: u8,
    d: u8,
    s: Seq<u8>,
    t: Seq<u8>,
)
    ensures
        applied("_<_"@, Val::Bytes(p), Val::Bytes(p)) == Ok::<Val, Fault>(Val::Bool(false)),
        applied("_<_"@, Val::Bytes(p), Val::Bytes(p + seq![c] + s)) == Ok::<Val, Fault>(
            Val::Bool(true),
        ),
        c != d ==> applied("_<_"@, Val::Bytes(p + seq![c] + s), Val::Bytes(p + seq![d] + t))
            == Ok::<Val, Fault>(Val::Bool(c < d)),
{
    lemma_spellings();
    let (x, y, z) = (
        crate::compare::byte_numbers(p),
        crate::compare::byte_numbers(p + seq![c] + s),
        crate::compare::byte_numbers(p + seq![d] + t),
    );
    let n = p.len() as int;
    lemma_sign_past_prefix(x, x, n);
    lemma_sign_past_prefix(x, y, n);
    assert((p + seq![c] + s)[n] == c);
    assert((p + seq![d] + t)[n] == d);
    lemma_sign_past_prefix(y, z, n);
    assert(y.skip(n)[0] == c as int);
    assert(z.skip(n)[0] == d as int);
}

/// A common beginning plays no part in a comparison.
proof fn lemma_sign_past_prefix(a: Seq<int>, b: Seq<int>, n: int)
    requires
        0 <= n <= a.len(),
        n <= b.len(),
        forall|k: int| 0 <= k < n ==> a[k] == b[k],
    ensures
        sequence_sign(a, b) == sequence_sign(a.skip(n), b.skip(n)),
    decreases n,
{
    if n > 0 {
        lemma_sign_past_prefix(a.skip(1), b.skip(1), n - 1);
        assert(a.skip(1).skip(n - 1) =~= a.skip(n));
        assert(b.skip(1).skip(n - 1) =~= b.skip(n));
    } else {
        assert(a.skip(0) =~= a);
        assert(b.skip(0) =~= b);
    }
}

/// What can be ordered: two numbers, two texts, two byte strings or two truth
/// values, of which `false` comes first. Nothing else has an order.
pub proof fn law_only_like_values_have_an_order(l: Val, r: Val)
    ensures
        applied("_<_"@, l, r) is Ok <==> {
            ||| (l is Int || l is UInt) && (r is Int || r is UInt)
            ||| l is Text && r is Text
            ||| l is Bytes && r is Bytes
            ||| l is Bool && r is Bool
        },
        l matches Val::Bool(x) ==> r matches Val::Bool(y) ==> applied("_<_"@, l, r) == Ok::<
            Val,
            Fault,
        >(Val::Bool(!x && y)),
{
    lemma_spellings();
}

/// The result of an integer operation is exact, or an overflow that tells the
/// operation and its operands.
pub open spec fn exact_or_overflow(
    result: Outcome,
    op: Seq<char>,
    n: int,
    signed: bool,
    l: Val,
    r: Val,
) -> bool {
    if signed {
        if -0x8000_0000_0000_0000 <= n <= 0x7fff_ffff_ffff_ffff {
            result == Ok::<Val, Fault>(Val::Int(n as i64))
        } else {
            result == Err::<Val, Fault>(Fault::Overflow(op, l, r))
        }
    } else {
        if 0 <= n <= 0xffff_ffff_ffff_ffff {
            result == Ok::<Val, Fault>(Val::UInt(n as u64))
        } else {
            result == Err::<Val, Fault>(Fault::Overflow(op, l, r))
        }
    }
}

/// Sums, differences and products of integers of one kind are exact where they
/// fit, and an overflow where they do not.
pub proof fn law_integer_arithmetic_is_exact(l: Val, r: Val, x: int, y: int, signed: bool)
    requires
        is_number(l, x),
        is_number(r, y),
        signed ==> l is Int && r is Int,
        !signed ==> l is UInt && r is UInt,
    ensures
        exact_or_overflow(applied("_+_"@, l, r), "add"@, x + y, signed, l, r),
        exact_or_overflow(applied("_-_"@, l, r), "sub"@, x - y, signed, l, r),
        exact_or_overflow(applied("_*_"@, l, r), "mul"@, x * y, signed, l, r),
{
    lemma_spellings();
}

/// Division and remainder belong together: the quotient times the divisor and
/// the remainder make up the dividend, the remainder is smaller than the
/// divisor, and it has the sign of the dividend. Division by zero is an error,
/// and so is the one quotient that does not fit.
pub proof fn law_division_has_its_remainder(x: i64, y: i64)
    ensures
        ({
            let (l, r) = (Val::Int(x), Val::Int(y));
            let (q, m) = (applied("_/_"@, l, r), applied("_%_"@, l, r));
            if y == 0 {
                &&& q == Err::<Val, Fault>(Fault::DivisionByZero(l))
                &&& m == Err::<Val, Fault>(Fault::RemainderByZero(l))
            } else if x == -0x8000_0000_0000_0000 && y == -1 {
                &&& q == Err::<Val, Fault>(Fault::Overflow("div"@, l, r))
                &&& m == Err::<Val, Fault>(Fault::Overflow("rem"@, l, r))
            } else {
                &&& q matches Ok(Val::Int(_))
                &&& m matches Ok(Val::Int(_))
                &&& (q->Ok_0->Int_0) * y + m->Ok_0->Int_0 == x
                &&& m->Ok_0->Int_0 < (if y < 0 {
                    -(y as int)
                } else {
                    y as int
                })
                &&& -(m->Ok_0->Int_0 as int) < (if y < 0 {
                    -(y as int)
                } else {
                    y as int
                })
                &&& x >= 0 ==> m->Ok_0->Int_0 >= 0
                &&& x <= 0 ==> m->Ok_0->Int_0 <= 0
            }
        }),
{
    lemma_spellings();
    if y != 0 {
        lemma_division(x as int, y as int);
    }
}

proof fn lemma_division(x: int, y: int)
    requires
        y != 0,
        -0x8000_0000_0000_0000 <= x <= 0x7fff_ffff_ffff_ffff,
        -0x8000_0000_0000_0000 <= y <= 0x7fff_ffff_ffff_ffff,
    ensures
        ({
            let q = crate::functions::quotient(x, y);
            let m = crate::functions::remainder(x, y);
            let d = crate::functions::magnitude(y);
            &&& q * y + m == x
            &&& -d < m < d
            &&& x >= 0 ==> m >= 0
            &&& x <= 0 ==> m <= 0
            &&& -crate::functions::magnitude(x) <= q <= crate::functions::magnitude(x)
            &&& q == 0x8000_0000_0000_0000 <==> x == -0x8000_0000_0000_0000 && y == -1
        }),
{
    let (a, d) = (crate::functions::magnitude(x), crate::functions::magnitude(y));
    let (k, m) = (a / d, a % d);
    vstd::arithmetic::div_mod::lemma_fundamental_div_mod(a, d);
    vstd::arithmetic::div_mod::lemma_mod_bound(a, d);
    assert(d * k + m == a);
    assert(k >= 0 && k <= a) by (nonlinear_arith)
        requires
            d * k + m == a,
            0 <= m < d,
            a >= 0,
    ;
    assert(d >= 2 ==> 2 * k <= a) by (nonlinear_arith)
        requires
            d * k + m == a,
            0 <= m < d,
            k >= 0,
    ;
    assert(d == 1 ==> k == a) by (nonlinear_arith)
        requires
            d * k + m == a,
            0 <= m < d,
    ;
    assert(d * k == k * d) by (nonlinear_arith);
    assert((-k) * (-d) == k * d) by (nonlinear_arith);
    assert((-k) * d == -(k * d)) by (nonlinear_arith);
    assert(k * (-d) == -(k * d)) by (nonlinear_arith);
}

/// The same for unsigned integers.
pub proof fn law_unsigned_division_has_its_remainder(x: u64, y: u64)
    ensures
        ({
            let (l, r) = (Val::UInt(x), Val::UInt(y));
            let (q, m) = (applied("_/_"@, l, r), applied("_%_"@, l, r));
            if y == 0 {
                &&& q == Err::<Val, Fault>(Fault::DivisionByZero(l))
                &&& m == Err::<Val, Fault>(Fault::RemainderByZero(l))
            } else {
                &&& q matches Ok(Val::UInt(_))
                &&& m matches Ok(Val::UInt(_))
                &&& (q->Ok_0->UInt_0) * y + m->Ok_0->UInt_0 == x
                &&& m->Ok_0->UInt_0 < y
            }
        }),
{
    lemma_spellings();
    if y != 0 {
        let (a, d) = (x as int, y as int);
        vstd::arithmetic::div_mod::lemma_fundamental_div_mod(a, d);
        vstd::arithmetic::div_mod::lemma_mod_bound(a, d);
        let (k, m) = (a / d, a % d);
        assert(d * k == k * d) by (nonlinear_arith);
        assert(k >= 0 && k <= a) by (nonlinear_arith)
            requires
                d * k + m == a,
                0 <= m < d,
                a >= 0,
        ;
    }
}

/// `-v` is the difference of zero and `v`; the smallest integer has no negation.
pub proof fn law_negation_is_subtraction_from_zero(x: i64)
    ensures
        x > -0x8000_0000_0000_0000 ==> apply("-_"@, seq![Val::Int(x)]) == Ok::<Val, Fault>(
            Val::Int((0 - x) as i64),
        ) && apply("-_"@, seq![Val::Int(x)]) == applied("_-_"@, Val::Int(0), Val::Int(x)),
        x == -0x8000_0000_0000_0000 ==> apply("-_"@, seq![Val::Int(x)]) == Err::<Val, Fault>(
            Fault::Overflow("neg"@, Val::Int(x), Val::Null),
        ),
{
    lemma_spellings();
}

/// Joining sequences: the parts of the sum are its operands, in order.
pub proof fn law_sums_join_sequences(
    a: Seq<char>,
    b: Seq<char>,
    c: Seq<u8>,
    d: Seq<u8>,
    e: Seq<Val>,
    f: Seq<Val>,
)
    ensures
        applied("_+_"@, Val::Text(a), Val::Text(b)) matches Ok(Val::Text(s)) && s.len() == a.len()
            + b.len() && s.take(a.len() as int) == a && s.skip(a.len() as int) == b,
        applied("_+_"@, Val::Bytes(c), Val::Bytes(d)) matches Ok(Val::Bytes(s)) && s.len()
            == c.len() + d.len() && s.take(c.len() as int) == c && s.skip(c.len() as int) == d,
        applied("_+_"@, Val::List(e), Val::List(f)) matches Ok(Val::List(s)) && s.len() == e.len()
            + f.len() && s.take(e.len() as int) == e && s.skip(e.len() as int) == f,
{
    lemma_spellings();
    assert((a + b).take(a.len() as int) =~= a);
    assert((a + b).skip(a.len() as int) =~= b);
    assert((c + d).take(c.len() as int) =~= c);
    assert((c + d).skip(c.len() as int) =~= d);
    assert((e + f).take(e.len() as int) =~= e);
    assert((e + f).skip(e.len() as int) =~= f);
}

/// Arithmetic asks for two operands of one kind: two signed or two unsigned
/// integers, and for a sum also two texts, byte strings or lists.
pub proof fn law_arithmetic_asks_for_like_operands(l: Val, r: Val)
    ensures
        !(l is Int && r is Int || l is UInt && r is UInt) ==> {
            &&& applied("_-_"@, l, r) == Err::<Val, Fault>(Fault::NoSuchOverload)
            &&& applied("_*_"@, l, r) == Err::<Val, Fault>(Fault::NoSuchOverload)
            &&& applied("_/_"@, l, r) == Err::<Val, Fault>(Fault::NoSuchOverload)
            &&& applied("_%_"@, l, r) == Err::<Val, Fault>(Fault::NoSuchOverload)
            &&& !(l is Text && r is Text || l is Bytes && r is Bytes || l is List && r is List)
                ==> applied("_+_"@, l, r) == Err::<Val, Fault>(Fault::NoSuchOverload)
        },
{
    lemma_spellings();
}

/// A text begins with another exactly where something can be appended to the
/// other to make the text.
pub proof fn law_starts_with(a: Seq<char>, b: Seq<char>)
    ensures
        applied("startsWith"@, Val::Text(a), Val::Text(b)) == Ok::<Val, Fault>(
            Val::Bool(exists|t: Seq<char>| a == #[trigger] (b + t)),
        ),
        a.len() > 0 && b.len() > 0 && a[0] != b[0] ==> applied(
            "startsWith"@,
            Val::Text(a),
            Val::Text(b),
        ) == Ok::<Val, Fault>(Val::Bool(false)),
{
    lemma_spellings();
    if stands_at(a, b, 0) {
        let t = a.skip(b.len() as int);
        assert forall|i: int| 0 <= i < b.len() implies a[i] == b[i] by {
            assert(a.subrange(0, b.len() as int)[i] == b[i]);
        }
        assert(a =~= b + t);
    }
    if exists|t: Seq<char>| a == #[trigger] (b + t) {
        let t = choose|t: Seq<char>| a == #[trigger] (b + t);
        assert(a.subrange(0, b.len() as int) =~= b);
        if b.len() > 0 {
            assert((b + t)[0] == b[0]);
        }
    }
}

/// A text ends with another exactly where something can be put before the other
/// to make the text.
pub proof fn law_ends_with(a: Seq<char>, b: Seq<char>)
    ensures
        applied("endsWith"@, Val::Text(a), Val::Text(b)) == Ok::<Val, Fault>(
            Val::Bool(exists|t: Seq<char>| a == #[trigger] (t + b)),
        ),
{
    lemma_spellings();
    let n = a.len() - b.len();
    if stands_at(a, b, n) {
        let t = a.take(n);
        assert forall|i: int| n <= i < a.len() implies a[i] == b[i - n] by {
            assert(a.subrange(n, n + b.len())[i - n] == b[i - n]);
        }
        assert(a =~= t + b);
    }
    if exists|t: Seq<char>| a == #[trigger] (t + b) {
        let t = choose|t: Seq<char>| a == #[trigger] (t + b);
        assert(a.subrange(n, n + b.len()) =~= b);
    }
}

/// A text contains another exactly where something can be put before and after
/// the other to make the text.
pub proof fn law_contains(a: Seq<char>, b: Seq<char>)
    ensures
        applied("contains"@, Val::Text(a), Val::Text(b)) == Ok::<Val, Fault>(
            Val::Bool(exists|s: Seq<char>, t: Seq<char>| a == #[trigger] (s + b + t)),
        ),
{
    lemma_spellings();
    if occurs_in(a, b) {
        let n = choose|n: int| stands_at(a, b, n);
        let (s, t) = (a.take(n), a.skip(n + b.len()));
        assert forall|i: int| n <= i < n + b.len() implies a[i] == b[i - n] by {
            assert(a.subrange(n, n + b.len())[i - n] == b[i - n]);
        }
        assert(a =~= s + b + t);
    }
    if exists|s: Seq<char>, t: Seq<char>| a == #[trigger] (s + b + t) {
        let (s, t) = choose|s: Seq<char>, t: Seq<char>| a == #[trigger] (s + b + t);
        let n = s.len() as int;
        assert(a.subrange(n, n + b.len()) =~= b);
        assert(stands_at(a, b, n));
    }
}

/// The text functions are for texts.
pub proof fn law_text_functions_ask_for_texts(l: Val, r: Val)
    requires
        !(l is Text && r is Text),
    ensures
        applied("startsWith"@, l, r) == Err::<Val, Fault>(Fault::NoSuchOverload),
        applied("endsWith"@, l, r) == Err::<Val, Fault>(Fault::NoSuchOverload),
        applied("contains"@, l, r) == Err::<Val, Fault>(Fault::NoSuchOverload),
{
    lemma_spellings();
}

/// The size of a list counts its elements: an empty list has none, and an
/// appended element is one more. A list, a text and a byte string of the same
/// length have the same size, and so has a map of as many entries.
pub proof fn law_sizes_count(
    items: Seq<Val>,
    x: Val,
    s: Seq<char>,
    b: Seq<u8>,
    d: Seq<(KeyVal, Val)>,
)
    ensures
        apply("size"@, seq![Val::List(seq![])]) == Ok::<Val, Fault>(Val::Int(0)),
        items.len() < 0x7fff_ffff_ffff_ffff ==> (apply(
            "size"@,
            seq![Val::List(items.push(x))],
        ) matches Ok(Val::Int(n)) && apply("size"@, seq![Val::List(items)]) == Ok::<Val, Fault>(
            Val::Int((n - 1) as i64),
        )),
        s.len() == items.len() <= 0x7fff_ffff_ffff_ffff ==> apply("size"@, seq![Val::Text(s)])
            == apply("size"@, seq![Val::List(items)]),
        b.len() == items.len() <= 0x7fff_ffff_ffff_ffff ==> apply("size"@, seq![Val::Bytes(b)])
            == apply("size"@, seq![Val::List(items)]),
        d.len() == items.len() <= 0x7fff_ffff_ffff_ffff ==> apply("size"@, seq![Val::Dict(d)])
            == apply("size"@, seq![Val::List(items)]),
{
    lemma_spellings();
}

/// What has no elements has no size.
pub proof fn law_only_containers_have_a_size(v: Val)
    requires
        v is Null || v is Bool || v is Int || v is UInt || v is Optional,
    ensures
        apply("size"@, seq![v]) == Err::<Val, Fault>(Fault::NoSuchOverload),
{
    lemma_spellings();
}

/// `!` exchanges the truth values, and is for them alone.
pub proof fn law_not(v: Val)
    ensures
        v matches Val::Bool(b) ==> apply("!_"@, seq![v]) == Ok::<Val, Fault>(Val::Bool(!b)),
        !(v is Bool) ==> apply("!_"@, seq![v]) == Err::<Val, Fault>(Fault::NoSuchOverload),
        apply("@not_strictly_false"@, seq![v]) == Ok::<Val, Fault>(
            Val::Bool(!(v == Val::Bool(false))),
        ),
{
    lemma_spellings();
}

/// A text is its own text, and its bytes are its encoding.
pub proof fn law_texts_and_bytes(s: Seq<char>, b: Seq<u8>)
    ensures
        apply("string"@, seq![Val::Text(s)]) == Ok::<Val, Fault>(Val::Text(s)),
        apply("bytes"@, seq![Val::Text(s)]) == Ok::<Val, Fault>(Val::Bytes(encode_utf8(s))),
        apply("bytes"@, seq![Val::Bytes(b)]) == Ok::<Val, Fault>(Val::Bytes(b)),
{
    lemma_spellings();
}

/// The text of a truth value is its name.
pub proof fn law_text_of_truth_values()
    ensures
        apply("string"@, seq![Val::Bool(true)]) == Ok::<Val, Fault>(Val::Text("true"@)),
        apply("string"@, seq![Val::Bool(false)]) == Ok::<Val, Fault>(Val::Text("false"@)),
{
    lemma_spellings();
}

/// The number that decimal digits write.
pub open spec fn written(digits: Seq<char>) -> int
    decreases digits.len(),
{
    if digits.len() == 0 {
        0
    } else {
        10 * written(digits.drop_last()) + (digits.last() as int - 0x30)
    }
}

/// Every character is a decimal digit.
pub open spec fn all_digits(digits: Seq<char>) -> bool {
    forall|i: int| 0 <= i < digits.len() ==> 0x30 <= #[trigger] digits[i] as int <= 0x39
}

/// The text of a number is made of digits that write it, with no zero in front;
/// that of a negative number has a minus sign before the digits.
pub proof fn law_text_of_numbers(u: u64, i: i64)
    ensures
        apply("string"@, seq![Val::UInt(u)]) matches Ok(Val::Text(s)) && s.len() > 0 && all_digits(
            s,
        ) && written(s) == u && (s[0] == '0' ==> s.len() == 1),
        i >= 0 ==> (apply("string"@, seq![Val::Int(i)]) matches Ok(Val::Text(s)) && s.len() > 0
            && all_digits(s) && written(s) == i && (s[0] == '0' ==> s.len() == 1)),
        i < 0 ==> (apply("string"@, seq![Val::Int(i)]) matches Ok(Val::Text(s)) && s.len() > 1
            && s[0] == '-' && all_digits(s.skip(1)) && written(s.skip(1)) == -(i as int)),
{
    lemma_spellings();
    lemma_decimal(u as nat);
    if i >= 0 {
        lemma_decimal(i as nat);
    } else {
        let n = (-(i as int)) as nat;
        lemma_decimal(n);
        reveal_strlit("-");
        assert(signed_decimal(i as int).skip(1) =~= decimal(n));
    }
}

pub(crate) proof fn lemma_decimal(n: nat)
    ensures
        decimal(n).len() > 0,
        all_digits(decimal(n)),
        written(decimal(n)) == n,
        decimal(n)[0] == '0' ==> decimal(n).len() == 1 && n == 0,
    decreases n,
{
    let s = decimal(n);
    reveal_with_fuel(written, 2);
    if n < 10 {
        assert(s.drop_last() =~= seq![]);
        assert(s.last() as int == 0x30 + n);
    } else {
        let (q, r) = (n / 10, n % 10);
        lemma_decimal(q);
        assert(s.drop_last() =~= decimal(q));
        assert(s.last() as int == 0x30 + r);
        assert(s[0] == decimal(q)[0]);
        assert forall|i: int| 0 <= i < s.len() implies 0x30 <= #[trigger] s[i] as int <= 0x39 by {
            if i < s.len() - 1 {
                assert(s[i] == decimal(q)[i]);
            }
        }
    }
}

/// A list that got an element at its end has it at the index that was its
/// length, and its other elements where they were.
pub proof fn law_index_of_an_appended_element(items: Seq<Val>, x: Val, index: Val, i: int)
    requires
        is_number(index, i),
    ensures
        i == items.len() ==> applied("_[_]"@, Val::List(items.push(x)), index) == Ok::<Val, Fault>(
            x,
        ),
        i != items.len() ==> applied("_[_]"@, Val::List(items.push(x)), index) == applied(
            "_[_]"@,
            Val::List(items),
            index,
        ),
        applied("_[_]"@, Val::List(seq![]), index) == Err::<Val, Fault>(
            Fault::IndexOutOfBounds(index),
        ),
{
    lemma_spellings();
}

/// An index within bounds gives the element at that position, and any other
/// number is out of bounds. What is not a number is no index.
pub proof fn law_index_gives_the_element(items: Seq<Val>, index: Val, i: int)
    ensures
        is_number(index, i) && 0 <= i < items.len() ==> applied("_[_]"@, Val::List(items), index)
            == Ok::<Val, Fault>(items[i]),
        is_number(index, i) && !(0 <= i < items.len()) ==> applied(
            "_[_]"@,
            Val::List(items),
            index,
        ) == Err::<Val, Fault>(Fault::IndexOutOfBounds(index)),
        !(index is Int || index is UInt) ==> applied("_[_]"@, Val::List(items), index) == Err::<
            Val,
            Fault,
        >(Fault::NoSuchOverload),
{
    lemma_spellings();
}

/// Only lists and maps have elements.
pub proof fn law_only_containers_have_elements(v: Val, index: Val)
    requires
        !(v is List || v is Dict),
    ensures
        applied("_[_]"@, v, index) == Err::<Val, Fault>(Fault::NoSuchOverload),
        applied("@in"@, index, v) == Err::<Val, Fault>(Fault::NoSuchOverload),
{
    lemma_spellings();
}

/// The values are the same map key: the same number, signed or not, the same
/// text, or the same truth value.
pub open spec fn same_as_key(a: Val, b: Val) -> bool {
    ||| exists|x: int| is_number(a, x) && #[trigger] is_number(b, x)
    ||| a is Text && a == b
    ||| a is Bool && a == b
}

/// A value is found under the key that it was bound to, and under no other key
/// than before. An empty map holds nothing.
pub proof fn law_index_of_a_bound_key(
    entries: Seq<(KeyVal, Val)>,
    key: KeyVal,
    value: Val,
    other: Val,
)
    ensures
        ({
            let after = Val::Dict(with_entry(entries, key, value));
            if same_as_key(value_of_key(key), other) {
                &&& applied("_[_]"@, after, other) == Ok::<Val, Fault>(value)
                &&& applied("@in"@, other, after) == Ok::<Val, Fault>(Val::Bool(true))
            } else {
                &&& applied("_[_]"@, after, other) == applied("_[_]"@, Val::Dict(entries), other)
                &&& applied("@in"@, other, after) == applied("@in"@, other, Val::Dict(entries))
            }
        }),
        applied("_[_]"@, Val::Dict(seq![]), other) is Err,
        other matches Val::Text(s) ==> applied("_[_]"@, Val::Dict(seq![]), other) == Err::<
            Val,
            Fault,
        >(Fault::NoSuchKey(s)),
        key_of(other) is Some ==> applied("@in"@, other, Val::Dict(seq![])) == Ok::<Val, Fault>(
            Val::Bool(false),
        ),
{
    lemma_spellings();
    lemma_keys(value_of_key(key), other);
    if let Some(k) = key_of(other) {
        law_binding_changes_one_key(entries, key, value, k);
        lemma_find_key(entries, k);
        lemma_find_key(with_entry(entries, key, value), k);
    }
}

/// Keys are the same where their values are.
proof fn lemma_keys(a: Val, b: Val)
    ensures
        same_as_key(a, b) <==> (key_of(a) is Some && key_of(b) is Some && same_key(
            key_of(a)->0,
            key_of(b)->0,
        )),
        key_of(a) matches Some(k) ==> value_of_key(k) == a,
{
    match (key_of(a), key_of(b)) {
        (Some(k), Some(l)) => {
            let x = match a {
                Val::Int(i) => i as int,
                Val::UInt(u) => u as int,
                _ => 0int,
            };
            if same_key(k, l) && (a is Int || a is UInt) {
                assert(is_number(a, x) && is_number(b, x));
            }
        },
        _ => {},
    }
}

/// Only numbers, texts and truth values are map keys.
pub proof fn law_what_is_no_key(entries: Seq<(KeyVal, Val)>, v: Val)
    requires
        v is Null || v is Bytes || v is List || v is Dict || v is Optional,
    ensures
        applied("_[_]"@, Val::Dict(entries), v) == Err::<Val, Fault>(Fault::UnsupportedKeyType(v)),
        applied("@in"@, v, Val::Dict(entries)) == Err::<Val, Fault>(Fault::UnsupportedKeyType(v)),
{
    lemma_spellings();
}

/// A key is in a map exactly where the map can be indexed by it.
pub proof fn law_in_a_map_is_what_it_can_be_indexed_by(entries: Seq<(KeyVal, Val)>, key: Val)
    requires
        key_of(key) is Some,
    ensures
        applied("@in"@, key, Val::Dict(entries)) == Ok::<Val, Fault>(
            Val::Bool(applied("_[_]"@, Val::Dict(entries), key) is Ok),
        ),
{
    lemma_spellings();
    lemma_find_key(entries, key_of(key)->0);
}

/// A value is in a list exactly where it equals one of the elements: nothing is
/// in an empty list, and an appended element adds what equals it.
pub proof fn law_in_a_list_is_what_equals_an_element(items: Seq<Val>, x: Val, v: Val)
    ensures
        applied("@in"@, v, Val::List(seq![])) == Ok::<Val, Fault>(Val::Bool(false)),
        applied("@in"@, v, Val::List(items.push(x))) == Ok::<Val, Fault>(
            Val::Bool(
                applied("@in"@, v, Val::List(items)) == Ok::<Val, Fault>(Val::Bool(true))
                    || applied("_==_"@, x, v) == Ok::<Val, Fault>(Val::Bool(true)),
            ),
        ),
{
    lemma_spellings();
    let more = items.push(x);
    let before = exists|i: int| 0 <= i < items.len() && equal(#[trigger] items[i], v);
    let after = exists|i: int| 0 <= i < more.len() && equal(#[trigger] more[i], v);
    if before {
        let i = choose|i: int| 0 <= i < items.len() && equal(#[trigger] items[i], v);
        assert(equal(more[i], v));
    }
    if equal(x, v) {
        assert(equal(more[items.len() as int], v));
    }
    if after && !equal(x, v) {
        let i = choose|i: int| 0 <= i < more.len() && equal(#[trigger] more[i], v);
        assert(equal(items[i], v));
    }
    assert(after == (before || equal(x, v)));
    lemma_member(items, v);
    lemma_member(more, v);
}

proof fn lemma_member(items: Seq<Val>, v: Val)
    ensures
        membership(v, Val::List(items)) == Ok::<Val, Fault>(
            Val::Bool(exists|i: int| 0 <= i < items.len() && equal(#[trigger] items[i], v)),
        ),
{
    let r = Val::List(items);
    assert(r->List_0 == items);
    let found = membership(v, r)->Ok_0->Bool_0;
    if exists|i: int| 0 <= i < items.len() && equal(#[trigger] items[i], v) {
        let i = choose|i: int| 0 <= i < items.len() && equal(#[trigger] items[i], v);
        assert(equal(r->List_0[i], v));
        assert(found);
    }
    if found {
        let i = choose|i: int| 0 <= i < r->List_0.len() && equal(#[trigger] r->List_0[i], v);
        assert(equal(items[i], v));
    }
}

/// A field of a map is its value under the field's name, and the test for a
/// field is the test for the name.
pub proof fn law_fields_are_text_keys(entries: Seq<(KeyVal, Val)>, field: Seq<char>)
    ensures
        selected(Val::Dict(entries), field, false) == applied(
            "_[_]"@,
            Val::Dict(entries),
            Val::Text(field),
        ),
        selected(Val::Dict(entries), field, true) == applied(
            "@in"@,
            Val::Text(field),
            Val::Dict(entries),
        ),
        forall|v: Val, test: bool|
            !(v is Dict) ==> #[trigger] selected(v, field, test) == Err::<Val, Fault>(
                Fault::NoSuchOverload,
            ),
{
    lemma_spellings();
}

/// Scalars are equal where they are the same, texts and bytes where they hold
/// the same, and values of different kinds are not equal. (Numbers of both kinds
/// are compared by [`law_integers_are_ordered_by_value`].)
pub proof fn law_equality_of_scalars(l: Val, r: Val)
    ensures
        l is Null || l is Bool || l is Text || l is Bytes ==> applied("_==_"@, l, r) == Ok::<
            Val,
            Fault,
        >(Val::Bool(l == r)),
        (l is Int || l is UInt) && !(r is Int || r is UInt) ==> applied("_==_"@, l, r) == Ok::<
            Val,
            Fault,
        >(Val::Bool(false)),
        l is List && !(r is List) ==> applied("_==_"@, l, r) == Ok::<Val, Fault>(Val::Bool(false)),
        l is Dict && !(r is Dict) ==> applied("_==_"@, l, r) == Ok::<Val, Fault>(Val::Bool(false)),
        l is Optional && !(r is Optional) ==> applied("_==_"@, l, r) == Ok::<Val, Fault>(
            Val::Bool(false),
        ),
{
    lemma_spellings();
}

/// Lists are equal where they have the same length and equal elements: the empty
/// list equals itself, and lists that got one more element each are equal where
/// they were before and the elements are.
pub proof fn law_equality_of_lists(a: Seq<Val>, x: Val, b: Seq<Val>, y: Val)
    ensures
        applied("_==_"@, Val::List(seq![]), Val::List(seq![])) == Ok::<Val, Fault>(
            Val::Bool(true),
        ),
        a.len() != b.len() ==> applied("_==_"@, Val::List(a), Val::List(b)) == Ok::<Val, Fault>(
            Val::Bool(false),
        ),
        applied("_==_"@, Val::List(a.push(x)), Val::List(b.push(y))) == Ok::<Val, Fault>(
            Val::Bool(
                applied("_==_"@, Val::List(a), Val::List(b)) == Ok::<Val, Fault>(Val::Bool(true))
                    && applied("_==_"@, x, y) == Ok::<Val, Fault>(Val::Bool(true)),
            ),
        ),
{
    lemma_spellings();
    let (c, d) = (a.push(x), b.push(y));
    assert(equal(Val::List(seq![]), Val::List(seq![])));
    if equal(Val::List(a), Val::List(b)) && equal(x, y) {
        assert forall|i: int| 0 <= i < c.len() implies equal(#[trigger] c[i], d[i]) by {
            if i < a.len() {
                assert(equal(a[i], b[i]));
            }
        }
        assert(equal(Val::List(c), Val::List(d)));
    }
    if equal(Val::List(c), Val::List(d)) {
        assert forall|i: int| 0 <= i < a.len() implies equal(#[trigger] a[i], b[i]) by {
            assert(equal(c[i], d[i]));
        }
        assert(equal(c[a.len() as int], d[a.len() as int]));
        assert(equal(Val::List(a), Val::List(b)));
    }
}

/// Maps are equal where they have as many entries, and every key of the first
/// can be looked up in the second with an equal value.
pub proof fn law_equality_of_maps(a: Seq<(KeyVal, Val)>, b: Seq<(KeyVal, Val)>)
    ensures
        applied("_==_"@, Val::Dict(a), Val::Dict(b)) == Ok::<Val, Fault>(
            Val::Bool(
                a.len() == b.len() && forall|i: int|
                    0 <= i < a.len() ==> (applied(
                        "_[_]"@,
                        Val::Dict(b),
                        value_of_key((#[trigger] a[i]).0),
                    ) matches Ok(w) && applied("_==_"@, a[i].1, w) == Ok::<Val, Fault>(
                        Val::Bool(true),
                    )),
            ),
        ),
{
    lemma_spellings();
    if equal(Val::Dict(a), Val::Dict(b)) {
        assert forall|i: int| 0 <= i < a.len() implies (applied(
            "_[_]"@,
            Val::Dict(b),
            value_of_key((#[trigger] a[i]).0),
        ) matches Ok(w) && applied("_==_"@, a[i].1, w) == Ok::<Val, Fault>(Val::Bool(true))) by {
            lemma_find_key(b, a[i].0);
        }
    }
    if a.len() == b.len() && forall|i: int|
        0 <= i < a.len() ==> (applied(
            "_[_]"@,
            Val::Dict(b),
            value_of_key((#[trigger] a[i]).0),
        ) matches Ok(w) && applied("_==_"@, a[i].1, w) == Ok::<Val, Fault>(Val::Bool(true))) {
        assert forall|i: int| 0 <= i < a.len() implies {
            let j = find_key(b, (#[trigger] a[i]).0);
            j >= 0 && equal(a[i].1, b[j].1)
        } by {
            lemma_find_key(b, a[i].0);
        }
        assert(equal(Val::Dict(a), Val::Dict(b)));
    }
}

/// An optional value equals another where both are empty or hold equal values.
pub proof fn law_equality_of_optional_values(a: Val, b: Val)
    ensures
        applied("_==_"@, Val::Optional(None), Val::Optional(None)) == Ok::<Val, Fault>(
            Val::Bool(true),
        ),
        applied("_==_"@, Val::Optional(None), Val::Optional(Some(Box::new(b)))) == Ok::<
            Val,
            Fault,
        >(Val::Bool(false)),
        applied("_==_"@, Val::Optional(Some(Box::new(a))), Val::Optional(None)) == Ok::<
            Val,
            Fault,
        >(Val::Bool(false)),
        applied("_==_"@, Val::Optional(Some(Box::new(a))), Val::Optional(Some(Box::new(b))))
            == applied("_==_"@, a, b),
{
    lemma_spellings();
    assert(equal(Val::Optional(Some(Box::new(a))), Val::Optional(Some(Box::new(b)))) == equal(
        a,
        b,
    ));
}

/// A function asks for its number of operands: one or two.
pub proof fn law_functions_ask_for_their_operands(func: Seq<char>, operands: Seq<Val>)
    requires
        operands.len() <= 0xffff_ffff,
    ensures
        (func == "!_"@ || func == "-_"@ || func == "size"@ || func == "string"@ || func == "bytes"@)
            && operands.len() != 1 ==> apply(func, operands) == Err::<Val, Fault>(
            Fault::InvalidArgumentCount { expected: 1, actual: operands.len() as usize },
        ),
        (func == "_+_"@ || func == "_-_"@ || func == "_*_"@ || func == "_/_"@ || func == "_%_"@
            || func == "_==_"@ || func == "_!=_"@ || func == "_<_"@ || func == "_<=_"@ || func
            == "_>_"@ || func == "_>=_"@ || func == "@in"@ || func == "_[_]"@ || func
            == "contains"@ || func == "startsWith"@ || func == "endsWith"@) && operands.len() != 2
            ==> apply(func, operands) == Err::<Val, Fault>(
            Fault::InvalidArgumentCount { expected: 2, actual: operands.len() as usize },
        ),
{
    lemma_spellings();
}

/// What is none of the functions of the language is not declared.
pub proof fn law_no_other_functions(func: Seq<char>, operands: Seq<Val>)
    requires
        func != "!_"@ && func != "-_"@ && func != "@not_strictly_false"@ && func != "size"@,
        func != "string"@ && func != "bytes"@ && func != "_+_"@ && func != "_-_"@,
        func != "_*_"@ && func != "_/_"@ && func != "_%_"@ && func != "_==_"@ && func != "_!=_"@,
        func != "_<_"@ && func != "_<=_"@ && func != "_>_"@ && func != "_>=_"@ && func != "@in"@,
        func != "_[_]"@ && func != "contains"@ && func != "startsWith"@ && func != "endsWith"@,
    ensures
        apply(func, operands) == Err::<Val, Fault>(Fault::UndeclaredReference(func)),
{
}

/// The error about a missing key tells it as `string` would write it.
pub proof fn law_missing_keys_are_told_as_texts(entries: Seq<(KeyVal, Val)>, key: Val)
    requires
        key is Int || key is UInt || key is Bool || key is Text,
        applied("@in"@, key, Val::Dict(entries)) == Ok::<Val, Fault>(Val::Bool(false)),
    ensures
        ({
            let told = apply("string"@, seq![key]);
            &&& told is Ok && told->Ok_0 is Text
            &&& applied("_[_]"@, Val::Dict(entries), key) == Err::<Val, Fault>(
                Fault::NoSuchKey(told->Ok_0->Text_0),
            )
        }),
{
    lemma_spellings();
}

/// Only signed integers have a negation, only texts, truth values and integers
/// have a text, and only texts and bytes have bytes.
pub proof fn law_conversions_are_for_some_values(v: Val)
    ensures
        !(v is Int) ==> apply("-_"@, seq![v]) == Err::<Val, Fault>(Fault::NoSuchOverload),
        v is Null || v is Bytes || v is List || v is Dict || v is Optional ==> apply(
            "string"@,
            seq![v],
        ) == Err::<Val, Fault>(Fault::NoSuchOverload),
        !(v is Text) && !(v is Bytes) ==> apply("bytes"@, seq![v]) == Err::<Val, Fault>(
            Fault::NoSuchOverload,
        ),
{
    lemma_spellings();
}

} // verus!
