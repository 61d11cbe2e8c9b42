//! What calls cost under the standard model.
//!
//! The laws name every function that has a price of its own as it stands in the
//! expression tree.

use vstd::prelude::*;
use crate::function_laws::lemma_spellings;
use crate::pricing::{saturated, size_of, standard_cost};
use crate::rounding::{
    law_quarter_is_rounded_up, law_tenth_is_rounded_up, quarter_rounded_up, tenth_rounded_up,
};
use crate::value::{KeyVal, Val};

verus! {

/// Every element counts once: a text is as large as the parts that it is joined
/// of, and so are bytes and lists; an entry makes a map larger by one.
pub proof fn law_sizes_add_up(
    a: Seq<char>,
    b: Seq<char>,
    c: Seq<u8>,
    d: Seq<u8>,
    e: Seq<Val>,
    f: Seq<Val>,
    g: Seq<(KeyVal, Val)>,
    h: (KeyVal, Val),
)
    ensures
        size_of(Val::Text(a + b)) == size_of(Val::Text(a)) + size_of(Val::Text(b)),
        size_of(Val::Bytes(c + d)) == size_of(Val::Bytes(c)) + size_of(Val::Bytes(d)),
        size_of(Val::List(e + f)) == size_of(Val::List(e)) + size_of(Val::List(f)),
        size_of(Val::Dict(g.push(h))) == size_of(Val::Dict(g)) + 1,
        size_of(Val::Dict(seq![])) == 0,
{
}

/// One character, one byte or one element has the size one, and so has a value
/// without elements. An optional value is as large as what it holds.
pub proof fn law_sizes_of_single_things(x: char, y: u8, v: Val)
    ensures
        size_of(Val::Text(seq![x])) == 1,
        size_of(Val::Bytes(seq![y])) == 1,
        size_of(Val::List(seq![v])) == 1,
        size_of(Val::Optional(Some(Box::new(v)))) == size_of(v),
        v is Null || v is Bool || v is Int || v is UInt ==> size_of(v) == 1,
        size_of(Val::Optional(None)) == 1,
{
}

/// The price is a tenth of `n`, rounded up.
pub open spec fn is_tenth_of(price: u64, n: nat) -> bool {
    &&& price == tenth_rounded_up(n) as u64
    &&& n <= 0x20_0000_0000_0000 ==> n <= 10 * price < n + 10
}

proof fn lemma_is_tenth_of(n: nat)
    ensures
        is_tenth_of(tenth_rounded_up(n) as u64, n),
{
    if n <= 0x20_0000_0000_0000 {
        law_tenth_is_rounded_up(n);
    }
}

/// Each comparison reads its operands as far as the smaller one goes: it costs a
/// tenth of the smaller of the two sizes, rounded up. So all of them cost the
/// same on the same operands, whichever comes first.
pub proof fn law_comparisons_cost_a_tenth_of_the_smaller_operand(a: Val, b: Val)
    ensures
        ({
            let n = if size_of(a) <= size_of(b) {
                size_of(a)
            } else {
                size_of(b)
            };
            let price = standard_cost("_==_"@, seq![a, b]);
            &&& is_tenth_of(price, n)
            &&& standard_cost("_!=_"@, seq![a, b]) == price
            &&& standard_cost("_<_"@, seq![a, b]) == price
            &&& standard_cost("_<=_"@, seq![a, b]) == price
            &&& standard_cost("_>_"@, seq![a, b]) == price
            &&& standard_cost("_>=_"@, seq![a, b]) == price
            &&& standard_cost("_==_"@, seq![b, a]) == price
        }),
{
    lemma_spellings();
    lemma_is_tenth_of(size_of(a));
    lemma_is_tenth_of(size_of(b));
}

/// A function that reads its first operand once costs a tenth of its size,
/// rounded up, whatever the other operands are.
pub proof fn law_reading_costs_a_tenth_of_the_first_operand(first: Val, more: Seq<Val>)
    ensures
        ({
            let args = seq![first] + more;
            let n = size_of(first);
            &&& is_tenth_of(standard_cost("startsWith"@, args), n)
            &&& is_tenth_of(standard_cost("endsWith"@, args), n)
            &&& is_tenth_of(standard_cost("bytes"@, args), n)
            &&& is_tenth_of(standard_cost("string"@, args), n)
            &&& is_tenth_of(standard_cost("quote"@, args), n)
            &&& is_tenth_of(standard_cost("format"@, args), n)
        }),
{
    lemma_spellings();
    lemma_is_tenth_of(size_of(first));
}

/// A membership test costs the size of the container.
pub proof fn law_membership_costs_the_size_of_the_container(v: Val, container: Val)
    requires
        size_of(container) <= 0xffff_ffff_ffff_ffff,
    ensures
        standard_cost("@in"@, seq![v, container]) == size_of(container),
{
    lemma_spellings();
}

/// `n`, or the largest cost where `n` is larger.
pub proof fn law_costs_stop_at_the_largest(n: nat)
    ensures
        n <= 0xffff_ffff_ffff_ffff ==> saturated(n) == n,
        n > 0xffff_ffff_ffff_ffff ==> saturated(n) == 0xffff_ffff_ffff_ffffu64,
{
}

/// Joining texts or bytes costs a tenth of what both hold, rounded up. Any other
/// sum costs one.
pub proof fn law_joining_costs_a_tenth_of_both_operands(a: Val, b: Val)
    ensures
        (a is Text || a is Bytes) && size_of(a) + size_of(b) <= 0xffff_ffff_ffff_ffff
            ==> is_tenth_of(standard_cost("_+_"@, seq![a, b]), size_of(a) + size_of(b)),
        !(a is Text || a is Bytes) ==> standard_cost("_+_"@, seq![a, b]) == 1,
{
    lemma_spellings();
    lemma_is_tenth_of(size_of(a) + size_of(b));
}

/// A search costs a tenth of the text, rounded up, for each tenth of what is
/// searched for, rounded up.
pub proof fn law_searching_costs_a_product(a: Val, b: Val)
    ensures
        ({
            let (n, m) = (size_of(a), size_of(b));
            let (s, t) = (tenth_rounded_up(n), tenth_rounded_up(m));
            &&& standard_cost("contains"@, seq![a, b]) == if s * t <= 0xffff_ffff_ffff_ffff {
                (s * t) as u64
            } else {
                0xffff_ffff_ffff_ffffu64
            }
            &&& n <= 0x20_0000_0000_0000 ==> n <= 10 * s < n + 10
            &&& m <= 0x20_0000_0000_0000 ==> m <= 10 * t < m + 10
        }),
{
    lemma_spellings();
    if size_of(a) <= 0x20_0000_0000_0000 {
        law_tenth_is_rounded_up(size_of(a));
    }
    if size_of(b) <= 0x20_0000_0000_0000 {
        law_tenth_is_rounded_up(size_of(b));
    }
}

/// A match against a pattern costs a tenth of the text and one character more,
/// rounded up, for each quarter of the pattern, rounded up.
pub proof fn law_matching_costs_a_product(text: Val, pattern: Val)
    requires
        size_of(text) < 0xffff_ffff_ffff_ffff,
    ensures
        ({
            let (n, m) = (size_of(text) + 1, size_of(pattern));
            let (s, t) = (tenth_rounded_up(n), quarter_rounded_up(m));
            &&& standard_cost("matches"@, seq![text, pattern]) == if s * t
                <= 0xffff_ffff_ffff_ffff {
                (s * t) as u64
            } else {
                0xffff_ffff_ffff_ffffu64
            }
            &&& n <= 0x20_0000_0000_0000 ==> n <= 10 * s < n + 10
            &&& m <= 0x20_0000_0000_0000 ==> m <= 4 * t < m + 4
        }),
{
    lemma_spellings();
    if size_of(text) + 1 <= 0x20_0000_0000_0000 {
        law_tenth_is_rounded_up(size_of(text) + 1);
    }
    if size_of(pattern) <= 0x20_0000_0000_0000 {
        law_quarter_is_rounded_up(size_of(pattern));
    }
}

/// Every other call costs one.
pub proof fn law_other_calls_cost_one(function: Seq<char>, args: Seq<Val>)
    requires
        function != "startsWith"@ && function != "endsWith"@ && function != "bytes"@,
        function != "string"@ && function != "quote"@ && function != "format"@,
        function != "@in"@ && function != "_==_"@ && function != "_!=_"@ && function != "_<_"@,
        function != "_<=_"@ && function != "_>_"@ && function != "_>=_"@,
        function != "_+_"@ || args.len() != 2,
        function != "matches"@ && function != "contains"@ || args.len() < 2,
    ensures
        standard_cost(function, args) == 1,
{
}

} // verus!
