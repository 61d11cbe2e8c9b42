//! Comparing, searching and writing text, with `Seq<char>` as the model of a string.

use vstd::prelude::*;
use vstd::string::*;
use vstd::utf8::{encode_utf8, encode_utf8_decode_utf8};

verus! {

/// Two strings with the same UTF-8 encoding hold the same characters.
pub proof fn lemma_encoding_is_injective(a: Seq<char>, b: Seq<char>)
    ensures
        encode_utf8(a) == encode_utf8(b) ==> a == b,
{
    encode_utf8_decode_utf8(a);
    encode_utf8_decode_utf8(b);
}

/// Compares two byte slices element by element.
pub fn same_bytes(a: &[u8], b: &[u8]) -> (same: bool)
    ensures
        same == (a@ == b@),
{
    if a.len() != b.len() {
        return false;
    }
    let n: usize = a.len();
    let mut i: usize = 0;
    while i < n
        invariant
            n == a@.len(),
            n == b@.len(),
            i <= n,
            forall|k: int| 0 <= k < i ==> a@[k] == b@[k],
        decreases n - i,
    {
        if a[i] != b[i] {
            return false;
        }
        i += 1;
    }
    assert(a@ =~= b@);
    true
}

/// Compares two strings character by character.
pub fn same_text(a: &str, b: &str) -> (same: bool)
    ensures
        same == (a@ == b@),
{
    proof {
        lemma_encoding_is_injective(a@, b@);
    }
    same_bytes(a.as_bytes(), b.as_bytes())
}

/// The characters of a string, in order.
pub fn chars_of(s: &str) -> (chars: Vec<char>)
    ensures
        chars@ == s@,
{
    let mut chars: Vec<char> = Vec::new();
    for c in iter: s.chars()
        invariant
            iter.seq() == s@,
            chars@ == s@.take(iter.index() as int),
    {
        chars.push(c);
    }
    assert(s@.take(s@.len() as int) =~= s@);
    chars
}

/// The character of a decimal digit.
pub open spec fn digit_char(d: nat) -> char {
    (('0' as nat) + d) as char
}

/// The decimal digits of a number.
pub open spec fn decimal(n: nat) -> Seq<char>
    decreases n,
{
    if n < 10 {
        seq![digit_char(n)]
    } else {
        decimal(n / 10).push(digit_char(n % 10))
    }
}

/// The decimal digits of an integer, with its sign.
pub open spec fn signed_decimal(i: int) -> Seq<char> {
    if i < 0 {
        "-"@ + decimal((-i) as nat)
    } else {
        decimal(i as nat)
    }
}

fn digit_text(d: u64) -> (s: &'static str)
    requires
        d < 10,
    ensures
        s@ == seq![digit_char(d as nat)],
{
    proof {
        reveal_strlit("0");
        reveal_strlit("1");
        reveal_strlit("2");
        reveal_strlit("3");
        reveal_strlit("4");
        reveal_strlit("5");
        reveal_strlit("6");
        reveal_strlit("7");
        reveal_strlit("8");
        reveal_strlit("9");
    }
    let s = if d == 0 {
        "0"
    } else if d == 1 {
        "1"
    } else if d == 2 {
        "2"
    } else if d == 3 {
        "3"
    } else if d == 4 {
        "4"
    } else if d == 5 {
        "5"
    } else if d == 6 {
        "6"
    } else if d == 7 {
        "7"
    } else if d == 8 {
        "8"
    } else {
        "9"
    };
    assert(s@ =~= seq![digit_char(d as nat)]);
    s
}

/// Writes a number in decimal digits.
pub fn decimal_text(n: u64) -> (s: String)
    ensures
        s@ == decimal(n as nat),
    decreases n,
{
    if n < 10 {
        digit_text(n).to_string()
    } else {
        let mut s = decimal_text(n / 10);
        s.append(digit_text(n % 10));
        assert(s@ =~= decimal(n as nat));
        s
    }
}

/// Writes an integer in decimal digits.
pub fn signed_decimal_text(i: i64) -> (s: String)
    ensures
        s@ == signed_decimal(i as int),
{
    if i < 0 {
        let magnitude: u64 = (-(i as i128)) as u64;
        let mut s = "-".to_string();
        s.append(decimal_text(magnitude).as_str());
        s
    } else {
        decimal_text(i as u64)
    }
}

/// `b` stands in `a` at position `i`.
pub open spec fn stands_at<T>(a: Seq<T>, b: Seq<T>, i: int) -> bool {
    0 <= i <= a.len() - b.len() && a.subrange(i, i + b.len()) == b
}

/// `b` stands somewhere in `a`.
pub open spec fn occurs_in(a: Seq<char>, b: Seq<char>) -> bool {
    exists|i: int| stands_at(a, b, i)
}

fn matches_at(a: &Vec<char>, b: &Vec<char>, i: usize) -> (yes: bool)
    requires
        i + b@.len() <= a@.len(),
    ensures
        yes == stands_at(a@, b@, i as int),
{
    let n: usize = a.len();
    let mut k: usize = 0;
    while k < b.len()
        invariant
            k <= b@.len(),
            n == a@.len(),
            i + b@.len() <= n,
            forall|j: int| 0 <= j < k ==> a@[i + j] == b@[j],
        decreases b@.len() - k,
    {
        if a[i + k] != b[k] {
            assert(a@.subrange(i as int, i + b@.len())[k as int] != b@[k as int]);
            return false;
        }
        k += 1;
    }
    assert(a@.subrange(i as int, i + b@.len()) =~= b@);
    true
}

/// `a` begins with `b`.
pub fn text_starts_with(a: &str, b: &str) -> (yes: bool)
    ensures
        yes == stands_at(a@, b@, 0),
{
    let (a, b) = (chars_of(a), chars_of(b));
    b.len() <= a.len() && matches_at(&a, &b, 0)
}

/// `a` ends with `b`.
pub fn text_ends_with(a: &str, b: &str) -> (yes: bool)
    ensures
        yes == stands_at(a@, b@, a@.len() - b@.len()),
{
    let (a, b) = (chars_of(a), chars_of(b));
    b.len() <= a.len() && matches_at(&a, &b, a.len() - b.len())
}

/// `a` contains `b`.
pub fn text_contains(a: &str, b: &str) -> (yes: bool)
    ensures
        yes == occurs_in(a@, b@),
{
    let (whole, part) = (chars_of(a), chars_of(b));
    if part.len() > whole.len() {
        return false;
    }
    let last: usize = whole.len() - part.len();
    let mut i: usize = 0;
    loop
        invariant
            whole@ == a@,
            part@ == b@,
            last == whole@.len() - part@.len(),
            i <= last,
            forall|k: int| 0 <= k < i ==> !stands_at(a@, b@, k),
        decreases last - i,
    {
        if matches_at(&whole, &part, i) {
            return true;
        }
        if i == last {
            return false;
        }
        i += 1;
    }
}

/// How a truth value reads.
pub open spec fn bool_text(b: bool) -> Seq<char> {
    if b {
        "true"@
    } else {
        "false"@
    }
}

/// Computes [`bool_text`].
pub fn text_of_bool(b: bool) -> (s: String)
    ensures
        s@ == bool_text(b),
{
    if b {
        "true".to_string()
    } else {
        "false".to_string()
    }
}

} // verus!
