//! How the characters of a source text make up tokens.

use vstd::prelude::*;
use vstd::utf8::encode_utf8;
use crate::function_laws::{all_digits, lemma_decimal, written};
use crate::lexer::{
    class_at, lex, lex_text, lex_token, next_start, number_between, run_end, CharClass, Mistake,
    ParseErrorKind, Symbol, Tok,
};
use crate::text::decimal;

verus! {

/// The character at position `i`, if there is one.
pub open spec fn at(s: Seq<char>, i: int) -> Option<char> {
    if 0 <= i < s.len() {
        Some(s[i])
    } else {
        None
    }
}

/// The character separates tokens and has no other meaning.
pub open spec fn is_blank(c: char) -> bool {
    c == ' ' || c == '\t' || c == '\n' || c == '\r' || c as int == 0xc
}

/// The character is a decimal digit.
pub open spec fn is_digit(c: char) -> bool {
    0x30 <= c as int <= 0x39
}

/// The character is an ASCII letter or the underscore.
pub open spec fn is_letter(c: char) -> bool {
    0x41 <= c as int <= 0x5a || 0x61 <= c as int <= 0x7a || c as int == 0x5f
}

/// A digit stands at position `i`.
pub open spec fn digit_at(s: Seq<char>, i: int) -> bool {
    at(s, i) matches Some(c) && is_digit(c)
}

/// A sign stands at position `i`.
pub open spec fn is_sign_at(s: Seq<char>, i: int) -> bool {
    at(s, i) == Some('+') || at(s, i) == Some('-')
}

/// The character can stand in a word.
pub open spec fn in_word(c: char) -> bool {
    is_letter(c) || is_digit(c)
}

/// A blank makes no difference to what follows.
pub proof fn law_blanks_are_skipped(s: Seq<char>, i: int)
    requires
        at(s, i) matches Some(c) && is_blank(c),
    ensures
        lex(s, i) == lex(s, i + 1),
{
    assert(next_start(s, i) == next_start(s, i + 1));
}

/// A comment makes no difference either: it begins with two slashes, and goes on
/// to the end of its line.
pub proof fn law_comments_are_skipped(s: Seq<char>, i: int, end: int)
    requires
        at(s, i) == Some('/'),
        at(s, i + 1) == Some('/'),
        i + 2 <= end <= s.len(),
        forall|k: int| i <= k < end ==> #[trigger] s[k] != '\n',
        end == s.len() || s[end] == '\n',
    ensures
        lex(s, i) == lex(s, end),
{
    lemma_run_is(s, i, end, CharClass::NotLineEnd);
    assert(next_start(s, i) == next_start(s, end));
}

/// The run that begins at `i` ends at `end`.
proof fn lemma_run_is(s: Seq<char>, i: int, end: int, class: CharClass)
    requires
        0 <= i <= end <= s.len(),
        forall|k: int| i <= k < end ==> class.holds(#[trigger] s[k]),
        !class_at(s, end, class),
    ensures
        run_end(s, i, class) == end,
    decreases end - i,
{
    if i < end {
        assert(class.holds(s[i]));
        lemma_run_is(s, i + 1, end, class);
    }
}

/// The tokens of a text are its first one, where no blank or comment comes
/// before it, and those of what follows. At the end there are none.
pub proof fn law_tokens_follow_each_other(s: Seq<char>, i: int)
    requires
        0 <= i <= s.len(),
        at(s, i) matches Some(c) ==> !is_blank(c),
        !(at(s, i) == Some('/') && at(s, i + 1) == Some('/')),
    ensures
        i == s.len() ==> lex(s, i) == Ok::<Seq<(Tok, int)>, Mistake>(seq![]),
        i < s.len() ==> lex(s, i) == match lex_token(s, i) {
            Ok((tok, end)) => match lex(s, end) {
                Ok(rest) => Ok::<Seq<(Tok, int)>, Mistake>(seq![(tok, i)] + rest),
                Err(e) => Err(e),
            },
            Err(e) => Err(e),
        },
{
    assert(next_start(s, i) == i);
}

/// The symbols, by their characters. A longer symbol comes before a shorter one
/// that it begins with.
pub proof fn law_symbols(s: Seq<char>, i: int)
    requires
        0 <= i < s.len(),
    ensures
        ({
            let (c, d) = (s[i], at(s, i + 1));
            let token = lex_token(s, i);
            &&& c == '&' && d == Some('&') ==> token == Ok::<(Tok, int), Mistake>(
                (Tok::Symbol(Symbol::AndAnd), i + 2),
            )
            &&& c == '|' && d == Some('|') ==> token == Ok::<(Tok, int), Mistake>(
                (Tok::Symbol(Symbol::OrOr), i + 2),
            )
            &&& c == '=' && d == Some('=') ==> token == Ok::<(Tok, int), Mistake>(
                (Tok::Symbol(Symbol::EqualEqual), i + 2),
            )
            &&& c == '!' ==> token == Ok::<(Tok, int), Mistake>(
                if d == Some('=') {
                    (Tok::Symbol(Symbol::NotEqual), i + 2)
                } else {
                    (Tok::Symbol(Symbol::Not), i + 1)
                },
            )
            &&& c == '<' ==> token == Ok::<(Tok, int), Mistake>(
                if d == Some('=') {
                    (Tok::Symbol(Symbol::LessEqual), i + 2)
                } else {
                    (Tok::Symbol(Symbol::Less), i + 1)
                },
            )
            &&& c == '>' ==> token == Ok::<(Tok, int), Mistake>(
                if d == Some('=') {
                    (Tok::Symbol(Symbol::GreaterEqual), i + 2)
                } else {
                    (Tok::Symbol(Symbol::Greater), i + 1)
                },
            )
            &&& c == '(' ==> token == Ok::<(Tok, int), Mistake>(
                (Tok::Symbol(Symbol::LeftParen), i + 1),
            )
            &&& c == ')' ==> token == Ok::<(Tok, int), Mistake>(
                (Tok::Symbol(Symbol::RightParen), i + 1),
            )
            &&& c == '[' ==> token == Ok::<(Tok, int), Mistake>(
                (Tok::Symbol(Symbol::LeftBracket), i + 1),
            )
            &&& c == ']' ==> token == Ok::<(Tok, int), Mistake>(
                (Tok::Symbol(Symbol::RightBracket), i + 1),
            )
            &&& c == '{' ==> token == Ok::<(Tok, int), Mistake>(
                (Tok::Symbol(Symbol::LeftBrace), i + 1),
            )
            &&& c == '}' ==> token == Ok::<(Tok, int), Mistake>(
                (Tok::Symbol(Symbol::RightBrace), i + 1),
            )
            &&& c == '.' ==> token == Ok::<(Tok, int), Mistake>((Tok::Symbol(Symbol::Dot), i + 1))
            &&& c == ',' ==> token == Ok::<(Tok, int), Mistake>((Tok::Symbol(Symbol::Comma), i + 1))
            &&& c == ':' ==> token == Ok::<(Tok, int), Mistake>((Tok::Symbol(Symbol::Colon), i + 1))
            &&& c == '?' ==> token == Ok::<(Tok, int), Mistake>(
                (Tok::Symbol(Symbol::Question), i + 1),
            )
            &&& c == '+' ==> token == Ok::<(Tok, int), Mistake>((Tok::Symbol(Symbol::Plus), i + 1))
            &&& c == '-' ==> token == Ok::<(Tok, int), Mistake>((Tok::Symbol(Symbol::Minus), i + 1))
            &&& c == '*' ==> token == Ok::<(Tok, int), Mistake>((Tok::Symbol(Symbol::Star), i + 1))
            &&& c == '/' ==> token == Ok::<(Tok, int), Mistake>((Tok::Symbol(Symbol::Slash), i + 1))
            &&& c == '%' ==> token == Ok::<(Tok, int), Mistake>(
                (Tok::Symbol(Symbol::Percent), i + 1),
            )
        }),
{
}

/// A word of letters and digits that begins with a letter is a name, unless it
/// is one of the four reserved words.
pub proof fn law_words(s: Seq<char>, i: int, end: int)
    requires
        0 <= i < end <= s.len(),
        is_letter(s[i]),
        forall|k: int| i <= k < end ==> in_word(#[trigger] s[k]),
        at(s, end) matches Some(c) ==> !in_word(c) && c != '\'' && c != '"',
    ensures
        lex_token(s, i) == Ok::<(Tok, int), Mistake>(
            (
                {
                    let word = s.subrange(i, end);
                    if word == "in"@ {
                        Tok::Symbol(Symbol::In)
                    } else if word == "true"@ {
                        Tok::Symbol(Symbol::True)
                    } else if word == "false"@ {
                        Tok::Symbol(Symbol::False)
                    } else if word == "null"@ {
                        Tok::Symbol(Symbol::Null)
                    } else {
                        Tok::Ident(word)
                    }
                },
                end,
            ),
        ),
{
    assert(in_word(s[i]));
    assert forall|k: int| i <= k < end implies CharClass::Word.holds(#[trigger] s[k]) by {
        assert(in_word(s[k]));
    }
    lemma_run_is(s, i, end, CharClass::Word);
    if i + 1 < s.len() {
        if i + 1 < end {
            assert(in_word(s[i + 1]));
        }
    }
}

/// The digits from `i` up to `end` write the number that they look like.
proof fn lemma_number_is_written(s: Seq<char>, i: int, end: int)
    requires
        0 <= i <= end <= s.len(),
        all_digits(s.subrange(i, end)),
    ensures
        number_between(s, i, end, 10) == written(s.subrange(i, end)),
    decreases end - i,
{
    let digits = s.subrange(i, end);
    if i < end {
        assert(digits.drop_last() =~= s.subrange(i, end - 1));
        assert forall|k: int| 0 <= k < end - 1 - i implies 0x30 <= #[trigger] s.subrange(
            i,
            end - 1,
        )[k] as int <= 0x39 by {
            assert(digits[k] == s.subrange(i, end - 1)[k]);
        }
        lemma_number_is_written(s, i, end - 1);
        assert(digits[end - 1 - i] == s[end - 1]);
        assert(digits.last() == s[end - 1]);
        let n = number_between(s, i, end - 1, 10);
        assert(n * 10 == 10 * n);
    }
}

/// A run of digits is the number that they write in decimal, unsigned where the
/// letter `u` follows. A number that needs more than 64 bits is an error. A point
/// belongs to the number only before a digit, and an exponent only with digits.
pub proof fn law_numbers(s: Seq<char>, i: int, end: int)
    requires
        0 <= i < end <= s.len(),
        forall|k: int| i <= k < end ==> is_digit(#[trigger] s[k]),
        !digit_at(s, end),
        at(s, end) == Some('.') ==> !digit_at(s, end + 1),
        at(s, end) == Some('e') || at(s, end) == Some('E') ==> !digit_at(s, end + 1)
            && !(is_sign_at(s, end + 1) && digit_at(s, end + 2)),
        s[i] == '0' && end == i + 1 && (at(s, end) == Some('x') || at(s, end) == Some('X')) ==> !(
        at(s, end + 1) matches Some(c) && is_hex_digit(c)),
    ensures
        ({
            let n = written(s.subrange(i, end));
            if n > 0xffff_ffff_ffff_ffff {
                lex_token(s, i) == Err::<(Tok, int), Mistake>((ParseErrorKind::NumberTooLarge, i))
            } else if at(s, end) == Some('u') || at(s, end) == Some('U') {
                lex_token(s, i) == Ok::<(Tok, int), Mistake>((Tok::UInt(n as u64), end + 1))
            } else {
                lex_token(s, i) == Ok::<(Tok, int), Mistake>((Tok::Int(n as u64), end))
            }
        }),
{
    assert(is_digit(s[i]));
    let digits = s.subrange(i, end);
    assert forall|k: int| 0 <= k < digits.len() implies 0x30 <= #[trigger] digits[k] as int
        <= 0x39 by {
        assert(is_digit(s[i + k]));
    }
    assert forall|k: int| i <= k < end implies CharClass::Digit.holds(#[trigger] s[k]) by {
        assert(is_digit(s[k]));
    }
    lemma_run_is(s, i, end, CharClass::Digit);
    lemma_number_is_written(s, i, end);
    if i + 1 < end {
        assert(is_digit(s[i + 1]));
    }
}

/// Every number reads back from its decimal digits.
pub proof fn law_written_numbers_read_back(n: u64)
    ensures
        lex(decimal(n as nat), 0) == Ok::<Seq<(Tok, int)>, Mistake>(seq![(Tok::Int(n), 0)]),
{
    let s = decimal(n as nat);
    let end = s.len() as int;
    lemma_decimal(n as nat);
    assert forall|k: int| 0 <= k < end implies is_digit(#[trigger] s[k]) by {
        assert(0x30 <= s[k] as int <= 0x39);
    }
    assert(s.subrange(0, end) =~= s);
    law_numbers(s, 0, end);
    assert(is_digit(s[0]));
    law_tokens_follow_each_other(s, 0);
    law_tokens_follow_each_other(s, end);
    assert(seq![(Tok::Int(n), 0int)] + Seq::<(Tok, int)>::empty() =~= seq![(Tok::Int(n), 0int)]);
}

/// The value of a hexadecimal digit.
pub open spec fn hex_value(c: char) -> int {
    if is_digit(c) {
        c as int - 0x30
    } else if 0x61 <= c as int <= 0x66 {
        c as int - 0x61 + 10
    } else {
        c as int - 0x41 + 10
    }
}

/// The number that hexadecimal digits write.
pub open spec fn hex_written(digits: Seq<char>) -> int
    decreases digits.len(),
{
    if digits.len() == 0 {
        0
    } else {
        16 * hex_written(digits.drop_last()) + hex_value(digits.last())
    }
}

/// The character is a hexadecimal digit.
pub open spec fn is_hex_digit(c: char) -> bool {
    is_digit(c) || 0x61 <= c as int <= 0x66 || 0x41 <= c as int <= 0x46
}

proof fn lemma_number_is_hex_written(s: Seq<char>, i: int, end: int)
    requires
        0 <= i <= end <= s.len(),
        forall|k: int| i <= k < end ==> is_hex_digit(#[trigger] s[k]),
    ensures
        number_between(s, i, end, 16) == hex_written(s.subrange(i, end)),
    decreases end - i,
{
    let digits = s.subrange(i, end);
    if i < end {
        assert(digits.drop_last() =~= s.subrange(i, end - 1));
        lemma_number_is_hex_written(s, i, end - 1);
        assert(is_hex_digit(s[end - 1]));
        assert(digits.last() == s[end - 1]);
        let n = number_between(s, i, end - 1, 16);
        assert(n * 16 == 16 * n);
    }
}

/// Digits after `0x` are hexadecimal.
pub proof fn law_hexadecimal_numbers(s: Seq<char>, i: int, end: int)
    requires
        0 <= i,
        i + 2 < end <= s.len(),
        s[i] == '0',
        s[i + 1] == 'x' || s[i + 1] == 'X',
        forall|k: int| i + 2 <= k < end ==> is_hex_digit(#[trigger] s[k]),
        at(s, end) matches Some(c) ==> !is_hex_digit(c),
    ensures
        ({
            let n = hex_written(s.subrange(i + 2, end));
            if n > 0xffff_ffff_ffff_ffff {
                lex_token(s, i) == Err::<(Tok, int), Mistake>((ParseErrorKind::NumberTooLarge, i))
            } else if at(s, end) == Some('u') || at(s, end) == Some('U') {
                lex_token(s, i) == Ok::<(Tok, int), Mistake>((Tok::UInt(n as u64), end + 1))
            } else {
                lex_token(s, i) == Ok::<(Tok, int), Mistake>((Tok::Int(n as u64), end))
            }
        }),
{
    assert(is_hex_digit(s[i + 2]));
    assert forall|k: int| i + 2 <= k < end implies CharClass::HexDigit.holds(#[trigger] s[k]) by {
        assert(is_hex_digit(s[k]));
    }
    lemma_run_is(s, i + 2, end, CharClass::HexDigit);
    lemma_number_is_hex_written(s, i + 2, end);
}

/// Digits, a point and digits are one floating-point constant, kept as spelled.
pub proof fn law_floating_point_numbers(s: Seq<char>, i: int, point: int, end: int)
    requires
        0 <= i < point,
        point + 1 < end <= s.len(),
        forall|k: int| i <= k < point ==> is_digit(#[trigger] s[k]),
        s[point] == '.',
        forall|k: int| point < k < end ==> is_digit(#[trigger] s[k]),
        at(s, end) matches Some(c) ==> !is_digit(c) && c != 'e' && c != 'E',
    ensures
        lex_token(s, i) == Ok::<(Tok, int), Mistake>((Tok::Double(s.subrange(i, end)), end)),
{
    assert(is_digit(s[i]));
    assert(is_digit(s[point + 1]));
    assert forall|k: int| i <= k < point implies CharClass::Digit.holds(#[trigger] s[k]) by {
        assert(is_digit(s[k]));
    }
    assert forall|k: int| point < k < end implies CharClass::Digit.holds(#[trigger] s[k]) by {
        assert(is_digit(s[k]));
    }
    lemma_run_is(s, i, point, CharClass::Digit);
    lemma_run_is(s, point + 1, end, CharClass::Digit);
    if i + 1 < point {
        assert(is_digit(s[i + 1]));
    }
}

/// How a character is written in a text literal: by a backslash before the
/// backslash and both quotes, by a letter for line breaks and tabs, and else by
/// itself.
pub open spec fn spelled(c: char) -> Seq<char> {
    if c == '\n' {
        seq!['\\', 'n']
    } else if c == '\r' {
        seq!['\\', 'r']
    } else if c == '\t' {
        seq!['\\', 't']
    } else if c == '\\' || c == '\'' || c == '"' {
        seq!['\\', c]
    } else {
        seq![c]
    }
}

/// How a text is written in a literal.
pub open spec fn spelled_out(text: Seq<char>) -> Seq<char>
    decreases text.len(),
{
    if text.len() == 0 {
        seq![]
    } else {
        spelled(text[0]) + spelled_out(text.skip(1))
    }
}

/// The text `part` stands in `s` at `i`.
pub open spec fn holds_at(s: Seq<char>, i: int, part: Seq<char>) -> bool {
    0 <= i && i + part.len() <= s.len() && forall|k: int|
        0 <= k < part.len() ==> s[i + k] == #[trigger] part[k]
}

proof fn lemma_spelled_text(s: Seq<char>, k: int, quote: char, text: Seq<char>, acc: Seq<char>)
    requires
        quote == '\'' || quote == '"',
        holds_at(s, k, spelled_out(text)),
        at(s, k + spelled_out(text).len()) == Some(quote),
    ensures
        lex_text(s, k, quote, false, acc) == Ok::<(Seq<char>, int), Mistake>(
            (acc + text, k + spelled_out(text).len() + 1),
        ),
    decreases text.len(),
{
    let all = spelled_out(text);
    if text.len() == 0 {
        assert(acc + text =~= acc);
    } else {
        let c = text[0];
        let (first, rest) = (spelled(c), spelled_out(text.skip(1)));
        assert forall|j: int| 0 <= j < rest.len() implies s[k + first.len() + j]
            == #[trigger] rest[j] by {
            assert(all[first.len() + j] == rest[j]);
        }
        assert(all[0] == first[0]);
        assert(s[k + 0] == all[0]);
        if first.len() == 2 {
            assert(all[1] == first[1]);
            assert(s[k + 1] == all[1]);
        }
        assert(acc.push(c) + text.skip(1) =~= acc + text);
        lemma_spelled_text(s, k + first.len(), quote, text.skip(1), acc.push(c));
    }
}

/// Every text reads back from its literal, in either kind of quotes, and its
/// encoding from a byte literal.
pub proof fn law_spelled_texts_read_back(s: Seq<char>, i: int, quote: char, text: Seq<char>)
    requires
        quote == '\'' || quote == '"',
        at(s, i) == Some(quote),
        holds_at(s, i + 1, spelled_out(text)),
        at(s, i + 1 + spelled_out(text).len()) == Some(quote),
    ensures
        lex_token(s, i) == Ok::<(Tok, int), Mistake>(
            (Tok::Text(text), i + 2 + spelled_out(text).len()),
        ),
        at(s, i - 1) == Some('b') || at(s, i - 1) == Some('B') ==> lex_token(s, i - 1) == Ok::<
            (Tok, int),
            Mistake,
        >((Tok::Bytes(encode_utf8(text)), i + 2 + spelled_out(text).len())),
{
    lemma_spelled_text(s, i + 1, quote, text, seq![]);
    assert(Seq::<char>::empty() + text =~= text);
}

proof fn lemma_raw_text(s: Seq<char>, k: int, quote: char, text: Seq<char>, acc: Seq<char>)
    requires
        holds_at(s, k, text),
        forall|j: int| 0 <= j < text.len() ==> #[trigger] text[j] != quote && text[j] != '\n',
        at(s, k + text.len()) == Some(quote),
        quote != '\n',
    ensures
        lex_text(s, k, quote, true, acc) == Ok::<(Seq<char>, int), Mistake>(
            (acc + text, k + text.len() + 1),
        ),
    decreases text.len(),
{
    if text.len() == 0 {
        assert(acc + text =~= acc);
    } else {
        let rest = text.skip(1);
        assert(s[k + 0] == text[0]);
        assert forall|j: int| 0 <= j < rest.len() implies s[k + 1 + j] == #[trigger] rest[j]
            && rest[j] != quote && rest[j] != '\n' by {
            assert(text[j + 1] == rest[j]);
            assert(s[k + (j + 1)] == text[j + 1]);
        }
        assert(acc.push(text[0]) + rest =~= acc + text);
        lemma_raw_text(s, k + 1, quote, rest, acc.push(text[0]));
    }
}

/// In a raw literal every character but the quote and the line break stands for
/// itself.
pub proof fn law_raw_texts(s: Seq<char>, i: int, quote: char, text: Seq<char>)
    requires
        quote == '\'' || quote == '"',
        at(s, i) == Some('r') || at(s, i) == Some('R'),
        at(s, i + 1) == Some(quote),
        holds_at(s, i + 2, text),
        forall|j: int| 0 <= j < text.len() ==> #[trigger] text[j] != quote && text[j] != '\n',
        at(s, i + 2 + text.len()) == Some(quote),
    ensures
        lex_token(s, i) == Ok::<(Tok, int), Mistake>((Tok::Text(text), i + 3 + text.len())),
{
    lemma_raw_text(s, i + 2, quote, text, seq![]);
    assert(Seq::<char>::empty() + text =~= text);
}

/// Digits, perhaps with a fraction, and an exponent are one floating-point
/// constant, kept as spelled.
pub proof fn law_exponents(s: Seq<char>, i: int, whole: int, mantissa: int, exponent: int, end: int)
    requires
        0 <= i < whole <= mantissa < exponent < end <= s.len(),
        forall|k: int| i <= k < whole ==> is_digit(#[trigger] s[k]),
        whole < mantissa ==> whole + 1 < mantissa && s[whole] == '.' && forall|k: int|
            whole < k < mantissa ==> is_digit(#[trigger] s[k]),
        s[mantissa] == 'e' || s[mantissa] == 'E',
        exponent == mantissa + 1 || exponent == mantissa + 2 && is_sign_at(s, mantissa + 1),
        forall|k: int| exponent <= k < end ==> is_digit(#[trigger] s[k]),
        !digit_at(s, end),
    ensures
        lex_token(s, i) == Ok::<(Tok, int), Mistake>((Tok::Double(s.subrange(i, end)), end)),
{
    assert(is_digit(s[i]));
    assert(is_digit(s[exponent]));
    assert forall|k: int| i <= k < whole implies CharClass::Digit.holds(#[trigger] s[k]) by {
        assert(is_digit(s[k]));
    }
    assert forall|k: int| exponent <= k < end implies CharClass::Digit.holds(#[trigger] s[k]) by {
        assert(is_digit(s[k]));
    }
    lemma_run_is(s, i, whole, CharClass::Digit);
    lemma_run_is(s, exponent, end, CharClass::Digit);
    if whole < mantissa {
        assert(is_digit(s[whole + 1]));
        assert forall|k: int| whole < k < mantissa implies CharClass::Digit.holds(
            #[trigger] s[k],
        ) by {
            assert(is_digit(s[k]));
        }
        lemma_run_is(s, whole + 1, mantissa, CharClass::Digit);
    }
    if i + 1 < whole {
        assert(is_digit(s[i + 1]));
    }
}

/// The text from `k` up to `end` holds neither the quote nor a backslash nor a
/// line break.
pub open spec fn is_plain(s: Seq<char>, k: int, end: int, quote: char) -> bool {
    &&& 0 <= k <= end <= s.len()
    &&& forall|j: int|
        k <= j < end ==> #[trigger] s[j] != quote && s[j] != '\\' && s[j] != '\n'
}

proof fn lemma_plain(s: Seq<char>, k: int, end: int, quote: char, acc: Seq<char>)
    requires
        is_plain(s, k, end, quote),
    ensures
        lex_text(s, k, quote, false, acc) == lex_text(
            s,
            end,
            quote,
            false,
            acc + s.subrange(k, end),
        ),
    decreases end - k,
{
    if k < end {
        assert(s[k] != quote);
        lemma_plain(s, k + 1, end, quote, acc.push(s[k]));
        assert(acc.push(s[k]) + s.subrange(k + 1, end) =~= acc + s.subrange(k, end));
    } else {
        assert(acc + s.subrange(k, end) =~= acc);
    }
}

/// A text literal ends with its quote: where its line or the whole text ends
/// before, that is an error there. A backslash stands before one of a few
/// characters, and is an error before any other.
pub proof fn law_texts_are_closed(s: Seq<char>, i: int, quote: char, end: int)
    requires
        quote == '\'' || quote == '"',
        at(s, i) == Some(quote),
        is_plain(s, i + 1, end, quote),
    ensures
        at(s, end) is None || at(s, end) == Some('\n') ==> lex_token(s, i) == Err::<
            (Tok, int),
            Mistake,
        >((ParseErrorKind::UnterminatedText, end)),
        at(s, end) == Some('\\') && at(s, end + 1) is None ==> lex_token(s, i) == Err::<
            (Tok, int),
            Mistake,
        >((ParseErrorKind::UnterminatedText, end + 1)),
        at(s, end) == Some('\\') ==> (at(s, end + 1) matches Some(c) ==> c != 'n' && c != 'r' && c
            != 't' && c != '\\' && c != '\'' && c != '"' && c != '`' && c != '?' ==> lex_token(s, i)
            == Err::<(Tok, int), Mistake>((ParseErrorKind::UnknownEscape, end))),
{
    lemma_plain(s, i + 1, end, quote, seq![]);
}

/// A backslash before a backquote or a question mark stands for that character.
pub proof fn law_other_escapes(s: Seq<char>, i: int, quote: char, c: char)
    requires
        quote == '\'' || quote == '"',
        c == '`' || c == '?',
        at(s, i) == Some(quote),
        at(s, i + 1) == Some('\\'),
        at(s, i + 2) == Some(c),
        at(s, i + 3) == Some(quote),
    ensures
        lex_token(s, i) == Ok::<(Tok, int), Mistake>((Tok::Text(seq![c]), i + 4)),
{
    assert(lex_text(s, i + 3, quote, false, seq![c]) == Ok::<(Seq<char>, int), Mistake>(
        (seq![c], i + 4),
    ));
    assert(Seq::<char>::empty().push(c) =~= seq![c]);
}

/// Characters that begin no token are an error where they stand.
pub proof fn law_unexpected_characters(s: Seq<char>, i: int)
    requires
        0 <= i < s.len(),
        ({
            let (c, d) = (s[i], at(s, i + 1));
            ||| c == '&' && d != Some('&')
            ||| c == '|' && d != Some('|')
            ||| c == '=' && d != Some('=')
            ||| c == '@' || c == '#' || c == '$' || c == '^' || c == '~' || c == '`' || c == ';'
                || c == '\\' || c as int > 0x7f
        }),
    ensures
        lex_token(s, i) == Err::<(Tok, int), Mistake>((ParseErrorKind::UnexpectedCharacter, i)),
{
}

} // verus!
