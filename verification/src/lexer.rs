//! From source text to tokens.

use vstd::prelude::*;
use vstd::string::*;
use vstd::utf8::encode_utf8;
use crate::text::{chars_of, same_text};

verus! {

/// Punctuation, operators and reserved words.
#[derive(Debug, Clone, Copy, PartialEq, Eq, Structural)]
pub enum Symbol {
    LeftParen,
    RightParen,
    LeftBracket,
    RightBracket,
    LeftBrace,
    RightBrace,
    Dot,
    Comma,
    Colon,
    Question,
    Plus,
    Minus,
    Star,
    Slash,
    Percent,
    Not,
    AndAnd,
    OrOr,
    EqualEqual,
    NotEqual,
    Less,
    LessEqual,
    Greater,
    GreaterEqual,
    In,
    True,
    False,
    Null,
}

/// A token of the source text.
#[derive(Debug, PartialEq)]
pub enum Token {
    Symbol(Symbol),
    Int(u64),
    UInt(u64),
    Double(String),
    Text(String),
    Bytes(Vec<u8>),
    Ident(String),
}

/// A token with the position of its first character.
#[derive(Debug, PartialEq)]
pub struct Lexeme {
    pub token: Token,
    pub at: usize,
}

/// What is wrong with a source text.
#[derive(Debug, Clone, Copy, PartialEq, Eq, Structural)]
pub enum ParseErrorKind {
    /// No token begins with this character.
    UnexpectedCharacter,
    /// The text literal does not end.
    UnterminatedText,
    /// The escape sequence is not known.
    UnknownEscape,
    /// The number does not fit its type.
    NumberTooLarge,
    /// The token cannot stand here.
    UnexpectedToken,
    /// The source ends too early.
    UnexpectedEnd,
    /// The argument does not suit the macro.
    MacroArgument,
    /// The source has too many tokens.
    SourceTooLong,
}

/// The model of a [`Token`].
pub enum Tok {
    Symbol(Symbol),
    Int(u64),
    UInt(u64),
    Double(Seq<char>),
    Text(Seq<char>),
    Bytes(Seq<u8>),
    Ident(Seq<char>),
}

/// What is wrong, and where.
pub type Mistake = (ParseErrorKind, int);

impl View for Token {
    type V = Tok;

    open spec fn view(&self) -> Tok {
        match *self {
            Token::Symbol(s) => Tok::Symbol(s),
            Token::Int(n) => Tok::Int(n),
            Token::UInt(n) => Tok::UInt(n),
            Token::Double(s) => Tok::Double(s@),
            Token::Text(s) => Tok::Text(s@),
            Token::Bytes(b) => Tok::Bytes(b@),
            Token::Ident(s) => Tok::Ident(s@),
        }
    }
}

impl View for Lexeme {
    type V = (Tok, int);

    open spec fn view(&self) -> (Tok, int) {
        (self.token@, self.at as int)
    }
}

/// The classes of characters that make up runs.
#[derive(Debug, Clone, Copy, PartialEq, Eq, Structural)]
pub enum CharClass {
    Space,
    NotLineEnd,
    Digit,
    HexDigit,
    Letter,
    Word,
}

impl CharClass {
    /// The class holds the character.
    pub open spec fn holds(self, c: char) -> bool {
        match self {
            CharClass::Space => c == ' ' || c == '\t' || c == '\n' || c == '\r' || c == '\u{c}',
            CharClass::NotLineEnd => c != '\n',
            CharClass::Digit => '0' <= c <= '9',
            CharClass::HexDigit => '0' <= c <= '9' || 'a' <= c <= 'f' || 'A' <= c <= 'F',
            CharClass::Letter => 'a' <= c <= 'z' || 'A' <= c <= 'Z' || c == '_',
            CharClass::Word => 'a' <= c <= 'z' || 'A' <= c <= 'Z' || c == '_' || '0' <= c <= '9',
        }
    }

    fn contains(self, c: char) -> (yes: bool)
        ensures
            yes == self.holds(c),
    {
        match self {
            CharClass::Space => c == ' ' || c == '\t' || c == '\n' || c == '\r' || c == '\u{c}',
            CharClass::NotLineEnd => c != '\n',
            CharClass::Digit => '0' <= c && c <= '9',
            CharClass::HexDigit => ('0' <= c && c <= '9') || ('a' <= c && c <= 'f') || ('A' <= c
                && c <= 'F'),
            CharClass::Letter => ('a' <= c && c <= 'z') || ('A' <= c && c <= 'Z') || c == '_',
            CharClass::Word => ('a' <= c && c <= 'z') || ('A' <= c && c <= 'Z') || c == '_' || ('0'
                <= c && c <= '9'),
        }
    }
}

/// There is a character of the class at position `i`.
pub open spec fn class_at(s: Seq<char>, i: int, class: CharClass) -> bool {
    0 <= i < s.len() && class.holds(s[i])
}

/// The character `c` stands at position `i`.
pub open spec fn char_at(s: Seq<char>, i: int, c: char) -> bool {
    0 <= i < s.len() && s[i] == c
}

/// Where a run of characters of the class ends.
pub open spec fn run_end(s: Seq<char>, i: int, class: CharClass) -> int
    decreases s.len() - i,
{
    if class_at(s, i, class) {
        run_end(s, i + 1, class)
    } else {
        i
    }
}

/// A run ends inside the text, and past its first character.
pub proof fn lemma_run_end(s: Seq<char>, i: int, class: CharClass)
    ensures
        i <= run_end(s, i, class),
        0 <= i <= s.len() ==> run_end(s, i, class) <= s.len(),
        class_at(s, i, class) ==> i < run_end(s, i, class) <= s.len(),
    decreases s.len() - i,
{
    if class_at(s, i, class) {
        lemma_run_end(s, i + 1, class);
    }
}

/// Where the next token begins: past spaces and comments.
pub open spec fn next_start(s: Seq<char>, i: int) -> int
    decreases s.len() - i,
{
    if class_at(s, i, CharClass::Space) {
        next_start(s, i + 1)
    } else if char_at(s, i, '/') && char_at(s, i + 1, '/') {
        proof {
            lemma_run_end(s, i, CharClass::NotLineEnd);
        }
        next_start(s, run_end(s, i, CharClass::NotLineEnd))
    } else {
        i
    }
}

/// The next token begins no earlier than the search for it.
pub proof fn lemma_next_start(s: Seq<char>, i: int)
    ensures
        i <= next_start(s, i),
        0 <= i <= s.len() ==> next_start(s, i) <= s.len(),
    decreases s.len() - i,
{
    if class_at(s, i, CharClass::Space) {
        lemma_next_start(s, i + 1);
    } else if char_at(s, i, '/') && char_at(s, i + 1, '/') {
        lemma_run_end(s, i, CharClass::NotLineEnd);
        lemma_next_start(s, run_end(s, i, CharClass::NotLineEnd));
    }
}

/// The value of a digit in bases up to sixteen.
pub open spec fn digit_value(c: char) -> nat {
    if '0' <= c <= '9' {
        (c as nat - '0' as nat) as nat
    } else if 'a' <= c <= 'f' {
        (c as nat - 'a' as nat + 10) as nat
    } else {
        (c as nat - 'A' as nat + 10) as nat
    }
}

/// The number that the digits from `i` up to `j` write in a base.
pub open spec fn number_between(s: Seq<char>, i: int, j: int, base: nat) -> nat
    decreases j - i,
{
    if j <= i {
        0
    } else {
        number_between(s, i, j - 1, base) * base + digit_value(s[j - 1])
    }
}

/// The number of a run of digits, with the suffix that makes it unsigned.
pub open spec fn number_token(s: Seq<char>, start: int, i: int, j: int, base: nat) -> Result<
    (Tok, int),
    Mistake,
> {
    let n = number_between(s, i, j, base);
    if n > u64::MAX {
        Err((ParseErrorKind::NumberTooLarge, start))
    } else if char_at(s, j, 'u') || char_at(s, j, 'U') {
        Ok((Tok::UInt(n as u64), j + 1))
    } else {
        Ok((Tok::Int(n as u64), j))
    }
}

/// Where the exponent at position `i` ends; `i` where there is none.
pub open spec fn exponent_end(s: Seq<char>, i: int) -> int {
    if char_at(s, i, 'e') || char_at(s, i, 'E') {
        let k = if char_at(s, i + 1, '+') || char_at(s, i + 1, '-') {
            i + 2
        } else {
            i + 1
        };
        if class_at(s, k, CharClass::Digit) {
            run_end(s, k, CharClass::Digit)
        } else {
            i
        }
    } else {
        i
    }
}

/// The token of a number that begins at `i`.
pub open spec fn lex_number(s: Seq<char>, i: int) -> Result<(Tok, int), Mistake> {
    if char_at(s, i, '0') && (char_at(s, i + 1, 'x') || char_at(s, i + 1, 'X')) && class_at(
        s,
        i + 2,
        CharClass::HexDigit,
    ) {
        number_token(s, i, i + 2, run_end(s, i + 2, CharClass::HexDigit), 16)
    } else {
        let whole = run_end(s, i, CharClass::Digit);
        let fraction = if char_at(s, whole, '.') && class_at(s, whole + 1, CharClass::Digit) {
            run_end(s, whole + 1, CharClass::Digit)
        } else {
            whole
        };
        let end = exponent_end(s, fraction);
        if end > whole {
            Ok((Tok::Double(s.subrange(i, end)), end))
        } else {
            number_token(s, i, i, whole, 10)
        }
    }
}

/// The character that a backslash and `c` stand for.
pub open spec fn escaped(c: char) -> Option<char> {
    if c == 'n' {
        Some('\n')
    } else if c == 'r' {
        Some('\r')
    } else if c == 't' {
        Some('\t')
    } else if c == '\\' || c == '\'' || c == '"' || c == '`' || c == '?' {
        Some(c)
    } else {
        None
    }
}

/// The text of a literal from position `k` on, after `acc`, and where the
/// literal ends. A raw literal has no escape sequences.
pub open spec fn lex_text(s: Seq<char>, k: int, quote: char, raw: bool, acc: Seq<char>) -> Result<
    (Seq<char>, int),
    Mistake,
>
    decreases s.len() - k,
{
    if k < 0 || k >= s.len() || s[k] == '\n' {
        Err((ParseErrorKind::UnterminatedText, k))
    } else if s[k] == quote {
        Ok((acc, k + 1))
    } else if s[k] == '\\' && !raw {
        if k + 1 >= s.len() {
            Err((ParseErrorKind::UnterminatedText, k + 1))
        } else {
            match escaped(s[k + 1]) {
                Some(c) => lex_text(s, k + 2, quote, raw, acc.push(c)),
                None => Err((ParseErrorKind::UnknownEscape, k)),
            }
        }
    } else {
        lex_text(s, k + 1, quote, raw, acc.push(s[k]))
    }
}

/// A text literal ends inside the text.
pub proof fn lemma_text_end(s: Seq<char>, k: int, quote: char, raw: bool, acc: Seq<char>)
    ensures
        lex_text(s, k, quote, raw, acc) matches Ok((_, end)) ==> k < end <= s.len(),
    decreases s.len() - k,
{
    if k < 0 || k >= s.len() || s[k] == '\n' || s[k] == quote {
    } else if s[k] == '\\' && !raw {
        if k + 1 < s.len() && escaped(s[k + 1]) is Some {
            lemma_text_end(s, k + 2, quote, raw, acc.push(escaped(s[k + 1])->0));
        }
    } else {
        lemma_text_end(s, k + 1, quote, raw, acc.push(s[k]));
    }
}

/// A quote stands at position `i`.
pub open spec fn quote_at(s: Seq<char>, i: int) -> bool {
    char_at(s, i, '\'') || char_at(s, i, '"')
}

/// The symbol of a reserved word.
pub open spec fn reserved(word: Seq<char>) -> Option<Symbol> {
    if word == "in"@ {
        Some(Symbol::In)
    } else if word == "true"@ {
        Some(Symbol::True)
    } else if word == "false"@ {
        Some(Symbol::False)
    } else if word == "null"@ {
        Some(Symbol::Null)
    } else {
        None
    }
}

/// The symbol at position `i`, with its length.
pub open spec fn symbol_at(s: Seq<char>, i: int) -> Option<(Symbol, int)> {
    if char_at(s, i, '&') && char_at(s, i + 1, '&') {
        Some((Symbol::AndAnd, 2))
    } else if char_at(s, i, '|') && char_at(s, i + 1, '|') {
        Some((Symbol::OrOr, 2))
    } else if char_at(s, i, '=') && char_at(s, i + 1, '=') {
        Some((Symbol::EqualEqual, 2))
    } else if char_at(s, i, '!') && char_at(s, i + 1, '=') {
        Some((Symbol::NotEqual, 2))
    } else if char_at(s, i, '<') && char_at(s, i + 1, '=') {
        Some((Symbol::LessEqual, 2))
    } else if char_at(s, i, '>') && char_at(s, i + 1, '=') {
        Some((Symbol::GreaterEqual, 2))
    } else if char_at(s, i, '!') {
        Some((Symbol::Not, 1))
    } else if char_at(s, i, '<') {
        Some((Symbol::Less, 1))
    } else if char_at(s, i, '>') {
        Some((Symbol::Greater, 1))
    } else if char_at(s, i, '(') {
        Some((Symbol::LeftParen, 1))
    } else if char_at(s, i, ')') {
        Some((Symbol::RightParen, 1))
    } else if char_at(s, i, '[') {
        Some((Symbol::LeftBracket, 1))
    } else if char_at(s, i, ']') {
        Some((Symbol::RightBracket, 1))
    } else if char_at(s, i, '{') {
        Some((Symbol::LeftBrace, 1))
    } else if char_at(s, i, '}') {
        Some((Symbol::RightBrace, 1))
    } else if char_at(s, i, '.') {
        Some((Symbol::Dot, 1))
    } else if char_at(s, i, ',') {
        Some((Symbol::Comma, 1))
    } else if char_at(s, i, ':') {
        Some((Symbol::Colon, 1))
    } else if char_at(s, i, '?') {
        Some((Symbol::Question, 1))
    } else if char_at(s, i, '+') {
        Some((Symbol::Plus, 1))
    } else if char_at(s, i, '-') {
        Some((Symbol::Minus, 1))
    } else if char_at(s, i, '*') {
        Some((Symbol::Star, 1))
    } else if char_at(s, i, '/') {
        Some((Symbol::Slash, 1))
    } else if char_at(s, i, '%') {
        Some((Symbol::Percent, 1))
    } else {
        None
    }
}

/// The token that begins at position `i`, and where it ends.
pub open spec fn lex_token(s: Seq<char>, i: int) -> Result<(Tok, int), Mistake> {
    if class_at(s, i, CharClass::Digit) {
        lex_number(s, i)
    } else if quote_at(s, i) {
        match lex_text(s, i + 1, s[i], false, seq![]) {
            Ok((text, end)) => Ok((Tok::Text(text), end)),
            Err(e) => Err(e),
        }
    } else if (char_at(s, i, 'r') || char_at(s, i, 'R')) && quote_at(s, i + 1) {
        match lex_text(s, i + 2, s[i + 1], true, seq![]) {
            Ok((text, end)) => Ok((Tok::Text(text), end)),
            Err(e) => Err(e),
        }
    } else if (char_at(s, i, 'b') || char_at(s, i, 'B')) && quote_at(s, i + 1) {
        match lex_text(s, i + 2, s[i + 1], false, seq![]) {
            Ok((text, end)) => Ok((Tok::Bytes(encode_utf8(text)), end)),
            Err(e) => Err(e),
        }
    } else if class_at(s, i, CharClass::Letter) {
        let end = run_end(s, i, CharClass::Word);
        let word = s.subrange(i, end);
        match reserved(word) {
            Some(symbol) => Ok((Tok::Symbol(symbol), end)),
            None => Ok((Tok::Ident(word), end)),
        }
    } else {
        match symbol_at(s, i) {
            Some((symbol, len)) => Ok((Tok::Symbol(symbol), i + len)),
            None => Err((ParseErrorKind::UnexpectedCharacter, i)),
        }
    }
}

/// A token ends inside the text, and past its first character.
pub proof fn lemma_token_end(s: Seq<char>, i: int)
    ensures
        lex_token(s, i) matches Ok((_, end)) ==> i < end <= s.len(),
{
    if class_at(s, i, CharClass::Digit) {
        lemma_run_end(s, i + 2, CharClass::HexDigit);
        lemma_run_end(s, i, CharClass::Digit);
        let whole = run_end(s, i, CharClass::Digit);
        lemma_run_end(s, whole + 1, CharClass::Digit);
        let fraction = run_end(s, whole + 1, CharClass::Digit);
        lemma_run_end(s, whole + 2, CharClass::Digit);
        lemma_run_end(s, fraction + 1, CharClass::Digit);
        lemma_run_end(s, fraction + 2, CharClass::Digit);
    } else if quote_at(s, i) {
        lemma_text_end(s, i + 1, s[i], false, seq![]);
    } else if (char_at(s, i, 'r') || char_at(s, i, 'R')) && quote_at(s, i + 1) {
        lemma_text_end(s, i + 2, s[i + 1], true, seq![]);
    } else if (char_at(s, i, 'b') || char_at(s, i, 'B')) && quote_at(s, i + 1) {
        lemma_text_end(s, i + 2, s[i + 1], false, seq![]);
    } else if class_at(s, i, CharClass::Letter) {
        lemma_run_end(s, i, CharClass::Word);
    }
}

/// The tokens from position `i` on.
pub open spec fn lex(s: Seq<char>, i: int) -> Result<Seq<(Tok, int)>, Mistake>
    decreases s.len() - i,
{
    let start = next_start(s, i);
    if start >= s.len() {
        Ok(seq![])
    } else {
        proof {
            lemma_next_start(s, i);
            lemma_token_end(s, start);
        }
        match lex_token(s, start) {
            Ok((tok, end)) => match lex(s, end) {
                Ok(rest) => Ok(seq![(tok, start)] + rest),
                Err(e) => Err(e),
            },
            Err(e) => Err(e),
        }
    }
}

fn has_char(s: &Vec<char>, i: usize, c: char) -> (yes: bool)
    ensures
        yes == char_at(s@, i as int, c),
        s@.len() <= usize::MAX,
{
    i < s.len() && s[i] == c
}

fn has_class(s: &Vec<char>, i: usize, class: CharClass) -> (yes: bool)
    ensures
        yes == class_at(s@, i as int, class),
        s@.len() <= usize::MAX,
{
    i < s.len() && class.contains(s[i])
}

fn has_quote(s: &Vec<char>, i: usize) -> (yes: bool)
    ensures
        yes == quote_at(s@, i as int),
        s@.len() <= usize::MAX,
{
    has_char(s, i, '\'') || has_char(s, i, '"')
}

fn end_of_run(s: &Vec<char>, i: usize, class: CharClass) -> (end: usize)
    requires
        i <= s@.len(),
    ensures
        end == run_end(s@, i as int, class),
        i <= end <= s@.len(),
{
    let mut k: usize = i;
    while has_class(s, k, class)
        invariant
            i <= k <= s@.len(),
            run_end(s@, k as int, class) == run_end(s@, i as int, class),
        decreases s@.len() - k,
    {
        k += 1;
    }
    k
}

fn start_of_next(s: &Vec<char>, i: usize) -> (start: usize)
    requires
        i <= s@.len(),
    ensures
        start == next_start(s@, i as int),
        i <= start <= s@.len(),
{
    let mut k: usize = i;
    loop
        invariant
            i <= k <= s@.len(),
            next_start(s@, k as int) == next_start(s@, i as int),
        decreases s@.len() - k,
    {
        if has_class(s, k, CharClass::Space) {
            k += 1;
        } else if has_char(s, k, '/') && has_char(s, k + 1, '/') {
            proof {
                lemma_run_end(s@, k as int, CharClass::NotLineEnd);
            }
            k = end_of_run(s, k, CharClass::NotLineEnd);
        } else {
            return k;
        }
    }
}

fn value_of_digit(c: char) -> (v: u64)
    requires
        CharClass::HexDigit.holds(c),
    ensures
        v == digit_value(c),
        v < 16,
{
    if '0' <= c && c <= '9' {
        (c as u64) - ('0' as u64)
    } else if 'a' <= c && c <= 'f' {
        (c as u64) - ('a' as u64) + 10
    } else {
        (c as u64) - ('A' as u64) + 10
    }
}

/// The digits of a run belong to the class.
proof fn lemma_run_holds(s: Seq<char>, i: int, k: int, class: CharClass)
    requires
        i <= k < run_end(s, i, class),
    ensures
        class_at(s, k, class),
    decreases k - i,
{
    if i < k {
        lemma_run_holds(s, i + 1, k, class);
    }
}

/// A longer number in the same digits is no smaller.
proof fn lemma_number_grows(s: Seq<char>, i: int, k: int, j: int, base: nat)
    requires
        i <= k <= j,
        base >= 1,
    ensures
        number_between(s, i, k, base) <= number_between(s, i, j, base),
    decreases j - k,
{
    if k < j {
        lemma_number_grows(s, i, k, j - 1, base);
        let n = number_between(s, i, j - 1, base);
        assert(n <= n * base) by (nonlinear_arith)
            requires
                base >= 1,
        ;
    }
}

fn read_number(s: &Vec<char>, start: usize, i: usize, class: CharClass, base: u64) -> (r: Result<
    (Token, usize),
    (ParseErrorKind, usize),
>)
    requires
        i < s@.len(),
        (class == CharClass::Digit && base == 10) || (class == CharClass::HexDigit && base == 16),
    ensures
        token_result(r) == number_token(
            s@,
            start as int,
            i as int,
            run_end(s@, i as int, class),
            base as nat,
        ),
{
    let j: usize = end_of_run(s, i, class);
    let mut n: u64 = 0;
    let mut k: usize = i;
    while k < j
        invariant
            i <= k <= j <= s@.len(),
            j == run_end(s@, i as int, class),
            n == number_between(s@, i as int, k as int, base as nat),
            (class == CharClass::Digit && base == 10) || (class == CharClass::HexDigit && base
                == 16),
        decreases j - k,
    {
        proof {
            lemma_run_holds(s@, i as int, k as int, class);
            lemma_number_grows(s@, i as int, k + 1, j as int, base as nat);
        }
        let scaled: u128 = (n as u128) * (base as u128) + (value_of_digit(s[k]) as u128);
        if scaled > 0xffff_ffff_ffff_ffff {
            return Err((ParseErrorKind::NumberTooLarge, start));
        }
        n = scaled as u64;
        k += 1;
    }
    if has_char(s, j, 'u') || has_char(s, j, 'U') {
        Ok((Token::UInt(n), j + 1))
    } else {
        Ok((Token::Int(n), j))
    }
}

/// The result of reading a token, in the model.
pub open spec fn token_result(r: Result<(Token, usize), (ParseErrorKind, usize)>) -> Result<
    (Tok, int),
    Mistake,
> {
    match r {
        Ok((token, end)) => Ok((token@, end as int)),
        Err((kind, at)) => Err((kind, at as int)),
    }
}

fn end_of_exponent(s: &Vec<char>, i: usize) -> (end: usize)
    requires
        i <= s@.len(),
    ensures
        end == exponent_end(s@, i as int),
        i <= end <= s@.len(),
{
    if has_char(s, i, 'e') || has_char(s, i, 'E') {
        let k: usize = if has_char(s, i + 1, '+') || has_char(s, i + 1, '-') {
            i + 2
        } else {
            i + 1
        };
        if has_class(s, k, CharClass::Digit) {
            end_of_run(s, k, CharClass::Digit)
        } else {
            i
        }
    } else {
        i
    }
}

fn read_numeral(source: &str, s: &Vec<char>, i: usize) -> (r: Result<
    (Token, usize),
    (ParseErrorKind, usize),
>)
    requires
        source@ == s@,
        class_at(s@, i as int, CharClass::Digit),
    ensures
        token_result(r) == lex_number(s@, i as int),
{
    if has_char(s, i, '0') && (has_char(s, i + 1, 'x') || has_char(s, i + 1, 'X')) && has_class(
        s,
        i + 2,
        CharClass::HexDigit,
    ) {
        read_number(s, i, i + 2, CharClass::HexDigit, 16)
    } else {
        let whole: usize = end_of_run(s, i, CharClass::Digit);
        let fraction: usize = if has_char(s, whole, '.') && has_class(
            s,
            whole + 1,
            CharClass::Digit,
        ) {
            end_of_run(s, whole + 1, CharClass::Digit)
        } else {
            whole
        };
        let end: usize = end_of_exponent(s, fraction);
        if end > whole {
            Ok((Token::Double(source.substring_char(i, end).to_string()), end))
        } else {
            read_number(s, i, i, CharClass::Digit, 10)
        }
    }
}

fn escape_text(c: char) -> (text: Option<&'static str>)
    ensures
        match text {
            Some(t) => escaped(c) is Some && t@ == seq![escaped(c)->0],
            None => escaped(c) is None,
        },
{
    proof {
        reveal_strlit("\n");
        reveal_strlit("\r");
        reveal_strlit("\t");
        reveal_strlit("\\");
        reveal_strlit("'");
        reveal_strlit("\"");
        reveal_strlit("`");
        reveal_strlit("?");
    }
    let text = if c == 'n' {
        Some("\n")
    } else if c == 'r' {
        Some("\r")
    } else if c == 't' {
        Some("\t")
    } else if c == '\\' {
        Some("\\")
    } else if c == '\'' {
        Some("'")
    } else if c == '"' {
        Some("\"")
    } else if c == '`' {
        Some("`")
    } else if c == '?' {
        Some("?")
    } else {
        None
    };
    if let Some(t) = text {
        assert(t@ =~= seq![escaped(c)->0]);
    }
    text
}

fn read_text(source: &str, s: &Vec<char>, start: usize, quote: char, raw: bool) -> (r: Result<
    (String, usize),
    (ParseErrorKind, usize),
>)
    requires
        source@ == s@,
        start <= s@.len(),
    ensures
        match r {
            Ok((text, end)) => lex_text(s@, start as int, quote, raw, seq![]) == Ok::<
                (Seq<char>, int),
                Mistake,
            >((text@, end as int)),
            Err((kind, at)) => lex_text(s@, start as int, quote, raw, seq![]) == Err::<
                (Seq<char>, int),
                Mistake,
            >((kind, at as int)),
        },
{
    let mut text = "".to_string();
    let mut run: usize = start;
    let mut k: usize = start;
    proof {
        reveal_strlit("");
        assert(text@ + s@.subrange(run as int, k as int) =~= seq![]);
    }
    loop
        invariant
            source@ == s@,
            start <= run <= k <= s@.len(),
            lex_text(s@, k as int, quote, raw, text@ + s@.subrange(run as int, k as int))
                == lex_text(s@, start as int, quote, raw, seq![]),
        decreases s@.len() - k,
    {
        if k >= s.len() || s[k] == '\n' {
            return Err((ParseErrorKind::UnterminatedText, k));
        }
        if s[k] == quote {
            text.append(source.substring_char(run, k));
            return Ok((text, k + 1));
        }
        if s[k] == '\\' && !raw {
            if k + 1 >= s.len() {
                return Err((ParseErrorKind::UnterminatedText, k + 1));
            }
            match escape_text(s[k + 1]) {
                Some(c) => {
                    let ghost acc = text@ + s@.subrange(run as int, k as int);
                    text.append(source.substring_char(run, k));
                    text.append(c);
                    k += 2;
                    run = k;
                    assert(text@ + s@.subrange(run as int, k as int) =~= acc.push(c@[0]));
                },
                None => {
                    return Err((ParseErrorKind::UnknownEscape, k));
                },
            }
        } else {
            assert((text@ + s@.subrange(run as int, k as int)).push(s@[k as int]) =~= text@
                + s@.subrange(run as int, k + 1));
            k += 1;
        }
    }
}

fn reserved_symbol(word: &str) -> (symbol: Option<Symbol>)
    ensures
        symbol == reserved(word@),
{
    if same_text(word, "in") {
        Some(Symbol::In)
    } else if same_text(word, "true") {
        Some(Symbol::True)
    } else if same_text(word, "false") {
        Some(Symbol::False)
    } else if same_text(word, "null") {
        Some(Symbol::Null)
    } else {
        None
    }
}

fn read_symbol(s: &Vec<char>, i: usize) -> (symbol: Option<(Symbol, usize)>)
    requires
        i < s@.len(),
    ensures
        match symbol {
            Some((symbol, len)) => symbol_at(s@, i as int) == Some((symbol, len as int)),
            None => symbol_at(s@, i as int) is None,
        },
{
    if has_char(s, i, '&') && has_char(s, i + 1, '&') {
        Some((Symbol::AndAnd, 2))
    } else if has_char(s, i, '|') && has_char(s, i + 1, '|') {
        Some((Symbol::OrOr, 2))
    } else if has_char(s, i, '=') && has_char(s, i + 1, '=') {
        Some((Symbol::EqualEqual, 2))
    } else if has_char(s, i, '!') && has_char(s, i + 1, '=') {
        Some((Symbol::NotEqual, 2))
    } else if has_char(s, i, '<') && has_char(s, i + 1, '=') {
        Some((Symbol::LessEqual, 2))
    } else if has_char(s, i, '>') && has_char(s, i + 1, '=') {
        Some((Symbol::GreaterEqual, 2))
    } else if has_char(s, i, '!') {
        Some((Symbol::Not, 1))
    } else if has_char(s, i, '<') {
        Some((Symbol::Less, 1))
    } else if has_char(s, i, '>') {
        Some((Symbol::Greater, 1))
    } else if has_char(s, i, '(') {
        Some((Symbol::LeftParen, 1))
    } else if has_char(s, i, ')') {
        Some((Symbol::RightParen, 1))
    } else if has_char(s, i, '[') {
        Some((Symbol::LeftBracket, 1))
    } else if has_char(s, i, ']') {
        Some((Symbol::RightBracket, 1))
    } else if has_char(s, i, '{') {
        Some((Symbol::LeftBrace, 1))
    } else if has_char(s, i, '}') {
        Some((Symbol::RightBrace, 1))
    } else if has_char(s, i, '.') {
        Some((Symbol::Dot, 1))
    } else if has_char(s, i, ',') {
        Some((Symbol::Comma, 1))
    } else if has_char(s, i, ':') {
        Some((Symbol::Colon, 1))
    } else if has_char(s, i, '?') {
        Some((Symbol::Question, 1))
    } else if has_char(s, i, '+') {
        Some((Symbol::Plus, 1))
    } else if has_char(s, i, '-') {
        Some((Symbol::Minus, 1))
    } else if has_char(s, i, '*') {
        Some((Symbol::Star, 1))
    } else if has_char(s, i, '/') {
        Some((Symbol::Slash, 1))
    } else if has_char(s, i, '%') {
        Some((Symbol::Percent, 1))
    } else {
        None
    }
}

fn read_token(source: &str, s: &Vec<char>, i: usize) -> (r: Result<
    (Token, usize),
    (ParseErrorKind, usize),
>)
    requires
        source@ == s@,
        i < s@.len(),
    ensures
        token_result(r) == lex_token(s@, i as int),
{
    if has_class(s, i, CharClass::Digit) {
        read_numeral(source, s, i)
    } else if has_quote(s, i) {
        match read_text(source, s, i + 1, s[i], false) {
            Ok((text, end)) => Ok((Token::Text(text), end)),
            Err(e) => Err(e),
        }
    } else if (has_char(s, i, 'r') || has_char(s, i, 'R')) && has_quote(s, i + 1) {
        match read_text(source, s, i + 2, s[i + 1], true) {
            Ok((text, end)) => Ok((Token::Text(text), end)),
            Err(e) => Err(e),
        }
    } else if (has_char(s, i, 'b') || has_char(s, i, 'B')) && has_quote(s, i + 1) {
        match read_text(source, s, i + 2, s[i + 1], false) {
            Ok((text, end)) => Ok((Token::Bytes(text.as_str().as_bytes_vec()), end)),
            Err(e) => Err(e),
        }
    } else if has_class(s, i, CharClass::Letter) {
        let end: usize = end_of_run(s, i, CharClass::Word);
        let word = source.substring_char(i, end);
        match reserved_symbol(word) {
            Some(symbol) => Ok((Token::Symbol(symbol), end)),
            None => Ok((Token::Ident(word.to_string()), end)),
        }
    } else {
        match read_symbol(s, i) {
            Some((symbol, len)) => {
                proof {
                    lemma_token_end(s@, i as int);
                }
                Ok((Token::Symbol(symbol), i + len))
            },
            None => Err((ParseErrorKind::UnexpectedCharacter, i)),
        }
    }
}

/// The tokens of a sequence of lexemes, with their positions.
pub open spec fn lexemes(tokens: Seq<Lexeme>) -> Seq<(Tok, int)> {
    Seq::new(tokens.len(), |i: int| tokens[i]@)
}

/// The tokens `done`, and after them those of `rest`.
pub open spec fn lexed_after(
    done: Seq<(Tok, int)>,
    rest: Result<Seq<(Tok, int)>, Mistake>,
) -> Result<Seq<(Tok, int)>, Mistake> {
    match rest {
        Ok(tokens) => Ok(done + tokens),
        Err(e) => Err(e),
    }
}

/// The tokens of a source text.
pub fn tokens_of(source: &str) -> (r: Result<Vec<Lexeme>, (ParseErrorKind, usize)>)
    ensures
        match r {
            Ok(tokens) => lex(source@, 0) == Ok::<Seq<(Tok, int)>, Mistake>(lexemes(tokens@)),
            Err((kind, at)) => lex(source@, 0) == Err::<Seq<(Tok, int)>, Mistake>(
                (kind, at as int),
            ),
        },
{
    let s = chars_of(source);
    let mut tokens: Vec<Lexeme> = Vec::new();
    let mut i: usize = 0;
    proof {
        if lex(s@, 0) is Ok {
            assert(lexemes(tokens@) + lex(s@, 0)->Ok_0 =~= lex(s@, 0)->Ok_0);
        }
    }
    loop
        invariant
            source@ == s@,
            i <= s@.len(),
            lexed_after(lexemes(tokens@), lex(s@, i as int)) == lex(s@, 0),
        decreases s@.len() - i,
    {
        let start: usize = start_of_next(&s, i);
        if start >= s.len() {
            assert(lexemes(tokens@) + seq![] =~= lexemes(tokens@));
            return Ok(tokens);
        }
        proof {
            lemma_token_end(s@, start as int);
        }
        match read_token(source, &s, start) {
            Ok((token, end)) => {
                let ghost before = lexemes(tokens@);
                let ghost tok = token@;
                tokens.push(Lexeme { token, at: start });
                assert(lexemes(tokens@) =~= before.push((tok, start as int)));
                proof {
                    if lex(s@, end as int) is Ok {
                        let rest = lex(s@, end as int)->Ok_0;
                        assert(before + (seq![(tok, start as int)] + rest) =~= lexemes(tokens@)
                            + rest);
                    }
                }
                i = end;
            },
            Err(e) => {
                return Err(e);
            },
        }
    }
}

} // verus!
