//! The grammar of the source language: which tree a sequence of tokens stands for.
//!
//! Every function here reads tokens from a position on and numbers the nodes
//! that it makes from `n` on. It gives back the tree, the position after it and
//! the next free number. Where a definition asks that a position has moved on,
//! that is only to show that the definition is well founded: reading always does.

use vstd::prelude::*;
use crate::ast::{Ast, Entry, EntryNode, Lit, Node};
use crate::lexer::{lex, Mistake, ParseErrorKind, Symbol, Tok};
use crate::macros::{call_node, expand, literal_node, numbered_node};
use crate::operators;

verus! {

/// Tokens with their positions, and the length of the text that they come from.
pub struct Source {
    pub tokens: Seq<(Tok, int)>,
    pub end: int,
}

/// A tree, the position after it, and the next free number.
pub type Parsed = Result<(Ast, int, nat), Mistake>;

/// Trees in a row, the position after them, and the next free number.
pub type ParsedAll = Result<(Seq<Ast>, int, nat), Mistake>;

/// Map entries in a row, the position after them, and the next free number.
pub type ParsedEntries = Result<(Seq<Entry>, int, nat), Mistake>;

/// The tightest binary operators have this level.
pub const UNARY_LEVEL: u8 = 5;

impl Source {
    /// The symbol stands at position `p`.
    pub open spec fn has(self, p: int, symbol: Symbol) -> bool {
        0 <= p < self.tokens.len() && self.tokens[p].0 == Tok::Symbol(symbol)
    }

    /// Where in the text the token at position `p` stands.
    pub open spec fn at(self, p: int) -> int {
        if 0 <= p < self.tokens.len() {
            self.tokens[p].1
        } else {
            self.end
        }
    }

    /// The token at position `p` cannot stand there.
    pub open spec fn unexpected(self, p: int) -> Mistake {
        if 0 <= p < self.tokens.len() {
            (ParseErrorKind::UnexpectedToken, self.tokens[p].1)
        } else {
            (ParseErrorKind::UnexpectedEnd, self.end)
        }
    }

    /// How many tokens there are from position `p` on.
    pub open spec fn left(self, p: int) -> int {
        self.tokens.len() - p
    }

    /// The position `q` lies behind `p`.
    pub open spec fn moves(self, p: int, q: int) -> bool {
        0 <= p < q <= self.tokens.len()
    }
}

/// The level of a binary operator, and its function. The levels bind ever tighter.
pub open spec fn binary_operator(symbol: Symbol) -> Option<(int, Seq<char>)> {
    match symbol {
        Symbol::OrOr => Some((0, operators::LOGICAL_OR@)),
        Symbol::AndAnd => Some((1, operators::LOGICAL_AND@)),
        Symbol::EqualEqual => Some((2, operators::EQUALS@)),
        Symbol::NotEqual => Some((2, operators::NOT_EQUALS@)),
        Symbol::Less => Some((2, operators::LESS@)),
        Symbol::LessEqual => Some((2, operators::LESS_EQUALS@)),
        Symbol::Greater => Some((2, operators::GREATER@)),
        Symbol::GreaterEqual => Some((2, operators::GREATER_EQUALS@)),
        Symbol::In => Some((2, operators::IN@)),
        Symbol::Plus => Some((3, operators::ADD@)),
        Symbol::Minus => Some((3, operators::SUBTRACT@)),
        Symbol::Star => Some((4, operators::MULTIPLY@)),
        Symbol::Slash => Some((4, operators::DIVIDE@)),
        Symbol::Percent => Some((4, operators::MODULO@)),
        _ => None,
    }
}

/// The function of the binary operator of the level at position `p`.
pub open spec fn operator_at(src: Source, p: int, level: int) -> Option<Seq<char>> {
    if 0 <= p < src.tokens.len() {
        match src.tokens[p].0 {
            Tok::Symbol(symbol) => match binary_operator(symbol) {
                Some((l, func)) => if l == level {
                    Some(func)
                } else {
                    None
                },
                None => None,
            },
            _ => None,
        }
    } else {
        None
    }
}

/// An expression: `a`, or `a ? b : c` with the conditional to the right.
pub open spec fn expr(src: Source, p: int, n: nat) -> Parsed
    decreases src.left(p), 10int,
{
    match binary(src, p, n, 0) {
        Ok((test, q, m)) => if !src.moves(p, q) {
            Err(src.unexpected(q))
        } else if !src.has(q, Symbol::Question) {
            Ok((test, q, m))
        } else {
            match binary(src, q + 1, m, 0) {
                Ok((yes, q2, m2)) => if !src.moves(q + 1, q2) || !src.has(q2, Symbol::Colon) {
                    Err(src.unexpected(q2))
                } else {
                    match expr(src, q2 + 1, m2) {
                        Ok((no, q3, m3)) => Ok(
                            (
                                call_node(m3, operators::CONDITIONAL@, seq![test, yes, no]),
                                q3,
                                m3 + 1,
                            ),
                        ),
                        Err(e) => Err(e),
                    }
                },
                Err(e) => Err(e),
            }
        },
        Err(e) => Err(e),
    }
}

/// Operands joined by the binary operators of the level and of the levels above it.
pub open spec fn binary(src: Source, p: int, n: nat, level: int) -> Parsed
    decreases src.left(p), 4 + (if 0 <= level < UNARY_LEVEL {
            UNARY_LEVEL - level
        } else {
            0
        }),
{
    if level < 0 || level >= UNARY_LEVEL {
        unary(src, p, n)
    } else {
        match binary(src, p, n, level + 1) {
            Ok((first, q, m)) => if src.moves(p, q) {
                binary_rest(src, first, q, m, level)
            } else {
                Err(src.unexpected(q))
            },
            Err(e) => Err(e),
        }
    }
}

/// What follows a left operand at the level. The operators group to the left.
pub open spec fn binary_rest(src: Source, first: Ast, p: int, n: nat, level: int) -> Parsed
    decreases src.left(p), 0int,
{
    match operator_at(src, p, level) {
        None => Ok((first, p, n)),
        Some(func) => match binary(src, p + 1, n, level + 1) {
            Ok((second, q, m)) => if src.moves(p + 1, q) {
                binary_rest(src, call_node(m, func, seq![first, second]), q, m + 1, level)
            } else {
                Err(src.unexpected(q))
            },
            Err(e) => Err(e),
        },
    }
}

/// `!a`, `-a`, or a member expression. A minus sign before a number belongs to it.
pub open spec fn unary(src: Source, p: int, n: nat) -> Parsed
    decreases src.left(p), 3int,
{
    if src.has(p, Symbol::Not) {
        match unary(src, p + 1, n) {
            Ok((a, q, m)) => Ok((call_node(m, operators::LOGICAL_NOT@, seq![a]), q, m + 1)),
            Err(e) => Err(e),
        }
    } else if src.has(p, Symbol::Minus) {
        if p + 1 < src.tokens.len() && src.tokens[p + 1].0 is Int {
            let magnitude = src.tokens[p + 1].0->Int_0;
            if magnitude > 0x8000_0000_0000_0000 {
                Err((ParseErrorKind::NumberTooLarge, src.at(p + 1)))
            } else {
                member_rest(
                    src,
                    literal_node(n, Lit::Int((-(magnitude as int)) as i64)),
                    p + 2,
                    n + 1,
                )
            }
        } else {
            match unary(src, p + 1, n) {
                Ok((a, q, m)) => Ok((call_node(m, operators::NEGATE@, seq![a]), q, m + 1)),
                Err(e) => Err(e),
            }
        }
    } else {
        match primary(src, p, n) {
            Ok((a, q, m)) => if src.moves(p, q) {
                member_rest(src, a, q, m)
            } else {
                Err(src.unexpected(q))
            },
            Err(e) => Err(e),
        }
    }
}

/// What follows an operand: `.field`, `.method(..)` and `[index]`.
pub open spec fn member_rest(src: Source, first: Ast, p: int, n: nat) -> Parsed
    decreases src.left(p), 0int,
{
    if src.has(p, Symbol::Dot) {
        if p + 1 < src.tokens.len() && src.tokens[p + 1].0 is Ident {
            let name = src.tokens[p + 1].0->Ident_0;
            if src.has(p + 2, Symbol::LeftParen) {
                match items(src, p + 3, n, Symbol::RightParen) {
                    Ok((args, q, m)) => if src.moves(p, q) {
                        match expand(name, Some(first), args, m, src.at(p + 1)) {
                            Ok((a, m2)) => member_rest(src, a, q, m2),
                            Err(e) => Err(e),
                        }
                    } else {
                        Err(src.unexpected(q))
                    },
                    Err(e) => Err(e),
                }
            } else {
                member_rest(
                    src,
                    numbered_node(
                        n,
                        Node::Select { operand: Box::new(first), field: name, test: false },
                    ),
                    p + 2,
                    n + 1,
                )
            }
        } else {
            Err(src.unexpected(p + 1))
        }
    } else if src.has(p, Symbol::LeftBracket) {
        match expr(src, p + 1, n) {
            Ok((index, q, m)) => if src.moves(p + 1, q) && src.has(q, Symbol::RightBracket) {
                member_rest(
                    src,
                    call_node(m, operators::INDEX@, seq![first, index]),
                    q + 1,
                    m + 1,
                )
            } else {
                Err(src.unexpected(q))
            },
            Err(e) => Err(e),
        }
    } else {
        Ok((first, p, n))
    }
}

/// The constant that a token is by itself.
pub open spec fn constant(tok: Tok) -> Option<Lit> {
    match tok {
        Tok::Symbol(Symbol::True) => Some(Lit::Bool(true)),
        Tok::Symbol(Symbol::False) => Some(Lit::Bool(false)),
        Tok::Symbol(Symbol::Null) => Some(Lit::Null),
        Tok::Int(i) => if i <= i64::MAX {
            Some(Lit::Int(i as i64))
        } else {
            None
        },
        Tok::UInt(u) => Some(Lit::UInt(u)),
        Tok::Double(s) => Some(Lit::Double(s)),
        Tok::Text(s) => Some(Lit::Text(s)),
        Tok::Bytes(b) => Some(Lit::Bytes(b)),
        _ => None,
    }
}

/// A constant, a name, a call, a list, a map, or an expression in brackets.
pub open spec fn primary(src: Source, p: int, n: nat) -> Parsed
    decreases src.left(p), 2int,
{
    if p < 0 || p >= src.tokens.len() {
        Err(src.unexpected(p))
    } else {
        match src.tokens[p].0 {
            Tok::Ident(name) => if src.has(p + 1, Symbol::LeftParen) {
                match items(src, p + 2, n, Symbol::RightParen) {
                    Ok((args, q, m)) => match expand(name, None, args, m, src.at(p)) {
                        Ok((a, m2)) => Ok((a, q, m2)),
                        Err(e) => Err(e),
                    },
                    Err(e) => Err(e),
                }
            } else {
                Ok((numbered_node(n, Node::Ident(name)), p + 1, n + 1))
            },
            Tok::Symbol(Symbol::LeftParen) => match expr(src, p + 1, n) {
                Ok((a, q, m)) => if src.has(q, Symbol::RightParen) {
                    Ok((a, q + 1, m))
                } else {
                    Err(src.unexpected(q))
                },
                Err(e) => Err(e),
            },
            Tok::Symbol(Symbol::LeftBracket) => match items(
                src,
                p + 1,
                n,
                Symbol::RightBracket,
            ) {
                Ok((elements, q, m)) => Ok((numbered_node(m, Node::List(elements)), q, m + 1)),
                Err(e) => Err(e),
            },
            Tok::Symbol(Symbol::LeftBrace) => match entries(src, p + 1, n) {
                Ok((list, q, m)) => Ok((numbered_node(m, Node::Dict(list)), q, m + 1)),
                Err(e) => Err(e),
            },
            tok => match constant(tok) {
                Some(lit) => Ok((literal_node(n, lit), p + 1, n + 1)),
                None => if tok is Int {
                    Err((ParseErrorKind::NumberTooLarge, src.at(p)))
                } else {
                    Err(src.unexpected(p))
                },
            },
        }
    }
}

/// Expressions with commas between them, up to and with the closing symbol.
pub open spec fn items(src: Source, p: int, n: nat, close: Symbol) -> ParsedAll
    decreases src.left(p), 12int,
{
    if src.has(p, close) {
        Ok((seq![], p + 1, n))
    } else {
        items_rest(src, seq![], p, n, close)
    }
}

/// Further expressions after `done`. Only a list may end in a comma.
pub open spec fn items_rest(src: Source, done: Seq<Ast>, p: int, n: nat, close: Symbol) -> ParsedAll
    decreases src.left(p), 11int,
{
    match expr(src, p, n) {
        Ok((a, q, m)) => if src.has(q, close) {
            Ok((done.push(a), q + 1, m))
        } else if !src.moves(p, q) || !src.has(q, Symbol::Comma) {
            Err(src.unexpected(q))
        } else if close == Symbol::RightBracket && src.has(q + 1, close) {
            Ok((done.push(a), q + 2, m))
        } else {
            items_rest(src, done.push(a), q + 1, m, close)
        },
        Err(e) => Err(e),
    }
}

/// Map entries with commas between them, up to and with the closing brace.
pub open spec fn entries(src: Source, p: int, n: nat) -> ParsedEntries
    decreases src.left(p), 12int,
{
    if src.has(p, Symbol::RightBrace) {
        Ok((seq![], p + 1, n))
    } else {
        entries_rest(src, seq![], p, n)
    }
}

/// The entry `key: value`.
pub open spec fn entry_node(id: nat, key: Ast, value: Ast) -> Entry {
    Entry { id: id as u64, entry: EntryNode::MapEntry { key, value } }
}

/// Further map entries after `done`. The last may be followed by a comma.
pub open spec fn entries_rest(src: Source, done: Seq<Entry>, p: int, n: nat) -> ParsedEntries
    decreases src.left(p), 11int,
{
    match expr(src, p, n) {
        Ok((key, q, m)) => if !src.moves(p, q) || !src.has(q, Symbol::Colon) {
            Err(src.unexpected(q))
        } else {
            match expr(src, q + 1, m) {
                Ok((value, q2, m2)) => {
                    let list = done.push(entry_node(m2, key, value));
                    if src.has(q2, Symbol::RightBrace) {
                        Ok((list, q2 + 1, m2 + 1))
                    } else if !src.moves(q + 1, q2) || !src.has(q2, Symbol::Comma) {
                        Err(src.unexpected(q2))
                    } else if src.has(q2 + 1, Symbol::RightBrace) {
                        Ok((list, q2 + 2, m2 + 1))
                    } else {
                        entries_rest(src, list, q2 + 1, m2 + 1)
                    }
                },
                Err(e) => Err(e),
            }
        },
        Err(e) => Err(e),
    }
}

/// A source text may have this many tokens.
pub const TOKEN_LIMIT: u64 = 0x0400_0000_0000_0000;

/// The first node gets this number.
pub const FIRST_ID: u64 = 1;

/// The tree of a source text: one expression, with nothing after it.
pub open spec fn parsed(text: Seq<char>) -> Result<Ast, Mistake> {
    match lex(text, 0) {
        Ok(tokens) => {
            let src = Source { tokens, end: text.len() as int };
            if tokens.len() > TOKEN_LIMIT {
                Err((ParseErrorKind::SourceTooLong, src.end))
            } else {
                match expr(src, 0, FIRST_ID as nat) {
                    Ok((tree, q, _)) => if q == tokens.len() {
                        Ok(tree)
                    } else {
                        Err(src.unexpected(q))
                    },
                    Err(e) => Err(e),
                }
            }
        },
        Err(e) => Err(e),
    }
}

} // verus!
