//! From tokens to the expression tree.

use vstd::prelude::*;
use vstd::string::*;
use crate::ast::{
    entry_kids, entry_models, models, Ast, Entry, EntryExpr, Expr, Expression, IdedEntryExpr,
    IdedExpr, Literal, MapEntryExpr, MapExpr, SelectExpr,
};
use crate::grammar::{
    binary, binary_operator, binary_rest, constant, entries, entries_rest, entry_node, expr, items,
    items_rest, member_rest, operator_at, parsed, primary, unary, Parsed, ParsedAll, ParsedEntries,
    Source, FIRST_ID, TOKEN_LIMIT, UNARY_LEVEL,
};
use crate::lexer::{lexemes, tokens_of, Lexeme, Mistake, ParseErrorKind, Symbol, Token};
use crate::macros::{
    call_expr, expand_call, expand_method, ident_expr, lemma_expand, list_expr, literal_expr, one,
    three, two,
};
use crate::numbering::{
    in_order, lemma_in_order_push, lemma_ordered_root, lemma_over_one, lemma_over_three,
    lemma_over_two, lemma_root, lemma_wider, numbered,
};
use crate::operators;

verus! {

/// What is wrong with a source text, and at which character.
#[derive(Debug, Clone, Copy, PartialEq, Eq, Structural)]
pub struct ParseError {
    pub kind: ParseErrorKind,
    pub position: usize,
}

/// Why a source text is no expression.
#[derive(Debug, PartialEq)]
pub struct ParseErrors {
    pub errors: Vec<ParseError>,
}

impl View for ParseErrors {
    type V = Seq<ParseError>;

    open spec fn view(&self) -> Seq<ParseError> {
        self.errors@
    }
}

/// A position in the tokens, with what is wrong there.
type Wrong = (ParseErrorKind, usize);

struct Reader<'a> {
    tokens: &'a Vec<Lexeme>,
    end: usize,
}

spec fn read_one(r: Result<(IdedExpr, usize, u64), Wrong>) -> Parsed {
    match r {
        Ok((e, q, m)) => Ok((e@, q as int, m as nat)),
        Err((kind, at)) => Err((kind, at as int)),
    }
}

spec fn read_all(r: Result<(Vec<IdedExpr>, usize, u64), Wrong>) -> ParsedAll {
    match r {
        Ok((list, q, m)) => Ok((models(list@), q as int, m as nat)),
        Err((kind, at)) => Err((kind, at as int)),
    }
}

spec fn read_entries(r: Result<(Vec<IdedEntryExpr>, usize, u64), Wrong>) -> ParsedEntries {
    match r {
        Ok((list, q, m)) => Ok((entry_models(list@), q as int, m as nat)),
        Err((kind, at)) => Err((kind, at as int)),
    }
}

/// There are numbers left for what can be read from position `p` on.
spec fn has_room(src: Source, p: int, n: int) -> bool {
    0 <= p <= src.tokens.len() && 0 <= n && n + 16 * src.left(p) <= u64::MAX
}

/// The tokens from `p` up to `q` were enough for the numbers from `n` up to `m`.
spec fn covers(src: Source, p: int, n: int, q: int, m: int) -> bool {
    p < q <= src.tokens.len() && n <= m <= n + 16 * (q - p)
}

spec fn sound(src: Source, p: int, n: int, r: Parsed) -> bool {
    r matches Ok((tree, q, m)) ==> covers(src, p, n, q, m as int) && numbered(tree, n as nat, m)
}

impl<'a> Reader<'a> {
    spec fn source(&self) -> Source {
        Source { tokens: lexemes(self.tokens@), end: self.end as int }
    }

    fn has(&self, p: usize, symbol: Symbol) -> (yes: bool)
        ensures
            yes == self.source().has(p as int, symbol),
            self.tokens@.len() <= usize::MAX,
    {
        if p < self.tokens.len() {
            match &self.tokens[p].token {
                Token::Symbol(s) => *s == symbol,
                _ => false,
            }
        } else {
            false
        }
    }

    fn at(&self, p: usize) -> (at: usize)
        ensures
            at == self.source().at(p as int),
    {
        if p < self.tokens.len() {
            self.tokens[p].at
        } else {
            self.end
        }
    }

    fn unexpected(&self, p: usize) -> (wrong: Wrong)
        ensures
            self.source().unexpected(p as int) == (wrong.0, wrong.1 as int),
    {
        if p < self.tokens.len() {
            (ParseErrorKind::UnexpectedToken, self.tokens[p].at)
        } else {
            (ParseErrorKind::UnexpectedEnd, self.end)
        }
    }

    fn operator(&self, p: usize, level: u8) -> (func: Option<&'static str>)
        ensures
            match func {
                Some(func) => operator_at(self.source(), p as int, level as int) == Some(func@),
                None => operator_at(self.source(), p as int, level as int) is None,
            },
            func is Some ==> p < self.tokens@.len() <= usize::MAX,
    {
        if p >= self.tokens.len() {
            return None;
        }
        match &self.tokens[p].token {
            Token::Symbol(symbol) => match binary_function(*symbol) {
                Some((l, func)) => if l == level {
                    Some(func)
                } else {
                    None
                },
                None => None,
            },
            _ => None,
        }
    }
}

fn binary_function(symbol: Symbol) -> (r: Option<(u8, &'static str)>)
    ensures
        match r {
            Some((level, func)) => binary_operator(symbol) == Some((level as int, func@)),
            None => binary_operator(symbol) is None,
        },
{
    match symbol {
        Symbol::OrOr => Some((0, operators::LOGICAL_OR)),
        Symbol::AndAnd => Some((1, operators::LOGICAL_AND)),
        Symbol::EqualEqual => Some((2, operators::EQUALS)),
        Symbol::NotEqual => Some((2, operators::NOT_EQUALS)),
        Symbol::Less => Some((2, operators::LESS)),
        Symbol::LessEqual => Some((2, operators::LESS_EQUALS)),
        Symbol::Greater => Some((2, operators::GREATER)),
        Symbol::GreaterEqual => Some((2, operators::GREATER_EQUALS)),
        Symbol::In => Some((2, operators::IN)),
        Symbol::Plus => Some((3, operators::ADD)),
        Symbol::Minus => Some((3, operators::SUBTRACT)),
        Symbol::Star => Some((4, operators::MULTIPLY)),
        Symbol::Slash => Some((4, operators::DIVIDE)),
        Symbol::Percent => Some((4, operators::MODULO)),
        _ => None,
    }
}

impl<'a> Reader<'a> {
    fn read_expr(&self, p: usize, n: u64) -> (r: Result<(IdedExpr, usize, u64), Wrong>)
        requires
            has_room(self.source(), p as int, n as int),
        ensures
            read_one(r) == expr(self.source(), p as int, n as nat),
            sound(self.source(), p as int, n as int, read_one(r)),
        decreases self.source().left(p as int), 10int,
    {
        let (test, q, m) = match self.read_binary(p, n, 0) {
            Ok(x) => x,
            Err(e) => {
                return Err(e);
            },
        };
        if !self.has(q, Symbol::Question) {
            return Ok((test, q, m));
        }
        let (yes, q2, m2) = match self.read_binary(q + 1, m, 0) {
            Ok(x) => x,
            Err(e) => {
                return Err(e);
            },
        };
        if !self.has(q2, Symbol::Colon) {
            return Err(self.unexpected(q2));
        }
        let (no, q3, m3) = match self.read_expr(q2 + 1, m2) {
            Ok(x) => x,
            Err(e) => {
                return Err(e);
            },
        };
        let ghost (a, b, c) = (test@, yes@, no@);
        let e = call_expr(m3, operators::CONDITIONAL, three(test, yes, no));
        proof {
            lemma_over_three(e@, a, b, c, n as nat, m as nat, m2 as nat);
        }
        Ok((e, q3, m3 + 1))
    }

    fn read_binary(&self, p: usize, n: u64, level: u8) -> (r: Result<
        (IdedExpr, usize, u64),
        Wrong,
    >)
        requires
            has_room(self.source(), p as int, n as int),
            level <= UNARY_LEVEL,
        ensures
            read_one(r) == binary(self.source(), p as int, n as nat, level as int),
            sound(self.source(), p as int, n as int, read_one(r)),
        decreases self.source().left(p as int), 4 + UNARY_LEVEL - level,
    {
        if level >= UNARY_LEVEL {
            return self.read_unary(p, n);
        }
        let (first, q0, m0) = match self.read_binary(p, n, level + 1) {
            Ok(x) => x,
            Err(e) => {
                return Err(e);
            },
        };
        let ghost src = self.source();
        let mut first = first;
        let mut q: usize = q0;
        let mut m: u64 = m0;
        loop
            invariant
                src == self.source(),
                has_room(src, p as int, n as int),
                covers(src, p as int, n as int, q as int, m as int),
                numbered(first@, n as nat, m as nat),
                level < UNARY_LEVEL,
                binary_rest(src, first@, q as int, m as nat, level as int) == binary(
                    src,
                    p as int,
                    n as nat,
                    level as int,
                ),
            decreases src.left(q as int),
        {
            let func = match self.operator(q, level) {
                Some(func) => func,
                None => {
                    return Ok((first, q, m));
                },
            };
            let (second, q2, m2) = match self.read_binary(q + 1, m, level + 1) {
                Ok(x) => x,
                Err(e) => {
                    return Err(e);
                },
            };
            let ghost (a, b) = (first@, second@);
            let joined = call_expr(m2, func, two(first, second));
            proof {
                lemma_over_two(joined@, a, b, n as nat, m as nat);
            }
            first = joined;
            q = q2;
            m = m2 + 1;
        }
    }

    fn read_unary(&self, p: usize, n: u64) -> (r: Result<(IdedExpr, usize, u64), Wrong>)
        requires
            has_room(self.source(), p as int, n as int),
        ensures
            read_one(r) == unary(self.source(), p as int, n as nat),
            sound(self.source(), p as int, n as int, read_one(r)),
        decreases self.source().left(p as int), 3int,
    {
        if self.has(p, Symbol::Not) {
            let (a, q, m) = match self.read_unary(p + 1, n) {
                Ok(x) => x,
                Err(e) => {
                    return Err(e);
                },
            };
            let ghost inner = a@;
            let e = call_expr(m, operators::LOGICAL_NOT, one(a));
            proof {
                lemma_over_one(e@, inner, n as nat);
            }
            return Ok((e, q, m + 1));
        }
        if self.has(p, Symbol::Minus) {
            if p + 1 < self.tokens.len() {
                if let Token::Int(magnitude) = &self.tokens[p + 1].token {
                    if *magnitude > 0x8000_0000_0000_0000 {
                        return Err((ParseErrorKind::NumberTooLarge, self.at(p + 1)));
                    }
                    let value: i64 = negated(*magnitude);
                    let first = literal_expr(n, Literal::Int(value));
                    proof {
                        lemma_root(first@, n as nat);
                    }
                    return self.read_member(first, p, n, p + 2, n + 1);
                }
            }
            let (a, q, m) = match self.read_unary(p + 1, n) {
                Ok(x) => x,
                Err(e) => {
                    return Err(e);
                },
            };
            let ghost inner = a@;
            let e = call_expr(m, operators::NEGATE, one(a));
            proof {
                lemma_over_one(e@, inner, n as nat);
            }
            return Ok((e, q, m + 1));
        }
        let (first, q, m) = match self.read_primary(p, n) {
            Ok(x) => x,
            Err(e) => {
                return Err(e);
            },
        };
        self.read_member(first, p, n, q, m)
    }

    /// What follows `operand`, which was read from position `p` up to `q0`.
    fn read_member(&self, operand: IdedExpr, p: usize, n: u64, q0: usize, m0: u64) -> (r: Result<
        (IdedExpr, usize, u64),
        Wrong,
    >)
        requires
            has_room(self.source(), p as int, n as int),
            covers(self.source(), p as int, n as int, q0 as int, m0 as int),
            numbered(operand@, n as nat, m0 as nat),
        ensures
            read_one(r) == member_rest(self.source(), operand@, q0 as int, m0 as nat),
            sound(self.source(), p as int, n as int, read_one(r)),
        decreases self.source().left(q0 as int), 20int,
    {
        let ghost src = self.source();
        let ghost whole = member_rest(src, operand@, q0 as int, m0 as nat);
        let mut first = operand;
        let mut q: usize = q0;
        let mut m: u64 = m0;
        loop
            invariant
                src == self.source(),
                has_room(src, p as int, n as int),
                covers(src, p as int, n as int, q as int, m as int),
                numbered(first@, n as nat, m as nat),
                member_rest(src, first@, q as int, m as nat) == whole,
                whole == member_rest(src, operand@, q0 as int, m0 as nat),
                q0 <= q,
            decreases src.left(q as int),
        {
            if self.has(q, Symbol::Dot) {
                let name: &String = if q + 1 < self.tokens.len() {
                    match &self.tokens[q + 1].token {
                        Token::Ident(name) => name,
                        _ => {
                            return Err(self.unexpected(q + 1));
                        },
                    }
                } else {
                    return Err(self.unexpected(q + 1));
                };
                if self.has(q + 2, Symbol::LeftParen) {
                    let (args, q2, m2) = match self.read_items(q + 3, m, Symbol::RightParen) {
                        Ok(x) => x,
                        Err(e) => {
                            return Err(e);
                        },
                    };
                    let at: usize = self.at(q + 1);
                    proof {
                        lemma_expand(
                            name@,
                            Some(first@),
                            models(args@),
                            m2 as nat,
                            at as int,
                            n as nat,
                            m as nat,
                        );
                    }
                    match expand_method(name.as_str(), first, args, m2, at) {
                        Ok((e, m3)) => {
                            first = e;
                            q = q2;
                            m = m3;
                        },
                        Err(e) => {
                            return Err(e);
                        },
                    }
                } else {
                    let ghost inner = first@;
                    let e = IdedExpr {
                        id: m,
                        expr: Expr::Select(
                            SelectExpr {
                                operand: Box::new(first),
                                field: name.clone(),
                                test: false,
                            },
                        ),
                    };
                    proof {
                        lemma_over_one(e@, inner, n as nat);
                    }
                    first = e;
                    q = q + 2;
                    m = m + 1;
                }
            } else if self.has(q, Symbol::LeftBracket) {
                let (index, q2, m2) = match self.read_expr(q + 1, m) {
                    Ok(x) => x,
                    Err(e) => {
                        return Err(e);
                    },
                };
                if !self.has(q2, Symbol::RightBracket) {
                    return Err(self.unexpected(q2));
                }
                let ghost (a, b) = (first@, index@);
                let e = call_expr(m2, operators::INDEX, two(first, index));
                proof {
                    lemma_over_two(e@, a, b, n as nat, m as nat);
                }
                first = e;
                q = q2 + 1;
                m = m2 + 1;
            } else {
                return Ok((first, q, m));
            }
        }
    }

    fn read_primary(&self, p: usize, n: u64) -> (r: Result<(IdedExpr, usize, u64), Wrong>)
        requires
            has_room(self.source(), p as int, n as int),
        ensures
            read_one(r) == primary(self.source(), p as int, n as nat),
            sound(self.source(), p as int, n as int, read_one(r)),
        decreases self.source().left(p as int), 2int,
    {
        if p >= self.tokens.len() {
            return Err(self.unexpected(p));
        }
        match &self.tokens[p].token {
            Token::Ident(name) => {
                if self.has(p + 1, Symbol::LeftParen) {
                    let (args, q, m) = match self.read_items(p + 2, n, Symbol::RightParen) {
                        Ok(x) => x,
                        Err(e) => {
                            return Err(e);
                        },
                    };
                    let at: usize = self.at(p);
                    proof {
                        lemma_expand(
                            name@,
                            None,
                            models(args@),
                            m as nat,
                            at as int,
                            n as nat,
                            n as nat,
                        );
                    }
                    match expand_call(name.as_str(), args, m, at) {
                        Ok((e, m2)) => Ok((e, q, m2)),
                        Err(e) => Err(e),
                    }
                } else {
                    let e = ident_expr(n, name.as_str());
                    proof {
                        lemma_root(e@, n as nat);
                    }
                    Ok((e, p + 1, n + 1))
                }
            },
            Token::Symbol(Symbol::LeftParen) => {
                let (e, q, m) = match self.read_expr(p + 1, n) {
                    Ok(x) => x,
                    Err(e) => {
                        return Err(e);
                    },
                };
                if self.has(q, Symbol::RightParen) {
                    Ok((e, q + 1, m))
                } else {
                    Err(self.unexpected(q))
                }
            },
            Token::Symbol(Symbol::LeftBracket) => {
                let (elements, q, m) = match self.read_items(p + 1, n, Symbol::RightBracket) {
                    Ok(x) => x,
                    Err(e) => {
                        return Err(e);
                    },
                };
                let e = list_expr(m, elements);
                proof {
                    lemma_ordered_root(e@, n as nat);
                }
                Ok((e, q, m + 1))
            },
            Token::Symbol(Symbol::LeftBrace) => {
                let (list, q, m) = match self.read_map(p + 1, n) {
                    Ok(x) => x,
                    Err(e) => {
                        return Err(e);
                    },
                };
                let e = IdedExpr { id: m, expr: Expr::Dict(MapExpr { entries: list }) };
                proof {
                    assert(e@.node->Dict_0 =~= entry_models(list@));
                    lemma_ordered_root(e@, n as nat);
                }
                Ok((e, q, m + 1))
            },
            token => {
                match literal_of(token) {
                    Some(lit) => {
                        let e = literal_expr(n, lit);
                        proof {
                            lemma_root(e@, n as nat);
                        }
                        Ok((e, p + 1, n + 1))
                    },
                    None => {
                        if let Token::Int(_) = token {
                            Err((ParseErrorKind::NumberTooLarge, self.at(p)))
                        } else {
                            Err(self.unexpected(p))
                        }
                    },
                }
            },
        }
    }

    fn read_items(&self, p: usize, n: u64, close: Symbol) -> (r: Result<
        (Vec<IdedExpr>, usize, u64),
        Wrong,
    >)
        requires
            has_room(self.source(), p as int, n as int),
        ensures
            read_all(r) == items(self.source(), p as int, n as nat, close),
            read_all(r) matches Ok((list, q, m)) ==> {
                &&& p < q <= self.tokens@.len()
                &&& n <= m <= n + 16 * (q - p - 1)
                &&& in_order(list, n as nat, m)
            },
        decreases self.source().left(p as int), 12int,
    {
        let mut list: Vec<IdedExpr> = Vec::new();
        assert(models(list@) =~= seq![]);
        if self.has(p, close) {
            return Ok((list, p + 1, n));
        }
        let ghost src = self.source();
        let mut q: usize = p;
        let mut m: u64 = n;
        loop
            invariant
                src == self.source(),
                has_room(src, p as int, n as int),
                p <= q <= src.tokens.len(),
                n <= m <= n + 16 * (q - p),
                in_order(models(list@), n as nat, m as nat),
                items_rest(src, models(list@), q as int, m as nat, close) == items(
                    src,
                    p as int,
                    n as nat,
                    close,
                ),
            decreases src.left(q as int),
        {
            let (e, q2, m2) = match self.read_expr(q, m) {
                Ok(x) => x,
                Err(e) => {
                    return Err(e);
                },
            };
            let ghost before = models(list@);
            let ghost tree = e@;
            list.push(e);
            proof {
                assert(models(list@) =~= before.push(tree));
                lemma_in_order_push(before, tree, n as nat, m as nat, m2 as nat);
            }
            if self.has(q2, close) {
                return Ok((list, q2 + 1, m2));
            }
            if !self.has(q2, Symbol::Comma) {
                return Err(self.unexpected(q2));
            }
            if close == Symbol::RightBracket && self.has(q2 + 1, close) {
                return Ok((list, q2 + 2, m2));
            }
            q = q2 + 1;
            m = m2;
        }
    }

    fn read_map(&self, p: usize, n: u64) -> (r: Result<(Vec<IdedEntryExpr>, usize, u64), Wrong>)
        requires
            has_room(self.source(), p as int, n as int),
        ensures
            read_entries(r) == entries(self.source(), p as int, n as nat),
            read_entries(r) matches Ok((list, q, m)) ==> {
                &&& p < q <= self.tokens@.len()
                &&& n <= m <= n + 16 * (q - p)
                &&& in_order(entry_kids(list), n as nat, m)
            },
        decreases self.source().left(p as int), 12int,
    {
        let mut list: Vec<IdedEntryExpr> = Vec::new();
        assert(entry_models(list@) =~= seq![]);
        if self.has(p, Symbol::RightBrace) {
            return Ok((list, p + 1, n));
        }
        let ghost src = self.source();
        let mut q: usize = p;
        let mut m: u64 = n;
        loop
            invariant
                src == self.source(),
                has_room(src, p as int, n as int),
                p <= q <= src.tokens.len(),
                n <= m <= n + 16 * (q - p),
                in_order(entry_kids(entry_models(list@)), n as nat, m as nat),
                entries_rest(src, entry_models(list@), q as int, m as nat) == entries(
                    src,
                    p as int,
                    n as nat,
                ),
            decreases src.left(q as int),
        {
            let (key, q2, m2) = match self.read_expr(q, m) {
                Ok(x) => x,
                Err(e) => {
                    return Err(e);
                },
            };
            if !self.has(q2, Symbol::Colon) {
                return Err(self.unexpected(q2));
            }
            let (value, q3, m3) = match self.read_expr(q2 + 1, m2) {
                Ok(x) => x,
                Err(e) => {
                    return Err(e);
                },
            };
            let ghost before = entry_models(list@);
            let ghost (a, b) = (key@, value@);
            list.push(
                IdedEntryExpr { id: m3, expr: EntryExpr::MapEntry(MapEntryExpr { key, value }) },
            );
            proof {
                assert(entry_models(list@) =~= before.push(entry_node(m3 as nat, a, b)));
                lemma_entry_in_order(before, m3 as nat, a, b, n as nat, m as nat, m2 as nat);
            }
            if self.has(q3, Symbol::RightBrace) {
                return Ok((list, q3 + 1, m3 + 1));
            }
            if !self.has(q3, Symbol::Comma) {
                return Err(self.unexpected(q3));
            }
            if self.has(q3 + 1, Symbol::RightBrace) {
                return Ok((list, q3 + 2, m3 + 1));
            }
            q = q3 + 1;
            m = m3 + 1;
        }
    }
}

/// One more entry, numbered after the others.
proof fn lemma_entry_in_order(
    done: Seq<Entry>,
    id: nat,
    key: Ast,
    value: Ast,
    lo: nat,
    mid: nat,
    mid2: nat,
)
    requires
        in_order(entry_kids(done), lo, mid),
        numbered(key, mid, mid2),
        numbered(value, mid2, id),
    ensures
        in_order(entry_kids(done.push(entry_node(id, key, value))), lo, id + 1),
{
    let list = done.push(entry_node(id, key, value));
    assert(list.drop_last() =~= done);
    lemma_in_order_push(entry_kids(done), key, lo, mid, mid2);
    lemma_wider(value, mid2, id, mid2, id + 1);
    lemma_in_order_push(entry_kids(done).push(key), value, lo, mid2, id + 1);
    assert(entry_kids(list) =~= entry_kids(done).push(key).push(value));
}

fn negated(magnitude: u64) -> (value: i64)
    requires
        magnitude <= 0x8000_0000_0000_0000,
    ensures
        value == -(magnitude as int),
{
    if magnitude == 0x8000_0000_0000_0000 {
        i64::MIN
    } else {
        -(magnitude as i64)
    }
}

fn literal_of(token: &Token) -> (lit: Option<Literal>)
    ensures
        match lit {
            Some(lit) => constant(token@) == Some(lit@),
            None => constant(token@) is None,
        },
{
    match token {
        Token::Symbol(Symbol::True) => Some(Literal::Bool(true)),
        Token::Symbol(Symbol::False) => Some(Literal::Bool(false)),
        Token::Symbol(Symbol::Null) => Some(Literal::Null),
        Token::Int(i) => if *i <= 0x7fff_ffff_ffff_ffff {
            Some(Literal::Int(*i as i64))
        } else {
            None
        },
        Token::UInt(u) => Some(Literal::UInt(*u)),
        Token::Double(s) => Some(Literal::Double(s.clone())),
        Token::Text(s) => Some(Literal::String(s.clone())),
        Token::Bytes(b) => Some(Literal::Bytes(vstd::slice::slice_to_vec(b.as_slice()))),
        _ => None,
    }
}

/// The parser.
pub struct Parser {}

impl Parser {
    /// Reads a source text. Every node of the tree has an identifier of its own.
    pub fn parse(source: &str) -> (r: Result<Expression, ParseErrors>)
        ensures
            match r {
                Ok(e) => parsed(source@) == Ok::<Ast, Mistake>(e@) && e@.distinct_ids(),
                Err(errors) => errors@.len() == 1 && parsed(source@) == Err::<Ast, Mistake>(
                    (errors@[0].kind, errors@[0].position as int),
                ),
            },
    {
        let length: usize = source.unicode_len();
        match tokens_of(source) {
            Ok(tokens) => {
                if tokens.len() as u64 > TOKEN_LIMIT {
                    return Err(failure((ParseErrorKind::SourceTooLong, length)));
                }
                let reader = Reader { tokens: &tokens, end: length };
                match reader.read_expr(0, FIRST_ID) {
                    Ok((e, q, _)) => if q == tokens.len() {
                        Ok(e)
                    } else {
                        Err(failure(reader.unexpected(q)))
                    },
                    Err(e) => Err(failure(e)),
                }
            },
            Err(e) => Err(failure(e)),
        }
    }
}

fn failure(wrong: Wrong) -> (errors: ParseErrors)
    ensures
        errors@ == seq![ParseError { kind: wrong.0, position: wrong.1 }],
{
    let mut errors: Vec<ParseError> = Vec::new();
    errors.push(ParseError { kind: wrong.0, position: wrong.1 });
    assert(errors@ =~= seq![ParseError { kind: wrong.0, position: wrong.1 }]);
    ParseErrors { errors }
}

} // verus!
