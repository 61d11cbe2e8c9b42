//! How source texts are read.
//!
//! The laws say which tree a text stands for, with arbitrary operands: how
//! tightly the operators bind, on which side they group, and what calls, fields,
//! lists, maps and brackets make of their parts.

use vstd::prelude::*;
use crate::ast::{Ast, Entry, EntryNode, Lit, Node};
use crate::grammar::{
    binary, binary_operator, binary_rest, entries, entries_rest, entry_node, expr, items,
    items_rest, member_rest, operator_at, parsed, primary, unary, Source,
};
use crate::lexer::{lex, Mistake, ParseErrorKind, Symbol, Tok};
use crate::macros::{call_node, expand, literal_node, numbered_node};

verus! {

/// The node of a token that is an expression by itself: a name or a constant.
pub open spec fn operand(tok: Tok) -> Option<Node> {
    match tok {
        Tok::Ident(name) => Some(Node::Ident(name)),
        Tok::Int(i) => if i <= 0x7fff_ffff_ffff_ffff {
            Some(Node::Literal(Lit::Int(i as i64)))
        } else {
            None
        },
        Tok::UInt(u) => Some(Node::Literal(Lit::UInt(u))),
        Tok::Double(s) => Some(Node::Literal(Lit::Double(s))),
        Tok::Text(s) => Some(Node::Literal(Lit::Text(s))),
        Tok::Bytes(b) => Some(Node::Literal(Lit::Bytes(b))),
        Tok::Symbol(Symbol::True) => Some(Node::Literal(Lit::Bool(true))),
        Tok::Symbol(Symbol::False) => Some(Node::Literal(Lit::Bool(false))),
        Tok::Symbol(Symbol::Null) => Some(Node::Literal(Lit::Null)),
        _ => None,
    }
}

/// The symbol multiplies or divides.
pub open spec fn multiplies(s: Symbol) -> bool {
    s == Symbol::Star || s == Symbol::Slash || s == Symbol::Percent
}

/// The symbol adds or subtracts.
pub open spec fn adds(s: Symbol) -> bool {
    s == Symbol::Plus || s == Symbol::Minus
}

/// The symbol relates two values.
pub open spec fn relates(s: Symbol) -> bool {
    ||| s == Symbol::EqualEqual
    ||| s == Symbol::NotEqual
    ||| s == Symbol::Less
    ||| s == Symbol::LessEqual
    ||| s == Symbol::Greater
    ||| s == Symbol::GreaterEqual
    ||| s == Symbol::In
}

/// The symbol is a binary operator.
pub open spec fn is_binary(s: Symbol) -> bool {
    multiplies(s) || adds(s) || relates(s) || s == Symbol::AndAnd || s == Symbol::OrOr
}

/// The operator `s` binds tighter than `t`: products before sums, sums before
/// relations, relations before conjunctions, conjunctions before disjunctions.
pub open spec fn binds_tighter(s: Symbol, t: Symbol) -> bool {
    ||| multiplies(s) && !multiplies(t)
    ||| adds(s) && !multiplies(t) && !adds(t)
    ||| relates(s) && (t == Symbol::AndAnd || t == Symbol::OrOr)
    ||| s == Symbol::AndAnd && t == Symbol::OrOr
}

/// The name of a binary operator in the tree.
pub open spec fn name_of(s: Symbol) -> Seq<char> {
    match s {
        Symbol::Star => "_*_"@,
        Symbol::Slash => "_/_"@,
        Symbol::Percent => "_%_"@,
        Symbol::Plus => "_+_"@,
        Symbol::Minus => "_-_"@,
        Symbol::EqualEqual => "_==_"@,
        Symbol::NotEqual => "_!=_"@,
        Symbol::Less => "_<_"@,
        Symbol::LessEqual => "_<=_"@,
        Symbol::Greater => "_>_"@,
        Symbol::GreaterEqual => "_>=_"@,
        Symbol::In => "@in"@,
        Symbol::AndAnd => "_&&_"@,
        Symbol::OrOr => "_||_"@,
        _ => ""@,
    }
}

/// The tree calls `func` without a receiver on these many arguments.
pub open spec fn calls(tree: Ast, func: Seq<char>, count: nat) -> bool {
    tree.node matches Node::Call { func: f, target: None, args } && f == func && args.len() == count
}

/// The argument number `i` of a call.
pub open spec fn arg(tree: Ast, i: int) -> Ast {
    tree.node->Call_args[i]
}

/// The text is made of these tokens.
pub open spec fn reads(text: Seq<char>, toks: Seq<Tok>) -> bool {
    lex(text, 0) matches Ok(tokens) && tokens.len() == toks.len() && forall|i: int|
        0 <= i < toks.len() ==> (#[trigger] tokens[i]).0 == toks[i]
}

spec fn source_of(text: Seq<char>) -> Source {
    Source { tokens: lex(text, 0)->Ok_0, end: text.len() as int }
}

/// No operator that binds at least as tightly as the level stands at `q`.
spec fn no_operator(src: Source, q: int, level: int) -> bool {
    forall|l: int| level <= l < 5 ==> #[trigger] operator_at(src, q, l) is None
}

/// Nothing follows an operand at `q` that belongs to it.
spec fn no_member(src: Source, q: int) -> bool {
    !src.has(q, Symbol::Dot) && !src.has(q, Symbol::LeftBracket) && !src.has(q, Symbol::LeftParen)
}

/// An expression ends at `q`.
spec fn ends_at(src: Source, q: int) -> bool {
    no_operator(src, q, 0) && no_member(src, q) && !src.has(q, Symbol::Question)
}

spec fn level_of(s: Symbol) -> int {
    match binary_operator(s) {
        Some((level, _)) => level,
        None => 0,
    }
}

proof fn lemma_operators(s: Symbol)
    ensures
        is_binary(s) ==> binary_operator(s) == Some((level_of(s), name_of(s))) && 0 <= level_of(s)
            < 5,
        !is_binary(s) ==> binary_operator(s) is None,
{
}

proof fn lemma_levels(s: Symbol, t: Symbol)
    requires
        is_binary(s),
        is_binary(t),
    ensures
        binds_tighter(s, t) <==> level_of(s) > level_of(t),
{
}

proof fn lemma_operator_here(src: Source, q: int, s: Symbol)
    requires
        src.has(q, s),
    ensures
        is_binary(s) ==> operator_at(src, q, level_of(s)) == Some(name_of(s)) && no_operator(
            src,
            q,
            level_of(s) + 1,
        ) && (forall|l: int| l != level_of(s) ==> #[trigger] operator_at(src, q, l) is None),
        !is_binary(s) ==> no_operator(src, q, 0),
{
    lemma_operators(s);
}

proof fn lemma_atom(src: Source, p: int, n: nat)
    requires
        0 <= p < src.tokens.len(),
        operand(src.tokens[p].0) is Some,
        no_member(src, p + 1),
    ensures
        unary(src, p, n) == Ok::<(Ast, int, nat), Mistake>(
            (numbered_node(n, operand(src.tokens[p].0)->0), p + 1, n + 1),
        ),
{
    let tree = numbered_node(n, operand(src.tokens[p].0)->0);
    assert(primary(src, p, n) == Ok::<(Ast, int, nat), Mistake>((tree, p + 1, n + 1)));
    assert(member_rest(src, tree, p + 1, n + 1) == Ok::<(Ast, int, nat), Mistake>(
        (tree, p + 1, n + 1),
    ));
}

proof fn lemma_climb(
    src: Source,
    p: int,
    n: nat,
    tree: Ast,
    q: int,
    m: nat,
    from: int,
    to: int,
)
    requires
        0 <= to <= from <= 5,
        binary(src, p, n, from) == Ok::<(Ast, int, nat), Mistake>((tree, q, m)),
        src.moves(p, q),
        forall|l: int| to <= l < from ==> #[trigger] operator_at(src, q, l) is None,
    ensures
        binary(src, p, n, to) == Ok::<(Ast, int, nat), Mistake>((tree, q, m)),
    decreases from - to,
{
    if to < from {
        lemma_climb(src, p, n, tree, q, m, from, to + 1);
        assert(operator_at(src, q, to) is None);
        assert(binary_rest(src, tree, q, m, to) == Ok::<(Ast, int, nat), Mistake>((tree, q, m)));
    }
}

/// What is read as an operand is read at every level, up to an operator of it.
proof fn lemma_unary_at(src: Source, p: int, n: nat, tree: Ast, q: int, m: nat, to: int)
    requires
        0 <= to <= 5,
        unary(src, p, n) == Ok::<(Ast, int, nat), Mistake>((tree, q, m)),
        src.moves(p, q),
        no_operator(src, q, to),
    ensures
        binary(src, p, n, to) == Ok::<(Ast, int, nat), Mistake>((tree, q, m)),
{
    assert(binary(src, p, n, 5) == unary(src, p, n));
    lemma_climb(src, p, n, tree, q, m, 5, to);
}

proof fn lemma_join(
    src: Source,
    p: int,
    n: nat,
    level: int,
    a: Ast,
    q: int,
    m: nat,
    func: Seq<char>,
    b: Ast,
    q2: int,
    m2: nat,
)
    requires
        0 <= level < 5,
        binary(src, p, n, level + 1) == Ok::<(Ast, int, nat), Mistake>((a, q, m)),
        src.moves(p, q),
        operator_at(src, q, level) == Some(func),
        binary(src, q + 1, m, level + 1) == Ok::<(Ast, int, nat), Mistake>((b, q2, m2)),
        src.moves(q + 1, q2),
        operator_at(src, q2, level) is None,
    ensures
        binary(src, p, n, level) == Ok::<(Ast, int, nat), Mistake>(
            (call_node(m2, func, seq![a, b]), q2, m2 + 1),
        ),
{
    let joined = call_node(m2, func, seq![a, b]);
    assert(binary_rest(src, joined, q2, m2 + 1, level) == Ok::<(Ast, int, nat), Mistake>(
        (joined, q2, m2 + 1),
    ));
    assert(binary_rest(src, a, q, m, level) == binary_rest(src, joined, q2, m2 + 1, level));
}

proof fn lemma_expr_is(src: Source, p: int, n: nat, tree: Ast, q: int, m: nat)
    requires
        binary(src, p, n, 0) == Ok::<(Ast, int, nat), Mistake>((tree, q, m)),
        src.moves(p, q),
        !src.has(q, Symbol::Question),
    ensures
        expr(src, p, n) == Ok::<(Ast, int, nat), Mistake>((tree, q, m)),
{
}

/// An operand alone.
proof fn lemma_atom_expr(src: Source, p: int, n: nat)
    requires
        0 <= p < src.tokens.len(),
        operand(src.tokens[p].0) is Some,
        ends_at(src, p + 1),
    ensures
        expr(src, p, n) == Ok::<(Ast, int, nat), Mistake>(
            (numbered_node(n, operand(src.tokens[p].0)->0), p + 1, n + 1),
        ),
{
    let tree = numbered_node(n, operand(src.tokens[p].0)->0);
    lemma_atom(src, p, n);
    lemma_unary_at(src, p, n, tree, p + 1, n + 1, 0);
    lemma_expr_is(src, p, n, tree, p + 1, n + 1);
}

/// `a s b` at the level of the operator.
proof fn lemma_pair_at(
    src: Source,
    p: int,
    n: nat,
    s: Symbol,
    a: Ast,
    q: int,
    m: nat,
    b: Ast,
    q2: int,
    m2: nat,
    to: int,
)
    requires
        unary(src, p, n) == Ok::<(Ast, int, nat), Mistake>((a, q, m)),
        src.moves(p, q),
        src.has(q, s),
        is_binary(s),
        unary(src, q + 1, m) == Ok::<(Ast, int, nat), Mistake>((b, q2, m2)),
        src.moves(q + 1, q2),
        0 <= to <= level_of(s),
        no_operator(src, q2, to),
    ensures
        binary(src, p, n, to) == Ok::<(Ast, int, nat), Mistake>(
            (call_node(m2, name_of(s), seq![a, b]), q2, m2 + 1),
        ),
{
    let level = level_of(s);
    lemma_operator_here(src, q, s);
    lemma_operators(s);
    lemma_unary_at(src, p, n, a, q, m, level + 1);
    lemma_unary_at(src, q + 1, m, b, q2, m2, level + 1);
    assert(operator_at(src, q2, level) is None);
    lemma_join(src, p, n, level, a, q, m, name_of(s), b, q2, m2);
    lemma_climb(src, p, n, call_node(m2, name_of(s), seq![a, b]), q2, m2 + 1, level, to);
}

proof fn lemma_parsed(text: Seq<char>, tree: Ast, m: nat)
    requires
        lex(text, 0) is Ok,
        lex(text, 0)->Ok_0.len() <= 0x0400_0000_0000_0000,
        expr(source_of(text), 0, 1) == Ok::<(Ast, int, nat), Mistake>(
            (tree, lex(text, 0)->Ok_0.len() as int, m),
        ),
    ensures
        parsed(text) == Ok::<Ast, Mistake>(tree),
{
}

/// A name or a constant is an expression by itself.
pub proof fn law_an_operand_alone(text: Seq<char>, a: Tok)
    requires
        reads(text, seq![a]),
        operand(a) is Some,
    ensures
        parsed(text) matches Ok(tree) && tree.node == operand(a)->0,
{
    let src = source_of(text);
    assert(src.tokens[0].0 == a);
    lemma_atom_expr(src, 0, 1);
    lemma_parsed(text, numbered_node(1, operand(a)->0), 2);
}

/// `a s b` is a call of the operator on its operands, in order.
pub proof fn law_a_binary_operator(text: Seq<char>, a: Tok, s: Symbol, b: Tok)
    requires
        reads(text, seq![a, Tok::Symbol(s), b]),
        operand(a) is Some,
        operand(b) is Some,
        is_binary(s),
    ensures
        parsed(text) matches Ok(tree) && calls(tree, name_of(s), 2) && arg(tree, 0).node
            == operand(a)->0 && arg(tree, 1).node == operand(b)->0,
{
    let src = source_of(text);
    assert(src.tokens[0].0 == a && src.tokens[1].0 == Tok::Symbol(s) && src.tokens[2].0 == b);
    let (x, y) = (numbered_node(1, operand(a)->0), numbered_node(2, operand(b)->0));
    lemma_atom(src, 0, 1);
    lemma_atom(src, 2, 2);
    lemma_operators(s);
    lemma_pair_at(src, 0, 1, s, x, 1, 2, y, 3, 3, 0);
    lemma_expr_is(src, 0, 1, call_node(3, name_of(s), seq![x, y]), 3, 4);
    lemma_parsed(text, call_node(3, name_of(s), seq![x, y]), 4);
}

/// Of two operators, the one that binds tighter takes the operand between them.
/// Operators that bind alike group to the left: `a - b * c` is `a - (b * c)`,
/// `a * b - c` is `(a * b) - c`, and `a - b + c` is `(a - b) + c`.
pub proof fn law_tighter_operators_first(
    text: Seq<char>,
    a: Tok,
    s: Symbol,
    b: Tok,
    t: Symbol,
    c: Tok,
)
    requires
        reads(text, seq![a, Tok::Symbol(s), b, Tok::Symbol(t), c]),
        operand(a) is Some,
        operand(b) is Some,
        operand(c) is Some,
        is_binary(s),
        is_binary(t),
    ensures
        parsed(text) matches Ok(tree) && if binds_tighter(t, s) {
            &&& calls(tree, name_of(s), 2)
            &&& arg(tree, 0).node == operand(a)->0
            &&& calls(arg(tree, 1), name_of(t), 2)
            &&& arg(arg(tree, 1), 0).node == operand(b)->0
            &&& arg(arg(tree, 1), 1).node == operand(c)->0
        } else {
            &&& calls(tree, name_of(t), 2)
            &&& calls(arg(tree, 0), name_of(s), 2)
            &&& arg(arg(tree, 0), 0).node == operand(a)->0
            &&& arg(arg(tree, 0), 1).node == operand(b)->0
            &&& arg(tree, 1).node == operand(c)->0
        },
{
    let src = source_of(text);
    assert(src.tokens[0].0 == a && src.tokens[1].0 == Tok::Symbol(s) && src.tokens[2].0 == b
        && src.tokens[3].0 == Tok::Symbol(t) && src.tokens[4].0 == c);
    let (x, y, z) = (
        numbered_node(1, operand(a)->0),
        numbered_node(2, operand(b)->0),
        numbered_node(3, operand(c)->0),
    );
    let (l, k) = (level_of(s), level_of(t));
    lemma_operators(s);
    lemma_operators(t);
    lemma_levels(t, s);
    lemma_operator_here(src, 1, s);
    lemma_operator_here(src, 3, t);
    lemma_atom(src, 0, 1);
    lemma_atom(src, 2, 2);
    if binds_tighter(t, s) {
        lemma_atom(src, 4, 3);
        let inner = call_node(4, name_of(t), seq![y, z]);
        lemma_pair_at(src, 2, 2, t, y, 3, 3, z, 5, 4, l + 1);
        lemma_unary_at(src, 0, 1, x, 1, 2, l + 1);
        lemma_join(src, 0, 1, l, x, 1, 2, name_of(s), inner, 5, 5);
        let tree = call_node(5, name_of(s), seq![x, inner]);
        lemma_climb(src, 0, 1, tree, 5, 6, l, 0);
        lemma_expr_is(src, 0, 1, tree, 5, 6);
        lemma_parsed(text, tree, 6);
    } else {
        let w = numbered_node(4, operand(c)->0);
        let inner = call_node(3, name_of(s), seq![x, y]);
        let tree = call_node(5, name_of(t), seq![inner, w]);
        lemma_atom(src, 4, 4);
        lemma_unary_at(src, 4, 4, w, 5, 5, k + 1);
        if l == k {
            lemma_unary_at(src, 0, 1, x, 1, 2, l + 1);
            lemma_unary_at(src, 2, 2, y, 3, 3, l + 1);
            assert(binary_rest(src, tree, 5, 6, l) == Ok::<(Ast, int, nat), Mistake>(
                (tree, 5, 6),
            ));
            assert(binary_rest(src, inner, 3, 4, l) == binary_rest(src, tree, 5, 6, l));
            assert(binary_rest(src, x, 1, 2, l) == binary_rest(src, inner, 3, 4, l));
            assert(binary(src, 0, 1, l) == Ok::<(Ast, int, nat), Mistake>((tree, 5, 6)));
        } else {
            lemma_pair_at(src, 0, 1, s, x, 1, 2, y, 3, 3, k + 1);
            lemma_join(src, 0, 1, k, inner, 3, 4, name_of(t), w, 5, 5);
        }
        lemma_climb(src, 0, 1, tree, 5, 6, k, 0);
        lemma_expr_is(src, 0, 1, tree, 5, 6);
        lemma_parsed(text, tree, 6);
    }
}

/// A bracketed expression is read as an operand.
proof fn lemma_bracketed(src: Source, p: int, n: nat, tree: Ast, q: int, m: nat)
    requires
        src.has(p, Symbol::LeftParen),
        expr(src, p + 1, n) == Ok::<(Ast, int, nat), Mistake>((tree, q, m)),
        src.moves(p + 1, q),
        src.has(q, Symbol::RightParen),
        no_member(src, q + 1),
    ensures
        unary(src, p, n) == Ok::<(Ast, int, nat), Mistake>((tree, q + 1, m)),
{
    assert(primary(src, p, n) == Ok::<(Ast, int, nat), Mistake>((tree, q + 1, m)));
    assert(member_rest(src, tree, q + 1, m) == Ok::<(Ast, int, nat), Mistake>((tree, q + 1, m)));
}

/// `a s b` as a whole expression.
proof fn lemma_pair_expr(src: Source, p: int, n: nat, s: Symbol)
    requires
        0 <= p,
        p + 2 < src.tokens.len(),
        operand(src.tokens[p].0) is Some,
        src.has(p + 1, s),
        is_binary(s),
        operand(src.tokens[p + 2].0) is Some,
        ends_at(src, p + 3),
    ensures
        ({
            let a = numbered_node(n, operand(src.tokens[p].0)->0);
            let b = numbered_node(n + 1, operand(src.tokens[p + 2].0)->0);
            expr(src, p, n) == Ok::<(Ast, int, nat), Mistake>(
                (call_node(n + 2, name_of(s), seq![a, b]), p + 3, n + 3),
            )
        }),
{
    let a = numbered_node(n, operand(src.tokens[p].0)->0);
    let b = numbered_node(n + 1, operand(src.tokens[p + 2].0)->0);
    lemma_operators(s);
    lemma_atom(src, p, n);
    lemma_atom(src, p + 2, n + 1);
    lemma_pair_at(src, p, n, s, a, p + 1, n + 1, b, p + 3, n + 2, 0);
    lemma_expr_is(src, p, n, call_node(n + 2, name_of(s), seq![a, b]), p + 3, n + 3);
}

/// Brackets come first, however tightly the operators outside them bind:
/// `(a s b) t c` and `c t (a s b)` apply `t` to the bracketed call.
pub proof fn law_brackets_come_first(
    left: Seq<char>,
    right: Seq<char>,
    a: Tok,
    s: Symbol,
    b: Tok,
    t: Symbol,
    c: Tok,
)
    requires
        reads(
            left,
            seq![
                Tok::Symbol(Symbol::LeftParen),
                a,
                Tok::Symbol(s),
                b,
                Tok::Symbol(Symbol::RightParen),
                Tok::Symbol(t),
                c,
            ],
        ),
        reads(
            right,
            seq![
                c,
                Tok::Symbol(t),
                Tok::Symbol(Symbol::LeftParen),
                a,
                Tok::Symbol(s),
                b,
                Tok::Symbol(Symbol::RightParen),
            ],
        ),
        operand(a) is Some,
        operand(b) is Some,
        operand(c) is Some,
        is_binary(s),
        is_binary(t),
    ensures
        parsed(left) matches Ok(tree) && calls(tree, name_of(t), 2) && calls(
            arg(tree, 0),
            name_of(s),
            2,
        ) && arg(arg(tree, 0), 0).node == operand(a)->0 && arg(arg(tree, 0), 1).node == operand(
            b,
        )->0 && arg(tree, 1).node == operand(c)->0,
        parsed(right) matches Ok(tree) && calls(tree, name_of(t), 2) && arg(tree, 0).node
            == operand(c)->0 && calls(arg(tree, 1), name_of(s), 2) && arg(arg(tree, 1), 0).node
            == operand(a)->0 && arg(arg(tree, 1), 1).node == operand(b)->0,
{
    lemma_operators(s);
    lemma_operators(t);
    {
        let src = source_of(left);
        let k = src.tokens;
        assert(k[0].0 == Tok::Symbol(Symbol::LeftParen) && k[1].0 == a && k[2].0 == Tok::Symbol(s)
            && k[3].0 == b && k[4].0 == Tok::Symbol(Symbol::RightParen) && k[5].0 == Tok::Symbol(t)
            && k[6].0 == c);
        let (x, y) = (numbered_node(1, operand(a)->0), numbered_node(2, operand(b)->0));
        let z = numbered_node(4, operand(c)->0);
        let inner = call_node(3, name_of(s), seq![x, y]);
        let tree = call_node(5, name_of(t), seq![inner, z]);
        lemma_pair_expr(src, 1, 1, s);
        lemma_bracketed(src, 0, 1, inner, 4, 4);
        lemma_atom(src, 6, 4);
        lemma_pair_at(src, 0, 1, t, inner, 5, 4, z, 7, 5, 0);
        lemma_expr_is(src, 0, 1, tree, 7, 6);
        lemma_parsed(left, tree, 6);
    }
    {
        let src = source_of(right);
        let k = src.tokens;
        assert(k[0].0 == c && k[1].0 == Tok::Symbol(t) && k[2].0 == Tok::Symbol(Symbol::LeftParen)
            && k[3].0 == a && k[4].0 == Tok::Symbol(s) && k[5].0 == b && k[6].0 == Tok::Symbol(
            Symbol::RightParen,
        ));
        let z = numbered_node(1, operand(c)->0);
        let (x, y) = (numbered_node(2, operand(a)->0), numbered_node(3, operand(b)->0));
        let inner = call_node(4, name_of(s), seq![x, y]);
        let tree = call_node(5, name_of(t), seq![z, inner]);
        lemma_atom(src, 0, 1);
        lemma_pair_expr(src, 3, 2, s);
        lemma_bracketed(src, 2, 2, inner, 6, 5);
        lemma_pair_at(src, 0, 1, t, z, 1, 2, inner, 7, 5, 0);
        lemma_expr_is(src, 0, 1, tree, 7, 6);
        lemma_parsed(right, tree, 6);
    }
}

/// A conditional takes everything before its question mark as its test, and
/// conditionals group to the right: `a s b ? c : d ? e : f` tests `a s b`, and
/// its last branch is `d ? e : f`.
pub proof fn law_conditionals(
    text: Seq<char>,
    a: Tok,
    s: Symbol,
    b: Tok,
    c: Tok,
    d: Tok,
    e: Tok,
    f: Tok,
)
    requires
        reads(
            text,
            seq![
                a,
                Tok::Symbol(s),
                b,
                Tok::Symbol(Symbol::Question),
                c,
                Tok::Symbol(Symbol::Colon),
                d,
                Tok::Symbol(Symbol::Question),
                e,
                Tok::Symbol(Symbol::Colon),
                f,
            ],
        ),
        operand(a) is Some,
        operand(b) is Some,
        operand(c) is Some,
        operand(d) is Some,
        operand(e) is Some,
        operand(f) is Some,
        is_binary(s),
    ensures
        parsed(text) matches Ok(tree) && calls(tree, "_?_:_"@, 3) && calls(
            arg(tree, 0),
            name_of(s),
            2,
        ) && arg(arg(tree, 0), 0).node == operand(a)->0 && arg(arg(tree, 0), 1).node == operand(
            b,
        )->0 && arg(tree, 1).node == operand(c)->0 && calls(arg(tree, 2), "_?_:_"@, 3) && arg(
            arg(tree, 2),
            0,
        ).node == operand(d)->0 && arg(arg(tree, 2), 1).node == operand(e)->0 && arg(
            arg(tree, 2),
            2,
        ).node == operand(f)->0,
{
    let src = source_of(text);
    let k = src.tokens;
    assert(k[0].0 == a && k[1].0 == Tok::Symbol(s) && k[2].0 == b && k[3].0 == Tok::Symbol(
        Symbol::Question,
    ) && k[4].0 == c && k[5].0 == Tok::Symbol(Symbol::Colon) && k[6].0 == d && k[7].0
        == Tok::Symbol(Symbol::Question) && k[8].0 == e && k[9].0 == Tok::Symbol(Symbol::Colon)
        && k[10].0 == f);
    let (x, y) = (numbered_node(1, operand(a)->0), numbered_node(2, operand(b)->0));
    let test = call_node(3, name_of(s), seq![x, y]);
    let z = numbered_node(4, operand(c)->0);
    let (u, v, w) = (
        numbered_node(5, operand(d)->0),
        numbered_node(6, operand(e)->0),
        numbered_node(7, operand(f)->0),
    );
    let inner = call_node(8, "_?_:_"@, seq![u, v, w]);
    let tree = call_node(9, "_?_:_"@, seq![test, z, inner]);
    lemma_operators(s);
    lemma_atom(src, 0, 1);
    lemma_atom(src, 2, 2);
    lemma_pair_at(src, 0, 1, s, x, 1, 2, y, 3, 3, 0);
    lemma_atom(src, 4, 4);
    lemma_unary_at(src, 4, 4, z, 5, 5, 0);
    lemma_atom(src, 6, 5);
    lemma_unary_at(src, 6, 5, u, 7, 6, 0);
    lemma_atom(src, 8, 6);
    lemma_unary_at(src, 8, 6, v, 9, 7, 0);
    lemma_atom_expr(src, 10, 7);
    assert(expr(src, 10, 7) == Ok::<(Ast, int, nat), Mistake>((w, 11, 8)));
    assert(expr(src, 6, 5) == Ok::<(Ast, int, nat), Mistake>((inner, 11, 9)));
    assert(expr(src, 0, 1) == Ok::<(Ast, int, nat), Mistake>((tree, 11, 10)));
    lemma_parsed(text, tree, 10);
}

/// `!` and `-` bind tighter than every binary operator: `!a s b` and `-a s b`
/// apply `s` to the negated operand. They can stand before a right operand too.
pub proof fn law_signs_bind_tightest(
    negated: Seq<char>,
    minus: Seq<char>,
    right: Seq<char>,
    a: Tok,
    s: Symbol,
    b: Tok,
)
    requires
        reads(negated, seq![Tok::Symbol(Symbol::Not), a, Tok::Symbol(s), b]),
        reads(minus, seq![Tok::Symbol(Symbol::Minus), a, Tok::Symbol(s), b]),
        reads(right, seq![b, Tok::Symbol(s), Tok::Symbol(Symbol::Not), a]),
        operand(a) is Some,
        !(a is Int),
        operand(b) is Some,
        is_binary(s),
    ensures
        parsed(negated) matches Ok(tree) && calls(tree, name_of(s), 2) && calls(
            arg(tree, 0),
            "!_"@,
            1,
        ) && arg(arg(tree, 0), 0).node == operand(a)->0 && arg(tree, 1).node == operand(b)->0,
        parsed(minus) matches Ok(tree) && calls(tree, name_of(s), 2) && calls(
            arg(tree, 0),
            "-_"@,
            1,
        ) && arg(arg(tree, 0), 0).node == operand(a)->0 && arg(tree, 1).node == operand(b)->0,
        parsed(right) matches Ok(tree) && calls(tree, name_of(s), 2) && arg(tree, 0).node
            == operand(b)->0 && calls(arg(tree, 1), "!_"@, 1) && arg(arg(tree, 1), 0).node
            == operand(a)->0,
{
    lemma_operators(s);
    let x = numbered_node(1, operand(a)->0);
    let y = numbered_node(3, operand(b)->0);
    {
        let src = source_of(negated);
        let k = src.tokens;
        assert(k[0].0 == Tok::Symbol(Symbol::Not) && k[1].0 == a && k[2].0 == Tok::Symbol(s)
            && k[3].0 == b);
        lemma_atom(src, 1, 1);
        let inner = call_node(2, "!_"@, seq![x]);
        assert(unary(src, 0, 1) == Ok::<(Ast, int, nat), Mistake>((inner, 2, 3)));
        lemma_atom(src, 3, 3);
        lemma_pair_at(src, 0, 1, s, inner, 2, 3, y, 4, 4, 0);
        let tree = call_node(4, name_of(s), seq![inner, y]);
        lemma_expr_is(src, 0, 1, tree, 4, 5);
        lemma_parsed(negated, tree, 5);
    }
    {
        let src = source_of(minus);
        let k = src.tokens;
        assert(k[0].0 == Tok::Symbol(Symbol::Minus) && k[1].0 == a && k[2].0 == Tok::Symbol(s)
            && k[3].0 == b);
        lemma_atom(src, 1, 1);
        let inner = call_node(2, "-_"@, seq![x]);
        assert(unary(src, 0, 1) == Ok::<(Ast, int, nat), Mistake>((inner, 2, 3)));
        lemma_atom(src, 3, 3);
        lemma_pair_at(src, 0, 1, s, inner, 2, 3, y, 4, 4, 0);
        let tree = call_node(4, name_of(s), seq![inner, y]);
        lemma_expr_is(src, 0, 1, tree, 4, 5);
        lemma_parsed(minus, tree, 5);
    }
    {
        let src = source_of(right);
        let k = src.tokens;
        assert(k[0].0 == b && k[1].0 == Tok::Symbol(s) && k[2].0 == Tok::Symbol(Symbol::Not)
            && k[3].0 == a);
        let z = numbered_node(1, operand(b)->0);
        let w = numbered_node(2, operand(a)->0);
        let inner = call_node(3, "!_"@, seq![w]);
        lemma_atom(src, 0, 1);
        lemma_atom(src, 3, 2);
        assert(unary(src, 2, 2) == Ok::<(Ast, int, nat), Mistake>((inner, 4, 4)));
        lemma_pair_at(src, 0, 1, s, z, 1, 2, inner, 4, 4, 0);
        let tree = call_node(4, name_of(s), seq![z, inner]);
        lemma_expr_is(src, 0, 1, tree, 4, 5);
        lemma_parsed(right, tree, 5);
    }
}

/// A minus sign before a number makes it negative. The number may be one larger
/// than without the sign; what is larger still does not fit.
pub proof fn law_negative_numbers(text: Seq<char>, i: u64)
    requires
        reads(text, seq![Tok::Symbol(Symbol::Minus), Tok::Int(i)]),
    ensures
        i <= 0x8000_0000_0000_0000 ==> (parsed(text) matches Ok(tree) && tree.node
            == Node::Literal(Lit::Int((0 - i) as i64))),
        i > 0x8000_0000_0000_0000 ==> (parsed(text) matches Err(e) && e.0
            == ParseErrorKind::NumberTooLarge),
{
    let src = source_of(text);
    assert(src.tokens[0].0 == Tok::Symbol(Symbol::Minus) && src.tokens[1].0 == Tok::Int(i));
    if i <= 0x8000_0000_0000_0000 {
        let tree = literal_node(1, Lit::Int((-(i as int)) as i64));
        assert(member_rest(src, tree, 2, 2) == Ok::<(Ast, int, nat), Mistake>((tree, 2, 2)));
        assert(unary(src, 0, 1) == Ok::<(Ast, int, nat), Mistake>((tree, 2, 2)));
        lemma_unary_at(src, 0, 1, tree, 2, 2, 0);
        lemma_expr_is(src, 0, 1, tree, 2, 2);
        lemma_parsed(text, tree, 2);
    } else {
        lemma_unary_fails(src, 0, 1, unary(src, 0, 1)->Err_0, 0);
    }
}

/// A number without a sign that is too large.
pub proof fn law_numbers_too_large(text: Seq<char>, i: u64)
    requires
        reads(text, seq![Tok::Int(i)]),
        i > 0x7fff_ffff_ffff_ffff,
    ensures
        parsed(text) matches Err(e) && e.0 == ParseErrorKind::NumberTooLarge,
{
    let src = source_of(text);
    assert(src.tokens[0].0 == Tok::Int(i));
    assert(primary(src, 0, 1) is Err);
    lemma_unary_fails(src, 0, 1, unary(src, 0, 1)->Err_0, 0);
}

/// Where the first operand is not read, nothing is.
proof fn lemma_unary_fails(src: Source, p: int, n: nat, e: Mistake, level: int)
    requires
        unary(src, p, n) == Err::<(Ast, int, nat), Mistake>(e),
        0 <= level <= 5,
    ensures
        binary(src, p, n, level) == Err::<(Ast, int, nat), Mistake>(e),
        expr(src, p, n) == Err::<(Ast, int, nat), Mistake>(e),
    decreases 5 - level,
{
    lemma_binary_fails(src, p, n, e, level);
    lemma_binary_fails(src, p, n, e, 0);
}

proof fn lemma_binary_fails(src: Source, p: int, n: nat, e: Mistake, level: int)
    requires
        unary(src, p, n) == Err::<(Ast, int, nat), Mistake>(e),
        0 <= level <= 5,
    ensures
        binary(src, p, n, level) == Err::<(Ast, int, nat), Mistake>(e),
    decreases 5 - level,
{
    if level < 5 {
        lemma_binary_fails(src, p, n, e, level + 1);
    }
}

/// An operand before its members.
proof fn lemma_before_member(src: Source, p: int, n: nat)
    requires
        0 <= p < src.tokens.len(),
        operand(src.tokens[p].0) is Some,
        !src.has(p + 1, Symbol::LeftParen),
    ensures
        ({
            let tree = numbered_node(n, operand(src.tokens[p].0)->0);
            &&& primary(src, p, n) == Ok::<(Ast, int, nat), Mistake>((tree, p + 1, n + 1))
            &&& unary(src, p, n) == member_rest(src, tree, p + 1, n + 1)
        }),
{
}

proof fn lemma_whole_text(text: Seq<char>, tree: Ast, m: nat)
    requires
        lex(text, 0) is Ok,
        0 < lex(text, 0)->Ok_0.len() < 100,
        unary(source_of(text), 0, 1) == Ok::<(Ast, int, nat), Mistake>(
            (tree, lex(text, 0)->Ok_0.len() as int, m),
        ),
    ensures
        parsed(text) == Ok::<Ast, Mistake>(tree),
{
    let src = source_of(text);
    let q = src.tokens.len() as int;
    lemma_unary_at(src, 0, 1, tree, q, m, 0);
    lemma_expr_is(src, 0, 1, tree, q, m);
    lemma_parsed(text, tree, m);
}

/// `a.f.g` selects the field `g` of the field `f` of `a`.
pub proof fn law_fields(text: Seq<char>, a: Tok, f: Seq<char>, g: Seq<char>)
    requires
        reads(
            text,
            seq![
                a,
                Tok::Symbol(Symbol::Dot),
                Tok::Ident(f),
                Tok::Symbol(Symbol::Dot),
                Tok::Ident(g),
            ],
        ),
        operand(a) is Some,
    ensures
        parsed(text) matches Ok(tree) && (tree.node matches Node::Select {
            operand: outer,
            field,
            test: false,
        } && field == g && (outer.node matches Node::Select {
            operand: inner,
            field: name,
            test: false,
        } && name == f && inner.node == operand(a)->0)),
{
    let src = source_of(text);
    let k = src.tokens;
    assert(k[0].0 == a && k[1].0 == Tok::Symbol(Symbol::Dot) && k[2].0 == Tok::Ident(f) && k[3].0
        == Tok::Symbol(Symbol::Dot) && k[4].0 == Tok::Ident(g));
    let x = numbered_node(1, operand(a)->0);
    let y = numbered_node(2, Node::Select { operand: Box::new(x), field: f, test: false });
    let z = numbered_node(3, Node::Select { operand: Box::new(y), field: g, test: false });
    lemma_before_member(src, 0, 1);
    assert(member_rest(src, z, 5, 4) == Ok::<(Ast, int, nat), Mistake>((z, 5, 4)));
    assert(member_rest(src, y, 3, 3) == member_rest(src, z, 5, 4));
    assert(member_rest(src, x, 1, 2) == member_rest(src, y, 3, 3));
    lemma_whole_text(text, z, 4);
}

/// `a[b]` is the index operator on `a` and `b`.
pub proof fn law_indexes(text: Seq<char>, a: Tok, b: Tok)
    requires
        reads(
            text,
            seq![a, Tok::Symbol(Symbol::LeftBracket), b, Tok::Symbol(Symbol::RightBracket)],
        ),
        operand(a) is Some,
        operand(b) is Some,
    ensures
        parsed(text) matches Ok(tree) && calls(tree, "_[_]"@, 2) && arg(tree, 0).node == operand(
            a,
        )->0 && arg(tree, 1).node == operand(b)->0,
{
    let src = source_of(text);
    let k = src.tokens;
    assert(k[0].0 == a && k[1].0 == Tok::Symbol(Symbol::LeftBracket) && k[2].0 == b && k[3].0
        == Tok::Symbol(Symbol::RightBracket));
    let (x, y) = (numbered_node(1, operand(a)->0), numbered_node(2, operand(b)->0));
    let tree = call_node(3, "_[_]"@, seq![x, y]);
    lemma_before_member(src, 0, 1);
    lemma_atom_expr(src, 2, 2);
    assert(member_rest(src, tree, 4, 4) == Ok::<(Ast, int, nat), Mistake>((tree, 4, 4)));
    assert(member_rest(src, x, 1, 2) == member_rest(src, tree, 4, 4));
    lemma_whole_text(text, tree, 4);
}

/// `a, b` before a closing symbol.
proof fn lemma_two_items(src: Source, p: int, n: nat, close: Symbol)
    requires
        0 <= p,
        p + 3 < src.tokens.len(),
        operand(src.tokens[p].0) is Some,
        src.has(p + 1, Symbol::Comma),
        operand(src.tokens[p + 2].0) is Some,
        src.has(p + 3, close),
        close == Symbol::RightParen || close == Symbol::RightBracket,
    ensures
        items(src, p, n, close) == Ok::<(Seq<Ast>, int, nat), Mistake>(
            (
                seq![
                    numbered_node(n, operand(src.tokens[p].0)->0),
                    numbered_node(n + 1, operand(src.tokens[p + 2].0)->0),
                ],
                p + 4,
                n + 2,
            ),
        ),
{
    let a = numbered_node(n, operand(src.tokens[p].0)->0);
    let b = numbered_node(n + 1, operand(src.tokens[p + 2].0)->0);
    lemma_atom_expr(src, p, n);
    lemma_atom_expr(src, p + 2, n + 1);
    assert(Seq::<Ast>::empty().push(a).push(b) =~= seq![a, b]);
    let done = Seq::<Ast>::empty().push(a);
    assert(items_rest(src, done, p + 2, n + 1, close) == Ok::<(Seq<Ast>, int, nat), Mistake>(
        (done.push(b), p + 4, n + 2),
    ));
    assert(items_rest(src, seq![], p, n, close) == items_rest(src, done, p + 2, n + 1, close));
}

/// `a` before a closing symbol.
proof fn lemma_one_item(src: Source, p: int, n: nat, close: Symbol)
    requires
        0 <= p,
        p + 1 < src.tokens.len(),
        operand(src.tokens[p].0) is Some,
        src.has(p + 1, close),
        close == Symbol::RightParen || close == Symbol::RightBracket,
    ensures
        items(src, p, n, close) == Ok::<(Seq<Ast>, int, nat), Mistake>(
            (seq![numbered_node(n, operand(src.tokens[p].0)->0)], p + 2, n + 1),
        ),
{
    let a = numbered_node(n, operand(src.tokens[p].0)->0);
    lemma_atom_expr(src, p, n);
    assert(Seq::<Ast>::empty().push(a) =~= seq![a]);
}

/// `f(a, b)` is a call of `f` on `a` and `b`, in order.
pub proof fn law_function_calls(text: Seq<char>, f: Seq<char>, a: Tok, b: Tok)
    requires
        reads(
            text,
            seq![
                Tok::Ident(f),
                Tok::Symbol(Symbol::LeftParen),
                a,
                Tok::Symbol(Symbol::Comma),
                b,
                Tok::Symbol(Symbol::RightParen),
            ],
        ),
        operand(a) is Some,
        operand(b) is Some,
    ensures
        parsed(text) matches Ok(tree) && calls(tree, f, 2) && arg(tree, 0).node == operand(a)->0
            && arg(tree, 1).node == operand(b)->0,
{
    let src = source_of(text);
    let k = src.tokens;
    assert(k[0].0 == Tok::Ident(f) && k[1].0 == Tok::Symbol(Symbol::LeftParen) && k[2].0 == a
        && k[3].0 == Tok::Symbol(Symbol::Comma) && k[4].0 == b && k[5].0 == Tok::Symbol(
        Symbol::RightParen,
    ));
    let (x, y) = (numbered_node(1, operand(a)->0), numbered_node(2, operand(b)->0));
    let tree = call_node(3, f, seq![x, y]);
    lemma_two_items(src, 2, 1, Symbol::RightParen);
    assert(primary(src, 0, 1) == Ok::<(Ast, int, nat), Mistake>((tree, 6, 4)));
    assert(member_rest(src, tree, 6, 4) == Ok::<(Ast, int, nat), Mistake>((tree, 6, 4)));
    lemma_whole_text(text, tree, 4);
}

/// `f(a)` is a call of `f` on `a`, for every `f` but `has`.
pub proof fn law_function_calls_on_one(text: Seq<char>, f: Seq<char>, a: Tok)
    requires
        reads(
            text,
            seq![
                Tok::Ident(f),
                Tok::Symbol(Symbol::LeftParen),
                a,
                Tok::Symbol(Symbol::RightParen),
            ],
        ),
        operand(a) is Some,
        f != "has"@,
    ensures
        parsed(text) matches Ok(tree) && calls(tree, f, 1) && arg(tree, 0).node == operand(a)->0,
{
    let src = source_of(text);
    let k = src.tokens;
    assert(k[0].0 == Tok::Ident(f) && k[1].0 == Tok::Symbol(Symbol::LeftParen) && k[2].0 == a
        && k[3].0 == Tok::Symbol(Symbol::RightParen));
    let x = numbered_node(1, operand(a)->0);
    let tree = call_node(2, f, seq![x]);
    lemma_one_item(src, 2, 1, Symbol::RightParen);
    assert(primary(src, 0, 1) == Ok::<(Ast, int, nat), Mistake>((tree, 4, 3)));
    assert(member_rest(src, tree, 4, 3) == Ok::<(Ast, int, nat), Mistake>((tree, 4, 3)));
    lemma_whole_text(text, tree, 3);
}

/// `a.f(b)` is a call of `f` on `b` with the receiver `a`.
pub proof fn law_method_calls(text: Seq<char>, a: Tok, f: Seq<char>, b: Tok)
    requires
        reads(
            text,
            seq![
                a,
                Tok::Symbol(Symbol::Dot),
                Tok::Ident(f),
                Tok::Symbol(Symbol::LeftParen),
                b,
                Tok::Symbol(Symbol::RightParen),
            ],
        ),
        operand(a) is Some,
        operand(b) is Some,
    ensures
        parsed(text) matches Ok(tree) && (tree.node matches Node::Call {
            func,
            target: Some(target),
            args,
        } && func == f && target.node == operand(a)->0 && args.len() == 1 && args[0].node
            == operand(b)->0),
{
    let src = source_of(text);
    let k = src.tokens;
    assert(k[0].0 == a && k[1].0 == Tok::Symbol(Symbol::Dot) && k[2].0 == Tok::Ident(f) && k[3].0
        == Tok::Symbol(Symbol::LeftParen) && k[4].0 == b && k[5].0 == Tok::Symbol(
        Symbol::RightParen,
    ));
    let (x, y) = (numbered_node(1, operand(a)->0), numbered_node(2, operand(b)->0));
    let tree = numbered_node(
        3,
        Node::Call { func: f, target: Some(Box::new(x)), args: seq![y] },
    );
    lemma_before_member(src, 0, 1);
    lemma_one_item(src, 4, 2, Symbol::RightParen);
    assert(expand(f, Some(x), seq![y], 3, src.at(2)) == Ok::<(Ast, nat), Mistake>((tree, 4)));
    assert(member_rest(src, tree, 6, 4) == Ok::<(Ast, int, nat), Mistake>((tree, 6, 4)));
    assert(member_rest(src, x, 1, 2) == member_rest(src, tree, 6, 4));
    lemma_whole_text(text, tree, 4);
}

/// `[a, b]` is the list of `a` and `b`, in order, and `[]` the empty list.
pub proof fn law_lists(text: Seq<char>, empty: Seq<char>, a: Tok, b: Tok)
    requires
        reads(
            text,
            seq![
                Tok::Symbol(Symbol::LeftBracket),
                a,
                Tok::Symbol(Symbol::Comma),
                b,
                Tok::Symbol(Symbol::RightBracket),
            ],
        ),
        reads(empty, seq![Tok::Symbol(Symbol::LeftBracket), Tok::Symbol(Symbol::RightBracket)]),
        operand(a) is Some,
        operand(b) is Some,
    ensures
        parsed(text) matches Ok(tree) && (tree.node matches Node::List(elements) && elements.len()
            == 2 && elements[0].node == operand(a)->0 && elements[1].node == operand(b)->0),
        parsed(empty) matches Ok(tree) && (tree.node matches Node::List(elements) && elements.len()
            == 0),
{
    {
        let src = source_of(text);
        let k = src.tokens;
        assert(k[0].0 == Tok::Symbol(Symbol::LeftBracket) && k[1].0 == a && k[2].0 == Tok::Symbol(
            Symbol::Comma,
        ) && k[3].0 == b && k[4].0 == Tok::Symbol(Symbol::RightBracket));
        let (x, y) = (numbered_node(1, operand(a)->0), numbered_node(2, operand(b)->0));
        let tree = numbered_node(3, Node::List(seq![x, y]));
        lemma_two_items(src, 1, 1, Symbol::RightBracket);
        assert(primary(src, 0, 1) == Ok::<(Ast, int, nat), Mistake>((tree, 5, 4)));
        assert(member_rest(src, tree, 5, 4) == Ok::<(Ast, int, nat), Mistake>((tree, 5, 4)));
        lemma_whole_text(text, tree, 4);
    }
    {
        let src = source_of(empty);
        let k = src.tokens;
        assert(k[0].0 == Tok::Symbol(Symbol::LeftBracket) && k[1].0 == Tok::Symbol(
            Symbol::RightBracket,
        ));
        let tree = numbered_node(1, Node::List(seq![]));
        assert(primary(src, 0, 1) == Ok::<(Ast, int, nat), Mistake>((tree, 2, 2)));
        assert(member_rest(src, tree, 2, 2) == Ok::<(Ast, int, nat), Mistake>((tree, 2, 2)));
        lemma_whole_text(empty, tree, 2);
    }
}

/// `{a: b, c: d}` is the map expression with the entries `a: b` and `c: d`, in order.
pub proof fn law_maps(text: Seq<char>, a: Tok, b: Tok, c: Tok, d: Tok)
    requires
        reads(
            text,
            seq![
                Tok::Symbol(Symbol::LeftBrace),
                a,
                Tok::Symbol(Symbol::Colon),
                b,
                Tok::Symbol(Symbol::Comma),
                c,
                Tok::Symbol(Symbol::Colon),
                d,
                Tok::Symbol(Symbol::RightBrace),
            ],
        ),
        operand(a) is Some,
        operand(b) is Some,
        operand(c) is Some,
        operand(d) is Some,
    ensures
        parsed(text) matches Ok(tree) && (tree.node matches Node::Dict(list) && list.len() == 2 && (
        list[0].entry matches EntryNode::MapEntry { key, value } && key.node == operand(a)->0
            && value.node == operand(b)->0) && (list[1].entry matches EntryNode::MapEntry {
            key,
            value,
        } && key.node == operand(c)->0 && value.node == operand(d)->0)),
{
    let src = source_of(text);
    let k = src.tokens;
    assert(k[0].0 == Tok::Symbol(Symbol::LeftBrace) && k[1].0 == a && k[2].0 == Tok::Symbol(
        Symbol::Colon,
    ) && k[3].0 == b && k[4].0 == Tok::Symbol(Symbol::Comma) && k[5].0 == c && k[6].0
        == Tok::Symbol(Symbol::Colon) && k[7].0 == d && k[8].0 == Tok::Symbol(Symbol::RightBrace));
    let (x, y) = (numbered_node(1, operand(a)->0), numbered_node(2, operand(b)->0));
    let (z, w) = (numbered_node(4, operand(c)->0), numbered_node(5, operand(d)->0));
    let (e, f) = (
        Entry { id: 3, entry: EntryNode::MapEntry { key: x, value: y } },
        Entry { id: 6, entry: EntryNode::MapEntry { key: z, value: w } },
    );
    let one = Seq::<Entry>::empty().push(e);
    let two = one.push(f);
    let tree = numbered_node(7, Node::Dict(two));
    lemma_atom_expr(src, 1, 1);
    lemma_atom_expr(src, 3, 2);
    lemma_atom_expr(src, 5, 4);
    lemma_atom_expr(src, 7, 5);
    assert(entries_rest(src, one, 5, 4) == Ok::<(Seq<Entry>, int, nat), Mistake>((two, 9, 7)));
    assert(entries_rest(src, seq![], 1, 1) == entries_rest(src, one, 5, 4));
    assert(entries(src, 1, 1) == Ok::<(Seq<Entry>, int, nat), Mistake>((two, 9, 7)));
    assert(primary(src, 0, 1) == Ok::<(Ast, int, nat), Mistake>((tree, 9, 8)));
    assert(member_rest(src, tree, 9, 8) == Ok::<(Ast, int, nat), Mistake>((tree, 9, 8)));
    lemma_whole_text(text, tree, 8);
}

/// `has(a.f)` is the test for the field `f` of `a`.
pub proof fn law_presence_tests(text: Seq<char>, a: Tok, f: Seq<char>)
    requires
        reads(
            text,
            seq![
                Tok::Ident("has"@),
                Tok::Symbol(Symbol::LeftParen),
                a,
                Tok::Symbol(Symbol::Dot),
                Tok::Ident(f),
                Tok::Symbol(Symbol::RightParen),
            ],
        ),
        operand(a) is Some,
    ensures
        parsed(text) matches Ok(tree) && (tree.node matches Node::Select {
            operand: inner,
            field,
            test: true,
        } && field == f && inner.node == operand(a)->0),
{
    let src = source_of(text);
    let k = src.tokens;
    assert(k[0].0 == Tok::Ident("has"@) && k[1].0 == Tok::Symbol(Symbol::LeftParen) && k[2].0 == a
        && k[3].0 == Tok::Symbol(Symbol::Dot) && k[4].0 == Tok::Ident(f) && k[5].0 == Tok::Symbol(
        Symbol::RightParen,
    ));
    let x = numbered_node(1, operand(a)->0);
    let y = numbered_node(2, Node::Select { operand: Box::new(x), field: f, test: false });
    let tree = numbered_node(3, Node::Select { operand: Box::new(x), field: f, test: true });
    lemma_before_member(src, 2, 1);
    assert(member_rest(src, y, 5, 3) == Ok::<(Ast, int, nat), Mistake>((y, 5, 3)));
    assert(member_rest(src, x, 3, 2) == member_rest(src, y, 5, 3));
    lemma_unary_at(src, 2, 1, y, 5, 3, 0);
    lemma_expr_is(src, 2, 1, y, 5, 3);
    assert(Seq::<Ast>::empty().push(y) =~= seq![y]);
    assert(items(src, 2, 1, Symbol::RightParen) == Ok::<(Seq<Ast>, int, nat), Mistake>(
        (seq![y], 6, 3),
    ));
    assert(expand("has"@, None, seq![y], 3, src.at(0)) == Ok::<(Ast, nat), Mistake>((tree, 4)));
    assert(primary(src, 0, 1) == Ok::<(Ast, int, nat), Mistake>((tree, 6, 4)));
    assert(member_rest(src, tree, 6, 4) == Ok::<(Ast, int, nat), Mistake>((tree, 6, 4)));
    lemma_whole_text(text, tree, 4);
}

/// A text of up to 2^58 tokens is read as one expression, with nothing after it.
pub proof fn law_a_text_is_one_expression(text: Seq<char>)
    requires
        lex(text, 0) matches Ok(tokens) && tokens.len() <= 0x0400_0000_0000_0000,
    ensures
        ({
            let src = Source { tokens: lex(text, 0)->Ok_0, end: text.len() as int };
            match expr(src, 0, 1) {
                Ok((tree, q, _)) => if q == src.tokens.len() {
                    parsed(text) == Ok::<Ast, Mistake>(tree)
                } else {
                    parsed(text) is Err
                },
                Err(e) => parsed(text) == Err::<Ast, Mistake>(e),
            }
        }),
{
}

/// Operands and operators take turns in the tokens, and the operators bind alike.
pub open spec fn take_turns(toks: Seq<Tok>) -> bool {
    &&& toks.len() % 2 == 1
    &&& forall|j: int|
        0 <= j < toks.len() ==> if j % 2 == 0 {
            operand(#[trigger] toks[j]) is Some
        } else {
            toks[j] is Symbol && is_binary(toks[j]->Symbol_0)
        }
    &&& forall|i: int, j: int|
        #![trigger toks[i], toks[j]]
        0 <= i < toks.len() && 0 <= j < toks.len() && i % 2 == 1 && j % 2 == 1 ==> !binds_tighter(
            toks[i]->Symbol_0,
            toks[j]->Symbol_0,
        )
}

/// The tree applies the operators of the first `2 * k + 1` tokens from left to
/// right.
pub open spec fn left_to_right(tree: Ast, toks: Seq<Tok>, k: nat) -> bool
    decreases k,
{
    if k == 0 {
        tree.node == operand(toks[0])->0
    } else {
        &&& calls(tree, name_of(toks[2 * k - 1]->Symbol_0), 2)
        &&& left_to_right(arg(tree, 0), toks, (k - 1) as nat)
        &&& arg(tree, 1).node == operand(toks[2 * k as int])->0
    }
}

proof fn lemma_chain(src: Source, toks: Seq<Tok>, first: Ast, k: nat, n: nat, level: int) -> (r: (
    Ast,
    nat,
))
    requires
        take_turns(toks),
        src.tokens.len() == toks.len(),
        forall|i: int| 0 <= i < toks.len() ==> (#[trigger] src.tokens[i]).0 == toks[i],
        2 * k + 1 <= toks.len(),
        toks.len() > 1,
        level == level_of(toks[1]->Symbol_0),
        left_to_right(first, toks, k),
    ensures
        binary_rest(src, first, (2 * k + 1) as int, n, level) == Ok::<(Ast, int, nat), Mistake>(
            (r.0, toks.len() as int, r.1),
        ),
        left_to_right(r.0, toks, (toks.len() / 2) as nat),
    decreases toks.len() - k,
{
    let p = (2 * k + 1) as int;
    if p == toks.len() {
        (first, n)
    } else {
        assert(src.tokens[p].0 == toks[p]);
        assert(toks[p] is Symbol);
        let s = toks[p]->Symbol_0;
        assert(is_binary(s));
        lemma_levels(s, toks[1]->Symbol_0);
        lemma_levels(toks[1]->Symbol_0, s);
        assert(src.has(p, s));
        lemma_operators(s);
        lemma_operator_here(src, p, s);
        assert(src.tokens[p + 1].0 == toks[p + 1]);
        assert(operand(toks[p + 1]) is Some);
        if p + 2 < toks.len() {
            assert(src.tokens[p + 2].0 == toks[p + 2]);
            let t = toks[p + 2]->Symbol_0;
            assert(is_binary(t));
            lemma_levels(t, toks[1]->Symbol_0);
            lemma_levels(toks[1]->Symbol_0, t);
            assert(src.has(p + 2, t));
            lemma_operator_here(src, p + 2, t);
        }
        lemma_atom(src, p + 1, n);
        let second = numbered_node(n, operand(toks[p + 1])->0);
        lemma_unary_at(src, p + 1, n, second, p + 2, n + 1, level + 1);
        let joined = call_node(n + 1, name_of(s), seq![first, second]);
        assert(binary_rest(src, first, p, n, level) == binary_rest(
            src,
            joined,
            p + 2,
            n + 2,
            level,
        ));
        assert(left_to_right(joined, toks, k + 1)) by {
            assert(arg(joined, 0) == first && arg(joined, 1) == second);
        }
        lemma_chain(src, toks, joined, k + 1, n + 2, level)
    }
}

/// Any number of operators that bind alike group to the left.
pub proof fn law_chains_group_to_the_left(text: Seq<char>, toks: Seq<Tok>)
    requires
        reads(text, toks),
        take_turns(toks),
        toks.len() <= 0x0400_0000_0000_0000,
    ensures
        parsed(text) matches Ok(tree) && left_to_right(tree, toks, (toks.len() / 2) as nat),
{
    let src = source_of(text);
    assert(src.tokens[0].0 == toks[0]);
    assert(operand(toks[0]) is Some);
    let first = numbered_node(1, operand(toks[0])->0);
    if toks.len() == 1 {
        lemma_atom_expr(src, 0, 1);
        lemma_parsed(text, first, 2);
    } else {
        assert(src.tokens[1].0 == toks[1]);
        let s = toks[1]->Symbol_0;
        assert(is_binary(s));
        assert(src.has(1, s));
        let level = level_of(s);
        lemma_operators(s);
        lemma_operator_here(src, 1, s);
        lemma_atom(src, 0, 1);
        lemma_unary_at(src, 0, 1, first, 1, 2, level + 1);
        let (tree, m) = lemma_chain(src, toks, first, 0, 2, level);
        let end = toks.len() as int;
        assert(binary(src, 0, 1, level) == Ok::<(Ast, int, nat), Mistake>((tree, end, m)));
        lemma_climb(src, 0, 1, tree, end, m, level, 0);
        lemma_expr_is(src, 0, 1, tree, end, m);
        lemma_parsed(text, tree, m);
    }
}

/// Operands with commas between them stand from `p` up to `end`.
spec fn row_of_operands(src: Source, p: int, end: int) -> bool {
    &&& 0 <= p < end < src.tokens.len()
    &&& (end - p) % 2 == 1
    &&& forall|j: int|
        p <= j < end ==> if (j - p) % 2 == 0 {
            operand((#[trigger] src.tokens[j]).0) is Some
        } else {
            src.tokens[j].0 == Tok::Symbol(Symbol::Comma)
        }
}

proof fn lemma_row(
    src: Source,
    done: Seq<Ast>,
    p: int,
    n: nat,
    end: int,
    close: Symbol,
) -> (r: (Seq<Ast>, nat))
    requires
        row_of_operands(src, p, end),
        src.has(end, close),
        close == Symbol::RightParen || close == Symbol::RightBracket,
    ensures
        items_rest(src, done, p, n, close) == Ok::<(Seq<Ast>, int, nat), Mistake>(
            (r.0, end + 1, r.1),
        ),
        r.0.len() == done.len() + (end - p + 1) / 2,
        forall|i: int| 0 <= i < done.len() ==> #[trigger] r.0[i] == done[i],
        forall|i: int|
            done.len() <= i < r.0.len() ==> (#[trigger] r.0[i]).node == operand(
                src.tokens[p + 2 * (i - done.len())].0,
            )->0,
    decreases end - p,
{
    assert(operand(src.tokens[p].0) is Some);
    let a = numbered_node(n, operand(src.tokens[p].0)->0);
    let more = done.push(a);
    if p + 1 == end {
        lemma_operator_here(src, end, close);
        lemma_atom_expr(src, p, n);
        (more, n + 1)
    } else {
        assert(src.tokens[p + 1].0 == Tok::Symbol(Symbol::Comma));
        lemma_operator_here(src, p + 1, Symbol::Comma);
        lemma_atom_expr(src, p, n);
        assert(operand(src.tokens[p + 2].0) is Some);
        assert(row_of_operands(src, p + 2, end));
        let (list, m) = lemma_row(src, more, p + 2, n + 1, end, close);
        assert(items_rest(src, done, p, n, close) == items_rest(src, more, p + 2, n + 1, close));
        assert forall|i: int| done.len() <= i < list.len() implies (#[trigger] list[i]).node
            == operand(src.tokens[p + 2 * (i - done.len())].0)->0 by {
            if i == done.len() {
                assert(list[i] == more[i]);
            }
        }
        assert forall|i: int| 0 <= i < done.len() implies #[trigger] list[i] == done[i] by {
            assert(list[i] == more[i]);
        }
        (list, m)
    }
}

/// The tokens are operands with commas between them, after `skipped` tokens and
/// before the closing symbol at the end.
pub open spec fn is_row(toks: Seq<Tok>, skipped: int, close: Symbol) -> bool {
    &&& skipped + 1 < toks.len() <= 0x0400_0000_0000_0000
    &&& (toks.len() - skipped) % 2 == 0
    &&& toks.last() == Tok::Symbol(close)
    &&& forall|j: int|
        skipped <= j < toks.len() - 1 ==> if (j - skipped) % 2 == 0 {
            operand(#[trigger] toks[j]) is Some
        } else {
            toks[j] == Tok::Symbol(Symbol::Comma)
        }
}

/// The trees are the operands of such a row, in order.
pub open spec fn are_operands(trees: Seq<Ast>, toks: Seq<Tok>, skipped: int) -> bool {
    &&& 2 * trees.len() == toks.len() - skipped
    &&& forall|i: int|
        0 <= i < trees.len() ==> (#[trigger] trees[i]).node == operand(toks[skipped + 2 * i])->0
}

proof fn lemma_row_of(src: Source, toks: Seq<Tok>, skipped: int, close: Symbol)
    requires
        0 <= skipped,
        is_row(toks, skipped, close),
        src.tokens.len() == toks.len(),
        forall|i: int| 0 <= i < toks.len() ==> (#[trigger] src.tokens[i]).0 == toks[i],
    ensures
        row_of_operands(src, skipped, toks.len() - 1),
        src.has(toks.len() - 1, close),
{
    assert(src.tokens[toks.len() - 1].0 == toks[toks.len() - 1]);
    assert forall|j: int| skipped <= j < toks.len() - 1 implies if (j - skipped) % 2 == 0 {
        operand((#[trigger] src.tokens[j]).0) is Some
    } else {
        src.tokens[j].0 == Tok::Symbol(Symbol::Comma)
    } by {
        assert(src.tokens[j].0 == toks[j]);
    }
}

/// A list of any length holds its elements in order.
pub proof fn law_lists_of_any_length(text: Seq<char>, toks: Seq<Tok>)
    requires
        reads(text, toks),
        is_row(toks, 1, Symbol::RightBracket),
        toks[0] == Tok::Symbol(Symbol::LeftBracket),
    ensures
        parsed(text) matches Ok(tree) && tree.node is List && are_operands(
            tree.node->List_0,
            toks,
            1,
        ),
{
    let src = source_of(text);
    let end = toks.len() - 1;
    assert(src.tokens[0].0 == toks[0]);
    lemma_row_of(src, toks, 1, Symbol::RightBracket);
    let (list, m) = lemma_row(src, seq![], 1, 1, end, Symbol::RightBracket);
    assert(operand(src.tokens[1].0) is Some);
    assert(!src.has(1, Symbol::RightBracket));
    let tree = numbered_node(m, Node::List(list));
    assert(primary(src, 0, 1) == Ok::<(Ast, int, nat), Mistake>((tree, end + 1, m + 1)));
    assert(member_rest(src, tree, end + 1, m + 1) == Ok::<(Ast, int, nat), Mistake>(
        (tree, end + 1, m + 1),
    ));
    lemma_unary_at(src, 0, 1, tree, end + 1, m + 1, 0);
    lemma_expr_is(src, 0, 1, tree, end + 1, m + 1);
    lemma_parsed(text, tree, m + 1);
    assert forall|i: int| 0 <= i < list.len() implies (#[trigger] list[i]).node == operand(
        toks[1 + 2 * i],
    )->0 by {
        assert(src.tokens[1 + 2 * i].0 == toks[1 + 2 * i]);
    }
}

/// A function call of any length has its arguments in order.
pub proof fn law_function_calls_of_any_length(text: Seq<char>, func: Seq<char>, toks: Seq<Tok>)
    requires
        reads(text, toks),
        is_row(toks, 2, Symbol::RightParen),
        toks[0] == Tok::Ident(func),
        toks[1] == Tok::Symbol(Symbol::LeftParen),
        func != "has"@,
    ensures
        parsed(text) matches Ok(tree) && tree.node is Call && tree.node->func == func
            && tree.node->target is None && are_operands(tree.node->Call_args, toks, 2),
{
    let src = source_of(text);
    let end = toks.len() - 1;
    assert(src.tokens[0].0 == toks[0]);
    assert(src.tokens[1].0 == toks[1]);
    lemma_row_of(src, toks, 2, Symbol::RightParen);
    let (list, m) = lemma_row(src, seq![], 2, 1, end, Symbol::RightParen);
    assert(operand(src.tokens[2].0) is Some);
    assert(!src.has(2, Symbol::RightParen));
    let tree = call_node(m, func, list);
    assert(primary(src, 0, 1) == Ok::<(Ast, int, nat), Mistake>((tree, end + 1, m + 1)));
    assert(member_rest(src, tree, end + 1, m + 1) == Ok::<(Ast, int, nat), Mistake>(
        (tree, end + 1, m + 1),
    ));
    lemma_unary_at(src, 0, 1, tree, end + 1, m + 1, 0);
    lemma_expr_is(src, 0, 1, tree, end + 1, m + 1);
    lemma_parsed(text, tree, m + 1);
    assert forall|i: int| 0 <= i < list.len() implies (#[trigger] list[i]).node == operand(
        toks[2 + 2 * i],
    )->0 by {
        assert(src.tokens[2 + 2 * i].0 == toks[2 + 2 * i]);
    }
}

/// Keys and values with colons and commas between them stand from `p` up to
/// `end`.
spec fn row_of_entries(src: Source, p: int, end: int) -> bool {
    &&& 0 <= p < end < src.tokens.len()
    &&& (end - p) % 4 == 3
    &&& forall|j: int|
        p <= j < end ==> if (j - p) % 2 == 0 {
            operand((#[trigger] src.tokens[j]).0) is Some
        } else if (j - p) % 4 == 1 {
            src.tokens[j].0 == Tok::Symbol(Symbol::Colon)
        } else {
            src.tokens[j].0 == Tok::Symbol(Symbol::Comma)
        }
}

/// The entry has this key and this value.
pub open spec fn binds(entry: Entry, key: Node, value: Node) -> bool {
    entry.entry matches EntryNode::MapEntry { key: k, value: v } && k.node == key && v.node == value
}

proof fn lemma_entries(src: Source, done: Seq<Entry>, p: int, n: nat, end: int) -> (r: (
    Seq<Entry>,
    nat,
))
    requires
        row_of_entries(src, p, end),
        src.has(end, Symbol::RightBrace),
    ensures
        entries_rest(src, done, p, n) == Ok::<(Seq<Entry>, int, nat), Mistake>(
            (r.0, end + 1, r.1),
        ),
        r.0.len() == done.len() + (end - p + 1) / 4,
        forall|i: int| 0 <= i < done.len() ==> #[trigger] r.0[i] == done[i],
        forall|i: int|
            done.len() <= i < r.0.len() ==> binds(
                #[trigger] r.0[i],
                operand(src.tokens[p + 4 * (i - done.len())].0)->0,
                operand(src.tokens[p + 4 * (i - done.len()) + 2].0)->0,
            ),
    decreases end - p,
{
    assert(operand(src.tokens[p].0) is Some);
    assert(src.tokens[p + 1].0 == Tok::Symbol(Symbol::Colon));
    assert(operand(src.tokens[p + 2].0) is Some);
    let key = numbered_node(n, operand(src.tokens[p].0)->0);
    let value = numbered_node(n + 1, operand(src.tokens[p + 2].0)->0);
    let entry = entry_node(n + 2, key, value);
    let more = done.push(entry);
    lemma_operator_here(src, p + 1, Symbol::Colon);
    lemma_atom_expr(src, p, n);
    if p + 3 == end {
        lemma_operator_here(src, end, Symbol::RightBrace);
        lemma_atom_expr(src, p + 2, n + 1);
        (more, n + 3)
    } else {
        assert(src.tokens[p + 3].0 == Tok::Symbol(Symbol::Comma));
        lemma_operator_here(src, p + 3, Symbol::Comma);
        lemma_atom_expr(src, p + 2, n + 1);
        assert(operand(src.tokens[p + 4].0) is Some);
        assert(row_of_entries(src, p + 4, end));
        let (list, m) = lemma_entries(src, more, p + 4, n + 3, end);
        assert(entries_rest(src, done, p, n) == entries_rest(src, more, p + 4, n + 3));
        assert forall|i: int| done.len() <= i < list.len() implies binds(
            #[trigger] list[i],
            operand(src.tokens[p + 4 * (i - done.len())].0)->0,
            operand(src.tokens[p + 4 * (i - done.len()) + 2].0)->0,
        ) by {
            if i == done.len() {
                assert(list[i] == more[i]);
            }
        }
        assert forall|i: int| 0 <= i < done.len() implies #[trigger] list[i] == done[i] by {
            assert(list[i] == more[i]);
        }
        (list, m)
    }
}

/// A map of any length has its entries in order.
pub proof fn law_maps_of_any_length(text: Seq<char>, toks: Seq<Tok>)
    requires
        reads(text, toks),
        4 < toks.len() <= 0x0400_0000_0000_0000,
        toks.len() % 4 == 1,
        toks[0] == Tok::Symbol(Symbol::LeftBrace),
        toks.last() == Tok::Symbol(Symbol::RightBrace),
        forall|j: int|
            1 <= j < toks.len() - 1 ==> if j % 2 == 1 {
                operand(#[trigger] toks[j]) is Some
            } else if j % 4 == 2 {
                toks[j] == Tok::Symbol(Symbol::Colon)
            } else {
                toks[j] == Tok::Symbol(Symbol::Comma)
            },
    ensures
        parsed(text) matches Ok(tree) && tree.node is Dict && 4 * tree.node->Dict_0.len()
            == toks.len() - 1 && forall|i: int|
            0 <= i < tree.node->Dict_0.len() ==> binds(
                #[trigger] tree.node->Dict_0[i],
                operand(toks[1 + 4 * i])->0,
                operand(toks[3 + 4 * i])->0,
            ),
{
    let src = source_of(text);
    let end = toks.len() - 1;
    assert(src.tokens[0].0 == toks[0]);
    assert(src.tokens[end].0 == toks[end]);
    assert forall|j: int| 1 <= j < end implies if (j - 1) % 2 == 0 {
        operand((#[trigger] src.tokens[j]).0) is Some
    } else if (j - 1) % 4 == 1 {
        src.tokens[j].0 == Tok::Symbol(Symbol::Colon)
    } else {
        src.tokens[j].0 == Tok::Symbol(Symbol::Comma)
    } by {
        assert(src.tokens[j].0 == toks[j]);
    }
    let (list, m) = lemma_entries(src, seq![], 1, 1, end);
    assert(operand(src.tokens[1].0) is Some);
    assert(!src.has(1, Symbol::RightBrace));
    let tree = numbered_node(m, Node::Dict(list));
    assert(primary(src, 0, 1) == Ok::<(Ast, int, nat), Mistake>((tree, end + 1, m + 1)));
    assert(member_rest(src, tree, end + 1, m + 1) == Ok::<(Ast, int, nat), Mistake>(
        (tree, end + 1, m + 1),
    ));
    lemma_unary_at(src, 0, 1, tree, end + 1, m + 1, 0);
    lemma_expr_is(src, 0, 1, tree, end + 1, m + 1);
    lemma_parsed(text, tree, m + 1);
    assert forall|i: int| 0 <= i < list.len() implies binds(
        #[trigger] list[i],
        operand(toks[1 + 4 * i])->0,
        operand(toks[3 + 4 * i])->0,
    ) by {
        assert(src.tokens[1 + 4 * i].0 == toks[1 + 4 * i]);
        assert(src.tokens[3 + 4 * i].0 == toks[3 + 4 * i]);
    }
}

/// An error at a level is one at every looser level.
proof fn lemma_error_climb(src: Source, p: int, n: nat, e: Mistake, from: int, to: int)
    requires
        0 <= to <= from <= 5,
        binary(src, p, n, from) == Err::<(Ast, int, nat), Mistake>(e),
    ensures
        binary(src, p, n, to) == Err::<(Ast, int, nat), Mistake>(e),
    decreases from - to,
{
    if to < from {
        lemma_error_climb(src, p, n, e, from, to + 1);
    }
}

/// Where no operand can be read, no expression can.
proof fn lemma_no_operand(src: Source, p: int, n: nat, e: Mistake, to: int)
    requires
        0 <= to <= 5,
        unary(src, p, n) == Err::<(Ast, int, nat), Mistake>(e),
    ensures
        binary(src, p, n, to) == Err::<(Ast, int, nat), Mistake>(e),
        expr(src, p, n) == Err::<(Ast, int, nat), Mistake>(e),
{
    assert(binary(src, p, n, 5) == unary(src, p, n));
    lemma_error_climb(src, p, n, e, 5, to);
    lemma_error_climb(src, p, n, e, 5, 0);
}

/// The symbol cannot begin an expression.
pub open spec fn begins_nothing(s: Symbol) -> bool {
    ||| is_binary(s) && s != Symbol::Minus
    ||| s == Symbol::RightParen
    ||| s == Symbol::RightBracket
    ||| s == Symbol::RightBrace
    ||| s == Symbol::Dot
    ||| s == Symbol::Comma
    ||| s == Symbol::Colon
    ||| s == Symbol::Question
}

/// An expression begins with an operand: a text without tokens ends too early,
/// and a symbol that begins no operand is an error where it stands.
pub proof fn law_expressions_begin_with_an_operand(text: Seq<char>, s: Symbol)
    requires
        lex(text, 0) is Ok,
        lex(text, 0)->Ok_0.len() <= 0x0400_0000_0000_0000,
    ensures
        ({
            let tokens = lex(text, 0)->Ok_0;
            &&& tokens.len() == 0 ==> parsed(text) == Err::<Ast, Mistake>(
                (ParseErrorKind::UnexpectedEnd, text.len() as int),
            )
            &&& tokens.len() > 0 && tokens[0].0 == Tok::Symbol(s) && begins_nothing(s)
                ==> parsed(text) == Err::<Ast, Mistake>(
                (ParseErrorKind::UnexpectedToken, tokens[0].1),
            )
        }),
{
    let src = source_of(text);
    let tokens = lex(text, 0)->Ok_0;
    if tokens.len() == 0 || tokens[0].0 == Tok::Symbol(s) && begins_nothing(s) {
        assert(!src.has(0, Symbol::Not) && !src.has(0, Symbol::Minus));
        assert(primary(src, 0, 1) == Err::<(Ast, int, nat), Mistake>(src.unexpected(0)));
        lemma_no_operand(src, 0, 1, src.unexpected(0), 0);
    }
}

/// A binary operator wants an operand on its right: a text that ends after one
/// ends too early.
pub proof fn law_operators_want_a_right_operand(text: Seq<char>, a: Tok, s: Symbol)
    requires
        reads(text, seq![a, Tok::Symbol(s)]),
        operand(a) is Some,
        is_binary(s),
    ensures
        parsed(text) == Err::<Ast, Mistake>((ParseErrorKind::UnexpectedEnd, text.len() as int)),
{
    let src = source_of(text);
    assert(src.tokens[0].0 == a && src.tokens[1].0 == Tok::Symbol(s));
    let x = numbered_node(1, operand(a)->0);
    let (level, e) = (level_of(s), src.unexpected(2));
    lemma_operators(s);
    lemma_operator_here(src, 1, s);
    lemma_atom(src, 0, 1);
    lemma_unary_at(src, 0, 1, x, 1, 2, level + 1);
    assert(primary(src, 2, 2) == Err::<(Ast, int, nat), Mistake>(e));
    lemma_no_operand(src, 2, 2, e, level + 1);
    assert(binary_rest(src, x, 1, 2, level) == Err::<(Ast, int, nat), Mistake>(e));
    lemma_error_climb(src, 0, 1, e, level, 0);
}

/// Brackets want their other half: a text that ends before it ends too early.
pub proof fn law_brackets_are_closed(text: Seq<char>, a: Tok, open: Symbol)
    requires
        reads(text, seq![Tok::Symbol(open), a]),
        operand(a) is Some,
        open == Symbol::LeftParen || open == Symbol::LeftBracket || open == Symbol::LeftBrace,
    ensures
        parsed(text) == Err::<Ast, Mistake>((ParseErrorKind::UnexpectedEnd, text.len() as int)),
{
    let src = source_of(text);
    assert(src.tokens[0].0 == Tok::Symbol(open) && src.tokens[1].0 == a);
    let e = src.unexpected(2);
    lemma_atom_expr(src, 1, 1);
    assert(!src.has(1, Symbol::RightBracket) && !src.has(1, Symbol::RightBrace));
    assert(items_rest(src, seq![], 1, 1, Symbol::RightBracket) == Err::<
        (Seq<Ast>, int, nat),
        Mistake,
    >(e));
    assert(entries_rest(src, seq![], 1, 1) == Err::<(Seq<Entry>, int, nat), Mistake>(e));
    assert(primary(src, 0, 1) == Err::<(Ast, int, nat), Mistake>(e));
    lemma_no_operand(src, 0, 1, e, 0);
}

/// A comma may follow the last element of a list, but not the last argument of a
/// call.
pub proof fn law_commas_at_the_end(list: Seq<char>, call: Seq<char>, a: Tok, func: Seq<char>)
    requires
        reads(
            list,
            seq![
                Tok::Symbol(Symbol::LeftBracket),
                a,
                Tok::Symbol(Symbol::Comma),
                Tok::Symbol(Symbol::RightBracket),
            ],
        ),
        reads(
            call,
            seq![
                Tok::Ident(func),
                Tok::Symbol(Symbol::LeftParen),
                a,
                Tok::Symbol(Symbol::Comma),
                Tok::Symbol(Symbol::RightParen),
            ],
        ),
        operand(a) is Some,
    ensures
        parsed(list) matches Ok(tree) && tree.node is List && tree.node->List_0.len() == 1
            && tree.node->List_0[0].node == operand(a)->0,
        parsed(call) == Err::<Ast, Mistake>(
            (ParseErrorKind::UnexpectedToken, lex(call, 0)->Ok_0[4].1),
        ),
{
    {
        let src = source_of(list);
        let k = src.tokens;
        assert(k[0].0 == Tok::Symbol(Symbol::LeftBracket) && k[1].0 == a && k[2].0 == Tok::Symbol(
            Symbol::Comma,
        ) && k[3].0 == Tok::Symbol(Symbol::RightBracket));
        let x = numbered_node(1, operand(a)->0);
        lemma_operator_here(src, 2, Symbol::Comma);
        lemma_atom_expr(src, 1, 1);
        let one = Seq::<Ast>::empty().push(x);
        assert(items_rest(src, seq![], 1, 1, Symbol::RightBracket) == Ok::<
            (Seq<Ast>, int, nat),
            Mistake,
        >((one, 4, 2)));
        let tree = numbered_node(2, Node::List(one));
        assert(primary(src, 0, 1) == Ok::<(Ast, int, nat), Mistake>((tree, 4, 3)));
        assert(member_rest(src, tree, 4, 3) == Ok::<(Ast, int, nat), Mistake>((tree, 4, 3)));
        lemma_unary_at(src, 0, 1, tree, 4, 3, 0);
        lemma_expr_is(src, 0, 1, tree, 4, 3);
        lemma_parsed(list, tree, 3);
    }
    {
        let src = source_of(call);
        let k = src.tokens;
        assert(k[0].0 == Tok::Ident(func) && k[1].0 == Tok::Symbol(Symbol::LeftParen) && k[2].0 == a
            && k[3].0 == Tok::Symbol(Symbol::Comma) && k[4].0 == Tok::Symbol(Symbol::RightParen));
        let x = numbered_node(1, operand(a)->0);
        let e = src.unexpected(4);
        lemma_operator_here(src, 3, Symbol::Comma);
        lemma_atom_expr(src, 2, 1);
        assert(primary(src, 4, 2) == Err::<(Ast, int, nat), Mistake>(e));
        lemma_no_operand(src, 4, 2, e, 0);
        let one = Seq::<Ast>::empty().push(x);
        assert(items_rest(src, one, 4, 2, Symbol::RightParen) == Err::<
            (Seq<Ast>, int, nat),
            Mistake,
        >(e));
        assert(items_rest(src, seq![], 2, 1, Symbol::RightParen) == Err::<
            (Seq<Ast>, int, nat),
            Mistake,
        >(e));
        assert(primary(src, 0, 1) == Err::<(Ast, int, nat), Mistake>(e));
        lemma_no_operand(src, 0, 1, e, 0);
    }
}

/// A comma may follow the last entry of a map.
pub proof fn law_a_comma_at_the_end_of_a_map(text: Seq<char>, key: Tok, value: Tok)
    requires
        reads(
            text,
            seq![
                Tok::Symbol(Symbol::LeftBrace),
                key,
                Tok::Symbol(Symbol::Colon),
                value,
                Tok::Symbol(Symbol::Comma),
                Tok::Symbol(Symbol::RightBrace),
            ],
        ),
        operand(key) is Some,
        operand(value) is Some,
    ensures
        parsed(text) matches Ok(tree) && tree.node is Dict && tree.node->Dict_0.len() == 1 && binds(
            tree.node->Dict_0[0],
            operand(key)->0,
            operand(value)->0,
        ),
{
    let src = source_of(text);
    let k = src.tokens;
    assert(k[0].0 == Tok::Symbol(Symbol::LeftBrace) && k[1].0 == key && k[2].0 == Tok::Symbol(
        Symbol::Colon,
    ) && k[3].0 == value && k[4].0 == Tok::Symbol(Symbol::Comma) && k[5].0 == Tok::Symbol(
        Symbol::RightBrace,
    ));
    let (x, y) = (numbered_node(1, operand(key)->0), numbered_node(2, operand(value)->0));
    lemma_operator_here(src, 2, Symbol::Colon);
    lemma_operator_here(src, 4, Symbol::Comma);
    lemma_atom_expr(src, 1, 1);
    lemma_atom_expr(src, 3, 2);
    let one = Seq::<Entry>::empty().push(entry_node(3, x, y));
    assert(entries_rest(src, seq![], 1, 1) == Ok::<(Seq<Entry>, int, nat), Mistake>((one, 6, 4)));
    let tree = numbered_node(4, Node::Dict(one));
    assert(primary(src, 0, 1) == Ok::<(Ast, int, nat), Mistake>((tree, 6, 5)));
    assert(member_rest(src, tree, 6, 5) == Ok::<(Ast, int, nat), Mistake>((tree, 6, 5)));
    lemma_unary_at(src, 0, 1, tree, 6, 5, 0);
    lemma_expr_is(src, 0, 1, tree, 6, 5);
    lemma_parsed(text, tree, 5);
}

/// What was read as an operand goes on to `q`.
pub open spec fn is_operand(src: Source, p: int, n: nat, tree: Ast, q: int, m: nat) -> bool {
    unary(src, p, n) == Ok::<(Ast, int, nat), Mistake>((tree, q, m)) && src.moves(p, q)
}

/// Neither a binary operator nor a question mark stands at `q`.
pub open spec fn nothing_to_join(src: Source, q: int) -> bool {
    forall|s: Symbol| #[trigger] src.has(q, s) ==> !is_binary(s) && s != Symbol::Question
}

proof fn lemma_nothing_to_join(src: Source, q: int)
    requires
        nothing_to_join(src, q),
    ensures
        no_operator(src, q, 0),
        !src.has(q, Symbol::Question),
{
    if 0 <= q < src.tokens.len() {
        if let Tok::Symbol(s) = src.tokens[q].0 {
            assert(src.has(q, s));
            lemma_operator_here(src, q, s);
        }
    }
}

/// An operator joins operands of every kind, not only names and constants.
pub proof fn law_operators_join_any_operands(
    src: Source,
    p: int,
    n: nat,
    a: Ast,
    q: int,
    m: nat,
    s: Symbol,
    b: Ast,
    q2: int,
    m2: nat,
)
    requires
        is_operand(src, p, n, a, q, m),
        src.has(q, s),
        is_binary(s),
        is_operand(src, q + 1, m, b, q2, m2),
        nothing_to_join(src, q2),
    ensures
        expr(src, p, n) == Ok::<(Ast, int, nat), Mistake>(
            (call_node(m2, name_of(s), seq![a, b]), q2, m2 + 1),
        ),
{
    lemma_operators(s);
    lemma_nothing_to_join(src, q2);
    lemma_pair_at(src, p, n, s, a, q, m, b, q2, m2, 0);
    lemma_expr_is(src, p, n, call_node(m2, name_of(s), seq![a, b]), q2, m2 + 1);
}

/// Of two operators between operands of every kind, the one that binds tighter
/// takes the operand between them, and those that bind alike group to the left.
pub proof fn law_tighter_operators_first_for_any_operands(
    src: Source,
    p: int,
    n: nat,
    a: Ast,
    q: int,
    m: nat,
    s: Symbol,
    b: Ast,
    q2: int,
    m2: nat,
    t: Symbol,
    c: Ast,
    q3: int,
    m3: nat,
)
    requires
        is_operand(src, p, n, a, q, m),
        src.has(q, s),
        is_binary(s),
        is_operand(src, q + 1, m, b, q2, m2),
        src.has(q2, t),
        is_binary(t),
        binds_tighter(t, s) ==> is_operand(src, q2 + 1, m2, c, q3, m3),
        !binds_tighter(t, s) ==> is_operand(src, q2 + 1, m2 + 1, c, q3, m3),
        nothing_to_join(src, q3),
    ensures
        binds_tighter(t, s) ==> {
            let inner = call_node(m3, name_of(t), seq![b, c]);
            expr(src, p, n) == Ok::<(Ast, int, nat), Mistake>(
                (call_node(m3 + 1, name_of(s), seq![a, inner]), q3, m3 + 2),
            )
        },
        !binds_tighter(t, s) ==> {
            let inner = call_node(m2, name_of(s), seq![a, b]);
            expr(src, p, n) == Ok::<(Ast, int, nat), Mistake>(
                (call_node(m3, name_of(t), seq![inner, c]), q3, m3 + 1),
            )
        },
{
    let (l, k) = (level_of(s), level_of(t));
    lemma_operators(s);
    lemma_operators(t);
    lemma_levels(t, s);
    lemma_operator_here(src, q, s);
    lemma_operator_here(src, q2, t);
    lemma_nothing_to_join(src, q3);
    if binds_tighter(t, s) {
        let inner = call_node(m3, name_of(t), seq![b, c]);
        lemma_pair_at(src, q + 1, m, t, b, q2, m2, c, q3, m3, l + 1);
        lemma_unary_at(src, p, n, a, q, m, l + 1);
        lemma_join(src, p, n, l, a, q, m, name_of(s), inner, q3, m3 + 1);
        let tree = call_node(m3 + 1, name_of(s), seq![a, inner]);
        lemma_climb(src, p, n, tree, q3, m3 + 2, l, 0);
        lemma_expr_is(src, p, n, tree, q3, m3 + 2);
    } else {
        let inner = call_node(m2, name_of(s), seq![a, b]);
        let tree = call_node(m3, name_of(t), seq![inner, c]);
        lemma_unary_at(src, q2 + 1, m2 + 1, c, q3, m3, k + 1);
        if l == k {
            lemma_unary_at(src, p, n, a, q, m, l + 1);
            lemma_unary_at(src, q + 1, m, b, q2, m2, l + 1);
            assert(binary_rest(src, tree, q3, m3 + 1, l) == Ok::<(Ast, int, nat), Mistake>(
                (tree, q3, m3 + 1),
            ));
            assert(binary_rest(src, inner, q2, m2 + 1, l) == binary_rest(
                src,
                tree,
                q3,
                m3 + 1,
                l,
            ));
            assert(binary_rest(src, a, q, m, l) == binary_rest(src, inner, q2, m2 + 1, l));
            assert(binary(src, p, n, l) == Ok::<(Ast, int, nat), Mistake>((tree, q3, m3 + 1)));
        } else {
            lemma_pair_at(src, p, n, s, a, q, m, b, q2, m2, k + 1);
            lemma_join(src, p, n, k, inner, q2, m2 + 1, name_of(t), c, q3, m3);
        }
        lemma_climb(src, p, n, tree, q3, m3 + 1, k, 0);
        lemma_expr_is(src, p, n, tree, q3, m3 + 1);
    }
}

/// Signs and negations go before operands of every kind, one or many.
pub proof fn law_signs_go_before_any_operand(src: Source, p: int, n: nat, a: Ast, q: int, m: nat)
    requires
        is_operand(src, p + 1, n, a, q, m),
        0 <= p,
    ensures
        src.has(p, Symbol::Not) ==> is_operand(src, p, n, call_node(m, "!_"@, seq![a]), q, m + 1),
        src.has(p, Symbol::Minus) && !(src.tokens[p + 1].0 is Int) ==> is_operand(
            src,
            p,
            n,
            call_node(m, "-_"@, seq![a]),
            q,
            m + 1,
        ),
{
}

/// Whole expressions stand in round brackets, in an index, among the elements of
/// a list and the arguments of a call, and in the entries of a map; and an
/// operand goes on after a field and after an index.
pub proof fn law_parts_are_whole_expressions(
    src: Source,
    p: int,
    n: nat,
    first: Ast,
    e: Ast,
    q: int,
    m: nat,
    close: Symbol,
    name: Seq<char>,
)
    requires
        0 <= p,
        expr(src, p + 1, n) == Ok::<(Ast, int, nat), Mistake>((e, q, m)),
        src.moves(p + 1, q),
        close == Symbol::RightParen || close == Symbol::RightBracket,
    ensures
        src.has(p, Symbol::LeftParen) && src.has(q, Symbol::RightParen) ==> primary(src, p, n)
            == Ok::<(Ast, int, nat), Mistake>((e, q + 1, m)),
        src.has(p, Symbol::LeftBracket) && src.has(q, Symbol::RightBracket) ==> member_rest(
            src,
            first,
            p,
            n,
        ) == member_rest(src, call_node(m, "_[_]"@, seq![first, e]), q + 1, m + 1),
        src.has(q, close) && !src.has(p + 1, close) ==> (items(src, p + 1, n, close) matches Ok(
            (list, end, next),
        ) && list.len() == 1 && list[0] == e && end == q + 1 && next == m),
        src.has(p, Symbol::Dot) && src.tokens[p + 1].0 == Tok::Ident(name) && !src.has(
            p + 2,
            Symbol::LeftParen,
        ) ==> member_rest(src, first, p, n) == member_rest(
            src,
            numbered_node(
                n,
                Node::Select { operand: Box::new(first), field: name, test: false },
            ),
            p + 2,
            n + 1,
        ),
{
    if src.has(q, close) && !src.has(p + 1, close) {
        let one = Seq::<Ast>::empty().push(e);
        assert(items_rest(src, seq![], p + 1, n, close) == Ok::<(Seq<Ast>, int, nat), Mistake>(
            (one, q + 1, m),
        ));
    }
}

/// The keys and values of a map are whole expressions too.
pub proof fn law_entries_are_whole_expressions(
    src: Source,
    p: int,
    n: nat,
    key: Ast,
    q: int,
    m: nat,
    value: Ast,
    q2: int,
    m2: nat,
)
    requires
        src.has(p, Symbol::LeftBrace),
        !src.has(p + 1, Symbol::RightBrace),
        expr(src, p + 1, n) == Ok::<(Ast, int, nat), Mistake>((key, q, m)),
        src.moves(p + 1, q),
        src.has(q, Symbol::Colon),
        expr(src, q + 1, m) == Ok::<(Ast, int, nat), Mistake>((value, q2, m2)),
        src.moves(q + 1, q2),
        src.has(q2, Symbol::RightBrace),
    ensures
        primary(src, p, n) matches Ok((tree, end, _)) && end == q2 + 1 && tree.node is Dict
            && tree.node->Dict_0.len() == 1 && (tree.node->Dict_0[0].entry
            == EntryNode::MapEntry { key, value }),
{
    let one = Seq::<Entry>::empty().push(entry_node(m2, key, value));
    assert(entries_rest(src, seq![], p + 1, n) == Ok::<(Seq<Entry>, int, nat), Mistake>(
        (one, q2 + 1, m2 + 1),
    ));
}

/// The last branch of a conditional is a whole expression, and the other two parts
/// are anything but a conditional.
pub proof fn law_parts_of_conditionals(
    src: Source,
    p: int,
    n: nat,
    test: Ast,
    q: int,
    m: nat,
    yes: Ast,
    q2: int,
    m2: nat,
    no: Ast,
    q3: int,
    m3: nat,
)
    requires
        binary(src, p, n, 0) == Ok::<(Ast, int, nat), Mistake>((test, q, m)),
        src.moves(p, q),
        src.has(q, Symbol::Question),
        binary(src, q + 1, m, 0) == Ok::<(Ast, int, nat), Mistake>((yes, q2, m2)),
        src.moves(q + 1, q2),
        src.has(q2, Symbol::Colon),
        expr(src, q2 + 1, m2) == Ok::<(Ast, int, nat), Mistake>((no, q3, m3)),
    ensures
        expr(src, p, n) == Ok::<(Ast, int, nat), Mistake>(
            (call_node(m3, "_?_:_"@, seq![test, yes, no]), q3, m3 + 1),
        ),
{
}

} // verus!
