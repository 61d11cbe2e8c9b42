//! Calls that stand for other expressions.
//!
//! `has(e.f)` tests for a field, and `all`, `exists`, `exists_one`, `map` and
//! `filter` run over the elements of a list or the keys of a map. Each becomes
//! an expression of the core language, whose new nodes get fresh identifiers.

use vstd::prelude::*;
use vstd::string::*;
use crate::ast::{
    models, Ast, CallExpr, ComprehensionExpr, Expr, IdedExpr, ListExpr, Lit, Literal, Node,
    SelectExpr,
};
use crate::lexer::{Mistake, ParseErrorKind};
use crate::numbering::{
    in_order, lemma_in_order, lemma_ordered_root, lemma_over_one, lemma_over_three, lemma_over_two,
    lemma_root, lemma_spread_root, lemma_wider, numbered,
};
use crate::operators;
use crate::text::same_text;

verus! {

/// The accumulator of a comprehension. No name of the source text begins with `@`.
pub const ACCUMULATOR: &'static str = "@result";

/// The node `node` under the identifier `id`.
pub open spec fn numbered_node(id: nat, node: Node) -> Ast {
    Ast { id: id as u64, node }
}

/// A call without a receiver.
pub open spec fn call_node(id: nat, func: Seq<char>, args: Seq<Ast>) -> Ast {
    numbered_node(id, Node::Call { func, target: None, args })
}

/// A constant.
pub open spec fn literal_node(id: nat, lit: Lit) -> Ast {
    numbered_node(id, Node::Literal(lit))
}

/// A mention of the accumulator.
pub open spec fn accumulator(id: nat) -> Ast {
    numbered_node(id, Node::Ident(ACCUMULATOR@))
}

/// The comprehension with these parts.
pub open spec fn fold_node(
    id: nat,
    range: Ast,
    var: Seq<char>,
    init: Ast,
    cond: Ast,
    step: Ast,
    result: Ast,
) -> Ast {
    numbered_node(
        id,
        Node::Comprehension {
            iter_range: Box::new(range),
            iter_var: var,
            accu_var: ACCUMULATOR@,
            accu_init: Box::new(init),
            loop_cond: Box::new(cond),
            loop_step: Box::new(step),
            result: Box::new(result),
        },
    )
}

/// `range.all(var, test)`: true until the test fails once.
pub open spec fn all_fold(range: Ast, var: Seq<char>, test: Ast, n: nat) -> (Ast, nat) {
    let step = call_node(n + 1, operators::LOGICAL_AND@, seq![accumulator(n), test]);
    let init = literal_node(n + 2, Lit::Bool(true));
    let cond = call_node(n + 4, operators::NOT_STRICTLY_FALSE@, seq![accumulator(n + 3)]);
    let result = accumulator(n + 5);
    (fold_node(n + 6, range, var, init, cond, step, result), n + 7)
}

/// `range.exists(var, test)`: false until the test holds once.
pub open spec fn exists_fold(range: Ast, var: Seq<char>, test: Ast, n: nat) -> (Ast, nat) {
    let step = call_node(n + 1, operators::LOGICAL_OR@, seq![accumulator(n), test]);
    let init = literal_node(n + 2, Lit::Bool(false));
    let none_yet = call_node(n + 4, operators::LOGICAL_NOT@, seq![accumulator(n + 3)]);
    let cond = call_node(n + 5, operators::NOT_STRICTLY_FALSE@, seq![none_yet]);
    let result = accumulator(n + 6);
    (fold_node(n + 7, range, var, init, cond, step, result), n + 8)
}

/// `range.exists_one(var, test)`: counts how often the test holds.
pub open spec fn exists_one_fold(range: Ast, var: Seq<char>, test: Ast, n: nat) -> (Ast, nat) {
    let counted = call_node(
        n + 2,
        operators::ADD@,
        seq![accumulator(n), literal_node(n + 1, Lit::Int(1))],
    );
    let step = call_node(n + 4, operators::CONDITIONAL@, seq![test, counted, accumulator(n + 3)]);
    let init = literal_node(n + 5, Lit::Int(0));
    let cond = literal_node(n + 6, Lit::Bool(true));
    let result = call_node(
        n + 9,
        operators::EQUALS@,
        seq![accumulator(n + 7), literal_node(n + 8, Lit::Int(1))],
    );
    (fold_node(n + 10, range, var, init, cond, step, result), n + 11)
}

/// The accumulator with one more element.
pub open spec fn appended(element: Ast, n: nat) -> Ast {
    call_node(
        n + 2,
        operators::ADD@,
        seq![accumulator(n + 1), numbered_node(n, Node::List(seq![element]))],
    )
}

/// `range.map(var, element)`: the elements, in a list.
pub open spec fn map_fold(range: Ast, var: Seq<char>, element: Ast, n: nat) -> (Ast, nat) {
    let step = appended(element, n);
    let init = numbered_node(n + 3, Node::List(seq![]));
    let cond = literal_node(n + 4, Lit::Bool(true));
    let result = accumulator(n + 5);
    (fold_node(n + 6, range, var, init, cond, step, result), n + 7)
}

/// `range.map(var, test, element)`: the elements of which the test holds.
pub open spec fn filter_fold(range: Ast, var: Seq<char>, test: Ast, element: Ast, n: nat) -> (
    Ast,
    nat,
) {
    let step = call_node(
        n + 4,
        operators::CONDITIONAL@,
        seq![test, appended(element, n), accumulator(n + 3)],
    );
    let init = numbered_node(n + 5, Node::List(seq![]));
    let cond = literal_node(n + 6, Lit::Bool(true));
    let result = accumulator(n + 7);
    (fold_node(n + 8, range, var, init, cond, step, result), n + 9)
}

/// A call with this name, receiver and number of arguments runs over its receiver.
pub open spec fn is_fold(func: Seq<char>, count: nat) -> bool {
    ||| count == 2 && (func == "all"@ || func == "exists"@ || func == "exists_one"@ || func
        == "map"@ || func == "filter"@)
    ||| count == 3 && func == "map"@
}

/// The comprehension that a call stands for.
pub open spec fn expand_fold(
    func: Seq<char>,
    range: Ast,
    var: Seq<char>,
    args: Seq<Ast>,
    n: nat,
) -> (Ast, nat) {
    if func == "all"@ {
        all_fold(range, var, args[1], n)
    } else if func == "exists"@ {
        exists_fold(range, var, args[1], n)
    } else if func == "exists_one"@ {
        exists_one_fold(range, var, args[1], n)
    } else if func == "map"@ && args.len() == 2 {
        map_fold(range, var, args[1], n)
    } else if func == "map"@ {
        filter_fold(range, var, args[1], args[2], n)
    } else {
        filter_fold(range, var, args[1], numbered_node(n, Node::Ident(var)), n + 1)
    }
}

/// The expression that a call in the source text stands for, and the next
/// identifier. `at` is where the call stands.
pub open spec fn expand(
    func: Seq<char>,
    target: Option<Ast>,
    args: Seq<Ast>,
    n: nat,
    at: int,
) -> Result<(Ast, nat), Mistake> {
    match target {
        None => if func == "has"@ && args.len() == 1 {
            match args[0].node {
                Node::Select { operand, field, test: false } => Ok(
                    (numbered_node(n, Node::Select { operand, field, test: true }), n + 1),
                ),
                _ => Err((ParseErrorKind::MacroArgument, at)),
            }
        } else {
            Ok((call_node(n, func, args), n + 1))
        },
        Some(range) => if is_fold(func, args.len()) {
            match args[0].node {
                Node::Ident(var) => Ok(expand_fold(func, range, var, args, n)),
                _ => Err((ParseErrorKind::MacroArgument, at)),
            }
        } else {
            Ok(
                (
                    numbered_node(n, Node::Call { func, target: Some(Box::new(range)), args }),
                    n + 1,
                ),
            )
        },
    }
}

proof fn lemma_leaf(id: nat, node: Node)
    requires
        numbered_node(id, node).kids().len() == 0,
        id <= u64::MAX,
    ensures
        numbered(numbered_node(id, node), id, id + 1),
{
    lemma_root(numbered_node(id, node), id);
}

/// A call of two arguments, of which the second was numbered first.
proof fn lemma_two_swapped(id: nat, func: Seq<char>, a: Ast, b: Ast, lo: nat, mid: nat)
    requires
        numbered(b, lo, mid),
        numbered(a, mid, id),
        lo <= mid <= id <= u64::MAX,
    ensures
        numbered(call_node(id, func, seq![a, b]), lo, id + 1),
{
    lemma_spread_root(
        call_node(id, func, seq![a, b]),
        lo,
        seq![mid, lo],
        seq![id, mid],
    );
}

/// A comprehension whose range, step, start, condition and result were numbered
/// in this order.
proof fn lemma_fold(
    id: nat,
    range: Ast,
    var: Seq<char>,
    init: Ast,
    cond: Ast,
    step: Ast,
    result: Ast,
    b: Seq<nat>,
)
    requires
        b.len() == 5,
        numbered(range, b[0], b[1]),
        numbered(step, b[1], b[2]),
        numbered(init, b[2], b[3]),
        numbered(cond, b[3], b[4]),
        numbered(result, b[4], id),
        b[0] <= b[1] <= b[2] <= b[3] <= b[4] <= id <= u64::MAX,
    ensures
        numbered(fold_node(id, range, var, init, cond, step, result), b[0], id + 1),
{
    lemma_spread_root(
        fold_node(id, range, var, init, cond, step, result),
        b[0],
        seq![b[0], b[2], b[3], b[1], b[4]],
        seq![b[1], b[3], b[4], b[2], id],
    );
}

proof fn lemma_all_fold(range: Ast, var: Seq<char>, test: Ast, n: nat, lo: nat, mid: nat)
    requires
        numbered(range, lo, mid),
        numbered(test, mid, n),
        lo <= mid <= n,
        n + 7 <= u64::MAX,
    ensures
        numbered(all_fold(range, var, test, n).0, lo, n + 7),
{
    let step = call_node(n + 1, operators::LOGICAL_AND@, seq![accumulator(n), test]);
    let init = literal_node(n + 2, Lit::Bool(true));
    let cond = call_node(n + 4, operators::NOT_STRICTLY_FALSE@, seq![accumulator(n + 3)]);
    lemma_leaf(n, accumulator(n).node);
    lemma_two_swapped(n + 1, operators::LOGICAL_AND@, accumulator(n), test, mid, n);
    lemma_leaf(n + 2, init.node);
    lemma_leaf(n + 3, accumulator(n + 3).node);
    lemma_over_one(cond, accumulator(n + 3), n + 3);
    lemma_leaf(n + 5, accumulator(n + 5).node);
    lemma_fold(
        n + 6,
        range,
        var,
        init,
        cond,
        step,
        accumulator(n + 5),
        seq![lo, mid, n + 2, n + 3, n + 5],
    );
}

proof fn lemma_exists_fold(range: Ast, var: Seq<char>, test: Ast, n: nat, lo: nat, mid: nat)
    requires
        numbered(range, lo, mid),
        numbered(test, mid, n),
        lo <= mid <= n,
        n + 8 <= u64::MAX,
    ensures
        numbered(exists_fold(range, var, test, n).0, lo, n + 8),
{
    let step = call_node(n + 1, operators::LOGICAL_OR@, seq![accumulator(n), test]);
    let init = literal_node(n + 2, Lit::Bool(false));
    let none_yet = call_node(n + 4, operators::LOGICAL_NOT@, seq![accumulator(n + 3)]);
    let cond = call_node(n + 5, operators::NOT_STRICTLY_FALSE@, seq![none_yet]);
    lemma_leaf(n, accumulator(n).node);
    lemma_two_swapped(n + 1, operators::LOGICAL_OR@, accumulator(n), test, mid, n);
    lemma_leaf(n + 2, init.node);
    lemma_leaf(n + 3, accumulator(n + 3).node);
    lemma_over_one(none_yet, accumulator(n + 3), n + 3);
    lemma_over_one(cond, none_yet, n + 3);
    lemma_leaf(n + 6, accumulator(n + 6).node);
    lemma_fold(
        n + 7,
        range,
        var,
        init,
        cond,
        step,
        accumulator(n + 6),
        seq![lo, mid, n + 2, n + 3, n + 6],
    );
}

proof fn lemma_exists_one_fold(range: Ast, var: Seq<char>, test: Ast, n: nat, lo: nat, mid: nat)
    requires
        numbered(range, lo, mid),
        numbered(test, mid, n),
        lo <= mid <= n,
        n + 11 <= u64::MAX,
    ensures
        numbered(exists_one_fold(range, var, test, n).0, lo, n + 11),
{
    let one = literal_node(n + 1, Lit::Int(1));
    let counted = call_node(n + 2, operators::ADD@, seq![accumulator(n), one]);
    let step = call_node(n + 4, operators::CONDITIONAL@, seq![test, counted, accumulator(n + 3)]);
    let init = literal_node(n + 5, Lit::Int(0));
    let cond = literal_node(n + 6, Lit::Bool(true));
    let one_again = literal_node(n + 8, Lit::Int(1));
    let result = call_node(n + 9, operators::EQUALS@, seq![accumulator(n + 7), one_again]);
    lemma_leaf(n, accumulator(n).node);
    lemma_leaf(n + 1, one.node);
    lemma_over_two(counted, accumulator(n), one, n, n + 1);
    lemma_leaf(n + 3, accumulator(n + 3).node);
    lemma_over_three(
        step,
        test,
        counted,
        accumulator(n + 3),
        mid,
        n,
        n + 3,
    );
    lemma_leaf(n + 5, init.node);
    lemma_leaf(n + 6, cond.node);
    lemma_leaf(n + 7, accumulator(n + 7).node);
    lemma_leaf(n + 8, one_again.node);
    lemma_over_two(result, accumulator(n + 7), one_again, n + 7, n + 8);
    lemma_fold(
        n + 10,
        range,
        var,
        init,
        cond,
        step,
        result,
        seq![lo, mid, n + 5, n + 6, n + 7],
    );
}

proof fn lemma_appended(element: Ast, n: nat, mid: nat)
    requires
        numbered(element, mid, n),
        mid <= n,
        n + 3 <= u64::MAX,
    ensures
        numbered(appended(element, n), mid, n + 3),
{
    let list = numbered_node(n, Node::List(seq![element]));
    lemma_over_one(list, element, mid);
    lemma_leaf(n + 1, accumulator(n + 1).node);
    lemma_two_swapped(n + 2, operators::ADD@, accumulator(n + 1), list, mid, n + 1);
}

proof fn lemma_map_fold(range: Ast, var: Seq<char>, element: Ast, n: nat, lo: nat, mid: nat)
    requires
        numbered(range, lo, mid),
        numbered(element, mid, n),
        lo <= mid <= n,
        n + 7 <= u64::MAX,
    ensures
        numbered(map_fold(range, var, element, n).0, lo, n + 7),
{
    let init = numbered_node(n + 3, Node::List(seq![]));
    let cond = literal_node(n + 4, Lit::Bool(true));
    lemma_appended(element, n, mid);
    lemma_leaf(n + 3, init.node);
    lemma_leaf(n + 4, cond.node);
    lemma_leaf(n + 5, accumulator(n + 5).node);
    lemma_fold(
        n + 6,
        range,
        var,
        init,
        cond,
        appended(element, n),
        accumulator(n + 5),
        seq![lo, mid, n + 3, n + 4, n + 5],
    );
}

proof fn lemma_filter_fold(
    range: Ast,
    var: Seq<char>,
    test: Ast,
    element: Ast,
    n: nat,
    lo: nat,
    mid: nat,
    mid2: nat,
)
    requires
        numbered(range, lo, mid),
        numbered(test, mid, mid2),
        numbered(element, mid2, n),
        lo <= mid <= mid2 <= n,
        n + 9 <= u64::MAX,
    ensures
        numbered(filter_fold(range, var, test, element, n).0, lo, n + 9),
{
    let step = call_node(
        n + 4,
        operators::CONDITIONAL@,
        seq![test, appended(element, n), accumulator(n + 3)],
    );
    let init = numbered_node(n + 5, Node::List(seq![]));
    let cond = literal_node(n + 6, Lit::Bool(true));
    lemma_appended(element, n, mid2);
    lemma_leaf(n + 3, accumulator(n + 3).node);
    lemma_over_three(
        step,
        test,
        appended(element, n),
        accumulator(n + 3),
        mid,
        mid2,
        n + 3,
    );
    lemma_leaf(n + 5, init.node);
    lemma_leaf(n + 6, cond.node);
    lemma_leaf(n + 7, accumulator(n + 7).node);
    lemma_fold(
        n + 8,
        range,
        var,
        init,
        cond,
        step,
        accumulator(n + 7),
        seq![lo, mid, n + 5, n + 6, n + 7],
    );
}

/// What a call stands for is numbered as a tree is.
pub proof fn lemma_expand(
    func: Seq<char>,
    target: Option<Ast>,
    args: Seq<Ast>,
    n: nat,
    at: int,
    lo: nat,
    mid: nat,
)
    requires
        match target {
            Some(range) => numbered(range, lo, mid) && lo <= mid,
            None => lo == mid,
        },
        in_order(args, mid, n),
        n + 12 <= u64::MAX,
    ensures
        expand(func, target, args, n, at) matches Ok((tree, m)) ==> n < m <= n + 12 && numbered(
            tree,
            lo,
            m,
        ),
{
    lemma_in_order(args, mid, n);
    match target {
        None => {
            if func == "has"@ && args.len() == 1 {
                if let Node::Select { operand, field, test: false } = args[0].node {
                    let tree = numbered_node(n, Node::Select { operand, field, test: true });
                    assert(args[0].kids()[0] == *operand);
                    assert(numbered(args[0], mid, n));
                    assert forall|x: u64| #[trigger] operand.ids().contains(x) implies mid <= x
                        < n by {
                        assert(args[0].kids()[0].ids().contains(x));
                        assert(args[0].ids_below().contains(x));
                        assert(args[0].ids().contains(x));
                    }
                    assert(numbered(*operand, mid, n));
                    lemma_over_one(tree, *operand, mid);
                }
            } else {
                lemma_ordered_root(call_node(n, func, args), mid);
            }
        },
        Some(range) => {
            if is_fold(func, args.len()) {
                if let Node::Ident(var) = args[0].node {
                    lemma_expand_fold(func, range, var, args, n, lo, mid);
                }
            } else {
                let tree = numbered_node(
                    n,
                    Node::Call { func, target: Some(Box::new(range)), args },
                );
                let kids = tree.kids();
                assert(kids =~= args.push(range));
                assert forall|i: int| 0 <= i < kids.len() implies numbered(
                    #[trigger] kids[i],
                    lo,
                    n,
                ) by {
                    if i < args.len() {
                        assert(numbered(args[i], mid, n));
                    }
                }
                assert forall|i: int, j: int|
                    #![trigger kids[i], kids[j]]
                    0 <= i < j < kids.len() implies kids[i].ids().disjoint(kids[j].ids()) by {
                    assert(numbered(args[i], mid, n));
                    if j < args.len() {
                        assert(kids[i] == args[i] && kids[j] == args[j]);
                    }
                }
                lemma_root(tree, lo);
            }
        },
    }
}

proof fn lemma_expand_fold(
    func: Seq<char>,
    range: Ast,
    var: Seq<char>,
    args: Seq<Ast>,
    n: nat,
    lo: nat,
    mid: nat,
)
    requires
        is_fold(func, args.len()),
        numbered(range, lo, mid),
        lo <= mid,
        in_order(args, mid, n),
        n + 12 <= u64::MAX,
    ensures
        n < expand_fold(func, range, var, args, n).1 <= n + 12,
        numbered(
            expand_fold(func, range, var, args, n).0,
            lo,
            expand_fold(func, range, var, args, n).1,
        ),
{
    let init = args.drop_last();
    let mid2 = choose|m: nat| in_order(init, mid, m) && #[trigger] numbered(args.last(), m, n);
    lemma_in_order(init, mid, mid2);
    lemma_in_order(args, mid, n);
    assert(numbered(args.last(), mid2, n));
    assert(args.last().ids().contains(args.last().id));
    if args.len() == 2 {
        assert(args.last() == args[1]);
        lemma_wider(range, lo, mid, lo, mid2);
        lemma_all_fold(range, var, args[1], n, lo, mid2);
        lemma_exists_fold(range, var, args[1], n, lo, mid2);
        lemma_exists_one_fold(range, var, args[1], n, lo, mid2);
        lemma_map_fold(range, var, args[1], n, lo, mid2);
        lemma_leaf(n, Node::Ident(var));
        lemma_filter_fold(
            range,
            var,
            args[1],
            numbered_node(n, Node::Ident(var)),
            n + 1,
            lo,
            mid2,
            n,
        );
    } else {
        let mid1 = choose|m: nat|
            in_order(init.drop_last(), mid, m) && #[trigger] numbered(init.last(), m, mid2);
        lemma_in_order(init.drop_last(), mid, mid1);
        assert(init.last() == args[1]);
        assert(args.last() == args[2]);
        assert(init.last().ids().contains(init.last().id));
        lemma_wider(range, lo, mid, lo, mid1);
        lemma_filter_fold(range, var, args[1], args[2], n, lo, mid1, mid2);
        lemma_three_names();
    }
}

/// The names that take three arguments are not those that take two.
proof fn lemma_three_names()
    ensures
        "map"@ != "all"@,
        "map"@ != "exists"@,
        "map"@ != "exists_one"@,
{
    reveal_strlit("map");
    reveal_strlit("all");
    reveal_strlit("exists");
    reveal_strlit("exists_one");
    assert("map"@[0] != "all"@[0]);
    assert("map"@.len() != "exists"@.len());
    assert("map"@.len() != "exists_one"@.len());
}

pub(crate) fn ident_expr(id: u64, name: &str) -> (e: IdedExpr)
    ensures
        e@ == numbered_node(id as nat, Node::Ident(name@)),
{
    IdedExpr { id, expr: Expr::Ident(name.to_string()) }
}

pub(crate) fn literal_expr(id: u64, lit: Literal) -> (e: IdedExpr)
    ensures
        e@ == literal_node(id as nat, lit@),
{
    IdedExpr { id, expr: Expr::Literal(lit) }
}

pub(crate) fn list_expr(id: u64, elements: Vec<IdedExpr>) -> (e: IdedExpr)
    ensures
        e@ == numbered_node(id as nat, Node::List(models(elements@))),
{
    let e = IdedExpr { id, expr: Expr::List(ListExpr { elements }) };
    assert(e@.node->List_0 =~= models(elements@));
    e
}

pub(crate) fn call_expr(id: u64, func: &str, args: Vec<IdedExpr>) -> (e: IdedExpr)
    ensures
        e@ == call_node(id as nat, func@, models(args@)),
{
    let e = IdedExpr {
        id,
        expr: Expr::Call(CallExpr { func_name: func.to_string(), target: None, args }),
    };
    assert(e@.node->Call_args =~= models(args@));
    e
}

pub(crate) fn one(a: IdedExpr) -> (v: Vec<IdedExpr>)
    ensures
        models(v@) == seq![a@],
{
    let mut v: Vec<IdedExpr> = Vec::new();
    v.push(a);
    assert(models(v@) =~= seq![a@]);
    v
}

pub(crate) fn two(a: IdedExpr, b: IdedExpr) -> (v: Vec<IdedExpr>)
    ensures
        models(v@) == seq![a@, b@],
{
    let mut v: Vec<IdedExpr> = Vec::new();
    v.push(a);
    v.push(b);
    assert(models(v@) =~= seq![a@, b@]);
    v
}

pub(crate) fn three(a: IdedExpr, b: IdedExpr, c: IdedExpr) -> (v: Vec<IdedExpr>)
    ensures
        models(v@) == seq![a@, b@, c@],
{
    let mut v: Vec<IdedExpr> = Vec::new();
    v.push(a);
    v.push(b);
    v.push(c);
    assert(models(v@) =~= seq![a@, b@, c@]);
    v
}

/// The parts of a comprehension, but for its range and variable.
struct FoldParts {
    id: u64,
    init: IdedExpr,
    cond: IdedExpr,
    step: IdedExpr,
    result: IdedExpr,
}

fn fold_expr(range: IdedExpr, var: &str, parts: FoldParts) -> (e: IdedExpr)
    ensures
        e@ == fold_node(
            parts.id as nat,
            range@,
            var@,
            parts.init@,
            parts.cond@,
            parts.step@,
            parts.result@,
        ),
{
    IdedExpr {
        id: parts.id,
        expr: Expr::Comprehension(
            ComprehensionExpr {
                iter_range: Box::new(range),
                iter_var: var.to_string(),
                accu_var: ACCUMULATOR.to_string(),
                accu_init: Box::new(parts.init),
                loop_cond: Box::new(parts.cond),
                loop_step: Box::new(parts.step),
                result: Box::new(parts.result),
            },
        ),
    }
}

fn fold_all(range: IdedExpr, var: &str, test: IdedExpr, n: u64) -> (r: (IdedExpr, u64))
    requires
        n + 7 <= u64::MAX,
    ensures
        (r.0@, r.1 as nat) == all_fold(range@, var@, test@, n as nat),
{
    let step = call_expr(n + 1, operators::LOGICAL_AND, two(ident_expr(n, ACCUMULATOR), test));
    let init = literal_expr(n + 2, Literal::Bool(true));
    let cond = call_expr(
        n + 4,
        operators::NOT_STRICTLY_FALSE,
        one(ident_expr(n + 3, ACCUMULATOR)),
    );
    let result = ident_expr(n + 5, ACCUMULATOR);
    (fold_expr(range, var, FoldParts { id: n + 6, init, cond, step, result }), n + 7)
}

fn fold_exists(range: IdedExpr, var: &str, test: IdedExpr, n: u64) -> (r: (IdedExpr, u64))
    requires
        n + 8 <= u64::MAX,
    ensures
        (r.0@, r.1 as nat) == exists_fold(range@, var@, test@, n as nat),
{
    let step = call_expr(n + 1, operators::LOGICAL_OR, two(ident_expr(n, ACCUMULATOR), test));
    let init = literal_expr(n + 2, Literal::Bool(false));
    let none_yet = call_expr(
        n + 4,
        operators::LOGICAL_NOT,
        one(ident_expr(n + 3, ACCUMULATOR)),
    );
    let cond = call_expr(n + 5, operators::NOT_STRICTLY_FALSE, one(none_yet));
    let result = ident_expr(n + 6, ACCUMULATOR);
    (fold_expr(range, var, FoldParts { id: n + 7, init, cond, step, result }), n + 8)
}

fn fold_exists_one(range: IdedExpr, var: &str, test: IdedExpr, n: u64) -> (r: (IdedExpr, u64))
    requires
        n + 11 <= u64::MAX,
    ensures
        (r.0@, r.1 as nat) == exists_one_fold(range@, var@, test@, n as nat),
{
    let counted = call_expr(
        n + 2,
        operators::ADD,
        two(ident_expr(n, ACCUMULATOR), literal_expr(n + 1, Literal::Int(1))),
    );
    let step = call_expr(
        n + 4,
        operators::CONDITIONAL,
        three(test, counted, ident_expr(n + 3, ACCUMULATOR)),
    );
    let init = literal_expr(n + 5, Literal::Int(0));
    let cond = literal_expr(n + 6, Literal::Bool(true));
    let result = call_expr(
        n + 9,
        operators::EQUALS,
        two(ident_expr(n + 7, ACCUMULATOR), literal_expr(n + 8, Literal::Int(1))),
    );
    (fold_expr(range, var, FoldParts { id: n + 10, init, cond, step, result }), n + 11)
}

fn append(element: IdedExpr, n: u64) -> (e: IdedExpr)
    requires
        n + 3 <= u64::MAX,
    ensures
        e@ == appended(element@, n as nat),
{
    let list = list_expr(n, one(element));
    call_expr(n + 2, operators::ADD, two(ident_expr(n + 1, ACCUMULATOR), list))
}

fn empty_list(id: u64) -> (e: IdedExpr)
    ensures
        e@ == numbered_node(id as nat, Node::List(seq![])),
{
    let none: Vec<IdedExpr> = Vec::new();
    assert(models(none@) =~= seq![]);
    list_expr(id, none)
}

fn fold_map(range: IdedExpr, var: &str, element: IdedExpr, n: u64) -> (r: (IdedExpr, u64))
    requires
        n + 7 <= u64::MAX,
    ensures
        (r.0@, r.1 as nat) == map_fold(range@, var@, element@, n as nat),
{
    let step = append(element, n);
    let init = empty_list(n + 3);
    let cond = literal_expr(n + 4, Literal::Bool(true));
    let result = ident_expr(n + 5, ACCUMULATOR);
    (fold_expr(range, var, FoldParts { id: n + 6, init, cond, step, result }), n + 7)
}

fn fold_filter(range: IdedExpr, var: &str, test: IdedExpr, element: IdedExpr, n: u64) -> (r: (
    IdedExpr,
    u64,
))
    requires
        n + 9 <= u64::MAX,
    ensures
        (r.0@, r.1 as nat) == filter_fold(range@, var@, test@, element@, n as nat),
{
    let step = call_expr(
        n + 4,
        operators::CONDITIONAL,
        three(test, append(element, n), ident_expr(n + 3, ACCUMULATOR)),
    );
    let init = empty_list(n + 5);
    let cond = literal_expr(n + 6, Literal::Bool(true));
    let result = ident_expr(n + 7, ACCUMULATOR);
    (fold_expr(range, var, FoldParts { id: n + 8, init, cond, step, result }), n + 9)
}

fn names_fold(func: &str, count: usize) -> (yes: bool)
    ensures
        yes == is_fold(func@, count as nat),
{
    if count == 2 {
        same_text(func, "all") || same_text(func, "exists") || same_text(func, "exists_one")
            || same_text(func, "map") || same_text(func, "filter")
    } else {
        count == 3 && same_text(func, "map")
    }
}

fn fold_call(func: &str, range: IdedExpr, var: &str, args: Vec<IdedExpr>, n: u64) -> (r: (
    IdedExpr,
    u64,
))
    requires
        is_fold(func@, args@.len()),
        n + 12 <= u64::MAX,
    ensures
        (r.0@, r.1 as nat) == expand_fold(func@, range@, var@, models(args@), n as nat),
{
    proof {
        lemma_three_names();
    }
    let count: usize = args.len();
    let mut args = args;
    let last = args.pop().unwrap();
    if same_text(func, "all") {
        fold_all(range, var, last, n)
    } else if same_text(func, "exists") {
        fold_exists(range, var, last, n)
    } else if same_text(func, "exists_one") {
        fold_exists_one(range, var, last, n)
    } else if same_text(func, "map") {
        if count == 2 {
            fold_map(range, var, last, n)
        } else {
            let test = args.pop().unwrap();
            fold_filter(range, var, test, last, n)
        }
    } else {
        fold_filter(range, var, last, ident_expr(n, var), n + 1)
    }
}

/// The result of a step of the parser, in the model.
pub open spec fn expansion(r: Result<(IdedExpr, u64), (ParseErrorKind, usize)>) -> Result<
    (Ast, nat),
    Mistake,
> {
    match r {
        Ok((e, n)) => Ok((e@, n as nat)),
        Err((kind, at)) => Err((kind, at as int)),
    }
}

/// The expression that a call without a receiver stands for.
pub(crate) fn expand_call(func: &str, args: Vec<IdedExpr>, n: u64, at: usize) -> (r: Result<
    (IdedExpr, u64),
    (ParseErrorKind, usize),
>)
    requires
        n + 12 <= u64::MAX,
    ensures
        expansion(r) == expand(func@, None, models(args@), n as nat, at as int),
{
    if same_text(func, "has") && args.len() == 1 {
        let mut args = args;
        let arg = args.pop().unwrap();
        match arg.expr {
            Expr::Select(s) => {
                if s.test {
                    Err((ParseErrorKind::MacroArgument, at))
                } else {
                    Ok(
                        (
                            IdedExpr {
                                id: n,
                                expr: Expr::Select(
                                    SelectExpr { operand: s.operand, field: s.field, test: true },
                                ),
                            },
                            n + 1,
                        ),
                    )
                }
            },
            _ => Err((ParseErrorKind::MacroArgument, at)),
        }
    } else {
        Ok((call_expr(n, func, args), n + 1))
    }
}

/// The expression that a call with a receiver stands for.
pub(crate) fn expand_method(
    func: &str,
    target: IdedExpr,
    args: Vec<IdedExpr>,
    n: u64,
    at: usize,
) -> (r: Result<(IdedExpr, u64), (ParseErrorKind, usize)>)
    requires
        n + 12 <= u64::MAX,
    ensures
        expansion(r) == expand(func@, Some(target@), models(args@), n as nat, at as int),
{
    if names_fold(func, args.len()) {
        let var: String = match &args[0].expr {
            Expr::Ident(name) => name.clone(),
            _ => {
                return Err((ParseErrorKind::MacroArgument, at));
            },
        };
        Ok(fold_call(func, target, var.as_str(), args, n))
    } else {
        let e = IdedExpr {
            id: n,
            expr: Expr::Call(
                CallExpr { func_name: func.to_string(), target: Some(Box::new(target)), args },
            ),
        };
        assert(e@.node->Call_args =~= models(args@));
        Ok((e, n + 1))
    }
}

} // verus!
