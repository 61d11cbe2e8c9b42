//! The variables and functions that an expression mentions.

use vstd::prelude::*;
use vstd::string::*;
use crate::ast::{
    entry_kids, entry_models, models, Ast, Entry, EntryExpr, EntryNode, Expr, IdedEntryExpr,
    IdedExpr, Node,
};
use crate::text::same_text;

verus! {

/// The name was made up by the parser: it begins with `@`.
pub open spec fn is_internal(name: Seq<char>) -> bool {
    name.len() > 0 && name[0] == '@'
}

impl Ast {
    /// The variables that the tree mentions.
    pub open spec fn variables(self) -> Set<Seq<char>>
        decreases self,
    {
        proof {
            self.lemma_kids_are_smaller();
        }
        Set::new(
            |name: Seq<char>|
                {
                    ||| self.node == Node::Ident(name) && !is_internal(name)
                    ||| exists|i: int|
                        0 <= i < self.kids().len() && (
                        #[trigger] self.kids()[i]).variables().contains(name)
                },
        )
    }

    /// The functions and operators that the tree calls.
    pub open spec fn functions(self) -> Set<Seq<char>>
        decreases self,
    {
        proof {
            self.lemma_kids_are_smaller();
        }
        Set::new(
            |name: Seq<char>|
                {
                    ||| self.node matches Node::Call { func, .. } && func == name
                    ||| exists|i: int|
                        0 <= i < self.kids().len() && (
                        #[trigger] self.kids()[i]).functions().contains(name)
                },
        )
    }
}

/// The variables that some trees mention.
pub open spec fn all_variables(trees: Seq<Ast>) -> Set<Seq<char>> {
    Set::new(
        |name: Seq<char>|
            exists|i: int|
                0 <= i < trees.len() && (#[trigger] trees[i]).variables().contains(name),
    )
}

/// The functions that some trees call.
pub open spec fn all_functions(trees: Seq<Ast>) -> Set<Seq<char>> {
    Set::new(
        |name: Seq<char>|
            exists|i: int|
                0 <= i < trees.len() && (#[trigger] trees[i]).functions().contains(name),
    )
}

/// The texts among some strings.
pub open spec fn texts(names: Seq<&str>) -> Set<Seq<char>> {
    Set::new(|name: Seq<char>| exists|i: int| 0 <= i < names.len() && #[trigger] names[i]@ == name)
}

/// No two of the strings are the same.
pub open spec fn all_differ(names: Seq<&str>) -> bool {
    forall|i: int, j: int|
        #![trigger names[i], names[j]]
        0 <= i < j < names.len() ==> names[i]@ != names[j]@
}

/// What an expression refers to.
#[derive(Debug)]
pub struct ExpressionReferences<'a> {
    variables: Vec<&'a str>,
    functions: Vec<&'a str>,
}

fn holds_name(names: &Vec<&str>, name: &str) -> (yes: bool)
    ensures
        yes == texts(names@).contains(name@),
{
    let mut i: usize = 0;
    while i < names.len()
        invariant
            i <= names@.len(),
            forall|k: int| 0 <= k < i ==> #[trigger] names@[k]@ != name@,
        decreases names@.len() - i,
    {
        if same_text(names[i], name) {
            return true;
        }
        i += 1;
    }
    false
}

fn add_name<'a>(names: &mut Vec<&'a str>, name: &'a str)
    requires
        all_differ(old(names)@),
    ensures
        texts(final(names)@) == texts(old(names)@).insert(name@),
        all_differ(final(names)@),
{
    if !holds_name(names, name) {
        let ghost before = names@;
        names.push(name);
        proof {
            assert(names@ =~= before.push(name));
            assert forall|x: Seq<char>|
                texts(names@).contains(x) == texts(before).insert(name@).contains(x) by {
                if texts(before).contains(x) {
                    let i = choose|i: int| 0 <= i < before.len() && #[trigger] before[i]@ == x;
                    assert(names@[i]@ == x);
                }
                if x == name@ {
                    assert(names@[before.len() as int]@ == x);
                }
                if texts(names@).contains(x) && x != name@ {
                    let i = choose|i: int| 0 <= i < names@.len() && #[trigger] names@[i]@ == x;
                    assert(before[i]@ == x);
                }
            }
            assert forall|i: int, j: int|
                #![trigger names@[i], names@[j]]
                0 <= i < j < names@.len() implies names@[i]@ != names@[j]@ by {
                if j == before.len() {
                    assert(before[i]@ == names@[i]@);
                    assert(texts(before).contains(before[i]@));
                } else {
                    assert(before[i]@ != before[j]@);
                }
            }
        }
        assert(texts(names@) =~= texts(before).insert(name@));
    } else {
        assert(texts(names@) =~= texts(names@).insert(name@));
    }
}

fn begins_with_at(name: &str) -> (yes: bool)
    ensures
        yes == is_internal(name@),
{
    if name.unicode_len() == 0 {
        false
    } else {
        name.get_char(0) == '@'
    }
}

impl<'a> ExpressionReferences<'a> {
    /// The mentioned variables.
    pub closed spec fn variable_names(self) -> Set<Seq<char>> {
        texts(self.variables@)
    }

    /// The called functions.
    pub closed spec fn function_names(self) -> Set<Seq<char>> {
        texts(self.functions@)
    }

    #[verifier::type_invariant]
    closed spec fn well_formed(self) -> bool {
        all_differ(self.variables@) && all_differ(self.functions@)
    }

    /// The expression mentions the variable.
    pub fn has_variable(&self, name: &str) -> (yes: bool)
        ensures
            yes == self.variable_names().contains(name@),
    {
        holds_name(&self.variables, name)
    }

    /// The expression calls the function.
    pub fn has_function(&self, name: &str) -> (yes: bool)
        ensures
            yes == self.function_names().contains(name@),
    {
        holds_name(&self.functions, name)
    }

    /// The mentioned variables, each once.
    pub fn variables(&self) -> (names: Vec<&'a str>)
        ensures
            texts(names@) == self.variable_names(),
            all_differ(names@),
    {
        proof {
            use_type_invariant(self);
        }
        copied(&self.variables)
    }

    /// The called functions, each once.
    pub fn functions(&self) -> (names: Vec<&'a str>)
        ensures
            texts(names@) == self.function_names(),
            all_differ(names@),
    {
        proof {
            use_type_invariant(self);
        }
        copied(&self.functions)
    }
}

fn copied<'a>(names: &Vec<&'a str>) -> (copy: Vec<&'a str>)
    ensures
        copy@ == names@,
{
    let mut copy: Vec<&'a str> = Vec::new();
    let mut i: usize = 0;
    while i < names.len()
        invariant
            i <= names@.len(),
            copy@ == names@.take(i as int),
        decreases names@.len() - i,
    {
        copy.push(names[i]);
        i += 1;
        assert(names@.take(i as int) =~= names@.take(i - 1).push(names@[i - 1]));
    }
    assert(names@.take(names@.len() as int) =~= names@);
    copy
}

proof fn lemma_one_more(trees: Seq<Ast>, tree: Ast)
    ensures
        all_variables(trees.push(tree)) == all_variables(trees).union(tree.variables()),
        all_functions(trees.push(tree)) == all_functions(trees).union(tree.functions()),
{
    let more = trees.push(tree);
    assert forall|x: Seq<char>|
        #![trigger all_variables(more).contains(x)]
        all_variables(more).contains(x) == all_variables(trees).union(
            tree.variables(),
        ).contains(x) by {
        if all_variables(trees).contains(x) {
            let i = choose|i: int|
                0 <= i < trees.len() && (#[trigger] trees[i]).variables().contains(x);
            assert(more[i].variables().contains(x));
        }
        if tree.variables().contains(x) {
            assert(more[trees.len() as int].variables().contains(x));
        }
        if all_variables(more).contains(x) && !tree.variables().contains(x) {
            let i = choose|i: int|
                0 <= i < more.len() && (#[trigger] more[i]).variables().contains(x);
            assert(trees[i].variables().contains(x));
        }
    }
    assert forall|x: Seq<char>|
        #![trigger all_functions(more).contains(x)]
        all_functions(more).contains(x) == all_functions(trees).union(
            tree.functions(),
        ).contains(x) by {
        if all_functions(trees).contains(x) {
            let i = choose|i: int|
                0 <= i < trees.len() && (#[trigger] trees[i]).functions().contains(x);
            assert(more[i].functions().contains(x));
        }
        if tree.functions().contains(x) {
            assert(more[trees.len() as int].functions().contains(x));
        }
        if all_functions(more).contains(x) && !tree.functions().contains(x) {
            let i = choose|i: int|
                0 <= i < more.len() && (#[trigger] more[i]).functions().contains(x);
            assert(trees[i].functions().contains(x));
        }
    }
    assert(all_variables(more) =~= all_variables(trees).union(tree.variables()));
    assert(all_functions(more) =~= all_functions(trees).union(tree.functions()));
}

/// A tree mentions what its subexpressions mention, and what its node names.
proof fn lemma_tree_names(tree: Ast)
    ensures
        tree.variables() == all_variables(tree.kids()).union(
            Set::new(|name: Seq<char>| tree.node == Node::Ident(name) && !is_internal(name)),
        ),
        tree.functions() == all_functions(tree.kids()).union(
            Set::new(
                |name: Seq<char>| tree.node matches Node::Call { func, .. } && func == name,
            ),
        ),
{
    assert(tree.variables() =~= all_variables(tree.kids()).union(
        Set::new(|name: Seq<char>| tree.node == Node::Ident(name) && !is_internal(name)),
    ));
    assert(tree.functions() =~= all_functions(tree.kids()).union(
        Set::new(|name: Seq<char>| tree.node matches Node::Call { func, .. } && func == name),
    ));
}

/// Names found so far.
struct Found<'a> {
    variables: Vec<&'a str>,
    functions: Vec<&'a str>,
}

impl<'a> Found<'a> {
    spec fn differ(self) -> bool {
        all_differ(self.variables@) && all_differ(self.functions@)
    }

    /// The names of `before`, and those of some trees.
    spec fn adds(self, before: Found<'a>, trees: Seq<Ast>) -> bool {
        &&& texts(self.variables@) == texts(before.variables@).union(all_variables(trees))
        &&& texts(self.functions@) == texts(before.functions@).union(all_functions(trees))
    }
}

proof fn lemma_adds_one<'a>(
    before: Found<'a>,
    trees: Seq<Ast>,
    mid: Found<'a>,
    tree: Ast,
    after: Found<'a>,
)
    requires
        mid.adds(before, trees),
        after.adds(mid, seq![tree]),
    ensures
        after.adds(before, trees.push(tree)),
{
    lemma_one_more(trees, tree);
    lemma_one_more(seq![], tree);
    assert(Seq::<Ast>::empty().push(tree) =~= seq![tree]);
    assert(all_variables(seq![]) =~= Set::empty());
    assert(all_functions(seq![]) =~= Set::empty());
    assert(texts(after.variables@) =~= texts(before.variables@).union(
        all_variables(trees.push(tree)),
    ));
    assert(texts(after.functions@) =~= texts(before.functions@).union(
        all_functions(trees.push(tree)),
    ));
}

proof fn lemma_adds_none<'a>(before: Found<'a>)
    ensures
        before.adds(before, seq![]),
{
    assert(texts(before.variables@) =~= texts(before.variables@).union(all_variables(seq![])));
    assert(texts(before.functions@) =~= texts(before.functions@).union(all_functions(seq![])));
}

/// Where a node names nothing itself, its subexpressions make up its names.
proof fn lemma_only_kids<'a>(before: Found<'a>, tree: Ast, after: Found<'a>)
    requires
        !(tree.node is Ident),
        !(tree.node is Call),
        after.adds(before, tree.kids()),
    ensures
        after.adds(before, seq![tree]),
{
    lemma_tree_names(tree);
    lemma_one_more(seq![], tree);
    assert(Seq::<Ast>::empty().push(tree) =~= seq![tree]);
    assert(texts(after.variables@) =~= texts(before.variables@).union(all_variables(seq![tree])));
    assert(texts(after.functions@) =~= texts(before.functions@).union(all_functions(seq![tree])));
}

fn collect<'a>(expr: &'a IdedExpr, found: &mut Found<'a>)
    requires
        old(found).differ(),
    ensures
        final(found).differ(),
        final(found).adds(*old(found), seq![expr@]),
    decreases expr, 1nat,
{
    let ghost before = *found;
    let ghost tree = expr@;
    proof {
        lemma_adds_none(before);
    }
    match &expr.expr {
        Expr::Unspecified => {
            proof {
                lemma_only_kids(before, tree, *found);
            }
        },
        Expr::Literal(_) => {
            proof {
                lemma_only_kids(before, tree, *found);
            }
        },
        Expr::Ident(name) => {
            if !begins_with_at(name.as_str()) {
                add_name(&mut found.variables, name.as_str());
            }
            proof {
                lemma_tree_names(tree);
                lemma_one_more(seq![], tree);
                assert(Seq::<Ast>::empty().push(tree) =~= seq![tree]);
                assert(tree.kids() =~= seq![]);
                assert(texts(found.variables@) =~= texts(before.variables@).union(
                    all_variables(seq![tree]),
                ));
                assert(texts(found.functions@) =~= texts(before.functions@).union(
                    all_functions(seq![tree]),
                ));
            }
        },
        Expr::Select(select) => {
            collect(&select.operand, found);
            proof {
                assert(tree.kids() =~= seq![select.operand@]);
                lemma_only_kids(before, tree, *found);
            }
        },
        Expr::List(list) => {
            collect_all(&list.elements, found);
            proof {
                assert(tree.node->List_0 =~= models(list.elements@));
                lemma_only_kids(before, tree, *found);
            }
        },
        Expr::Dict(map) => {
            collect_entries(&map.entries, found);
            proof {
                assert(tree.node->Dict_0 =~= entry_models(map.entries@));
                lemma_only_kids(before, tree, *found);
            }
        },
        Expr::Struct(strct) => {
            collect_entries(&strct.entries, found);
            proof {
                assert(tree.node->Struct_entries =~= entry_models(strct.entries@));
                lemma_only_kids(before, tree, *found);
            }
        },
        Expr::Comprehension(c) => {
            collect(&c.iter_range, found);
            let ghost f1 = *found;
            collect(&c.accu_init, found);
            let ghost f2 = *found;
            collect(&c.loop_cond, found);
            let ghost f3 = *found;
            collect(&c.loop_step, found);
            let ghost f4 = *found;
            collect(&c.result, found);
            proof {
                let a = seq![(*c.iter_range)@];
                lemma_adds_one(before, a, f1, (*c.accu_init)@, f2);
                let b = a.push((*c.accu_init)@);
                lemma_adds_one(before, b, f2, (*c.loop_cond)@, f3);
                let d = b.push((*c.loop_cond)@);
                lemma_adds_one(before, d, f3, (*c.loop_step)@, f4);
                let e = d.push((*c.loop_step)@);
                lemma_adds_one(before, e, f4, (*c.result)@, *found);
                assert(tree.kids() =~= e.push((*c.result)@));
                lemma_only_kids(before, tree, *found);
            }
        },
        Expr::Call(call) => {
            collect_all(&call.args, found);
            let ghost f1 = *found;
            if let Some(target) = &call.target {
                collect(target, found);
                proof {
                    lemma_adds_one(before, models(call.args@), f1, (**target)@, *found);
                }
            }
            let ghost f2 = *found;
            add_name(&mut found.functions, call.func_name.as_str());
            proof {
                assert(tree.node->Call_args =~= models(call.args@));
                assert(f2.adds(before, tree.kids()));
                lemma_tree_names(tree);
                lemma_one_more(seq![], tree);
                assert(Seq::<Ast>::empty().push(tree) =~= seq![tree]);
                assert(texts(found.variables@) =~= texts(before.variables@).union(
                    all_variables(seq![tree]),
                ));
                assert(texts(found.functions@) =~= texts(before.functions@).union(
                    all_functions(seq![tree]),
                ));
            }
        },
    }
}

fn collect_all<'a>(exprs: &'a Vec<IdedExpr>, found: &mut Found<'a>)
    requires
        old(found).differ(),
    ensures
        final(found).differ(),
        final(found).adds(*old(found), models(exprs@)),
    decreases exprs, 0nat,
{
    let ghost before = *found;
    let ghost trees = models(exprs@);
    let mut i: usize = 0;
    proof {
        lemma_adds_none(before);
        assert(trees.take(0) =~= seq![]);
    }
    while i < exprs.len()
        invariant
            i <= exprs@.len(),
            trees == models(exprs@),
            found.differ(),
            found.adds(before, trees.take(i as int)),
        decreases exprs@.len() - i,
    {
        let ghost mid = *found;
        collect(&exprs[i], found);
        proof {
            lemma_adds_one(before, trees.take(i as int), mid, trees[i as int], *found);
            assert(trees.take(i + 1) =~= trees.take(i as int).push(trees[i as int]));
        }
        i += 1;
    }
    assert(trees.take(trees.len() as int) =~= trees);
}

fn collect_entries<'a>(entries: &'a Vec<IdedEntryExpr>, found: &mut Found<'a>)
    requires
        old(found).differ(),
    ensures
        final(found).differ(),
        final(found).adds(*old(found), entry_kids(entry_models(entries@))),
    decreases entries, 0nat,
{
    let ghost before = *found;
    let ghost all = entry_models(entries@);
    let mut i: usize = 0;
    proof {
        lemma_adds_none(before);
        assert(entry_kids(all.take(0)) =~= seq![]);
    }
    while i < entries.len()
        invariant
            i <= entries@.len(),
            all == entry_models(entries@),
            found.differ(),
            found.adds(before, entry_kids(all.take(i as int))),
        decreases entries@.len() - i,
    {
        let ghost mid = *found;
        let ghost done = entry_kids(all.take(i as int));
        let ghost entry = entries@[i as int];
        proof {
            assert(all.take(i + 1).drop_last() =~= all.take(i as int));
            assert(all.take(i + 1).last() == entry@);
        }
        match &entries[i].expr {
            EntryExpr::StructField(f) => {
                collect(&f.value, found);
                proof {
                    lemma_adds_one(before, done, mid, f.value@, *found);
                    assert(entry_kids(all.take(i + 1)) =~= done.push(f.value@));
                }
            },
            EntryExpr::MapEntry(e) => {
                collect(&e.key, found);
                let ghost mid2 = *found;
                collect(&e.value, found);
                proof {
                    lemma_adds_one(before, done, mid, e.key@, mid2);
                    lemma_adds_one(before, done.push(e.key@), mid2, e.value@, *found);
                    assert(entry_kids(all.take(i + 1)) =~= done.push(e.key@).push(e.value@));
                }
            },
        }
        i += 1;
    }
    assert(all.take(all.len() as int) =~= all);
}

impl IdedExpr {
    /// What the expression refers to.
    pub fn references(&self) -> (refs: ExpressionReferences<'_>)
        ensures
            refs.variable_names() == self@.variables(),
            refs.function_names() == self@.functions(),
    {
        let mut found = Found { variables: Vec::new(), functions: Vec::new() };
        let ghost before = found;
        collect(self, &mut found);
        proof {
            lemma_one_more(seq![], self@);
            assert(Seq::<Ast>::empty().push(self@) =~= seq![self@]);
            assert(texts(found.variables@) =~= self@.variables());
            assert(texts(found.functions@) =~= self@.functions());
        }
        ExpressionReferences { variables: found.variables, functions: found.functions }
    }
}

/// A variable mentions itself and calls nothing; a constant mentions nothing.
/// The names that the parser made up do not count.
pub proof fn law_references_of_leaves(tree: Ast, name: Seq<char>)
    ensures
        tree.node == Node::Ident(name) && (name.len() == 0 || name[0] != '@') ==> tree.variables()
            == set![name],
        tree.node == Node::Ident(name) && name.len() > 0 && name[0] == '@' ==> tree.variables()
            == Set::<Seq<char>>::empty(),
        tree.node is Literal ==> tree.variables() == Set::<Seq<char>>::empty(),
        tree.node is Ident || tree.node is Literal ==> tree.functions() == Set::<
            Seq<char>,
        >::empty(),
{
}

/// A selection refers to what its operand refers to.
pub proof fn law_references_of_selections(tree: Ast, operand: Ast)
    requires
        tree.node matches Node::Select { operand: o, .. } && *o == operand,
    ensures
        tree.variables() == operand.variables(),
        tree.functions() == operand.functions(),
{
    assert(tree.kids() =~= seq![operand]);
    lemma_references(tree, seq![], operand);
    assert(tree.variables() =~= operand.variables());
    assert(tree.functions() =~= operand.functions());
}

/// What some trees and one more refer to.
proof fn lemma_references(tree: Ast, before: Seq<Ast>, last: Ast)
    requires
        tree.kids() == before.push(last),
    ensures
        all_variables(tree.kids()) == all_variables(before).union(last.variables()),
        all_functions(tree.kids()) == all_functions(before).union(last.functions()),
        all_variables(seq![]) == Set::<Seq<char>>::empty(),
        all_functions(seq![]) == Set::<Seq<char>>::empty(),
        !(tree.node is Ident),
        tree.variables() == all_variables(tree.kids()),
        tree.functions() == match tree.node {
            Node::Call { func, .. } => all_functions(tree.kids()).insert(func),
            _ => all_functions(tree.kids()),
        },
{
    lemma_all_references(before, last);
    assert(tree.variables() =~= all_variables(tree.kids()));
    match tree.node {
        Node::Call { func, .. } => {
            assert(tree.functions() =~= all_functions(tree.kids()).insert(func));
        },
        _ => {
            assert(tree.functions() =~= all_functions(tree.kids()));
        },
    }
}

proof fn lemma_all_references(before: Seq<Ast>, last: Ast)
    ensures
        all_variables(before.push(last)) == all_variables(before).union(last.variables()),
        all_functions(before.push(last)) == all_functions(before).union(last.functions()),
        all_variables(seq![]) == Set::<Seq<char>>::empty(),
        all_functions(seq![]) == Set::<Seq<char>>::empty(),
{
    let all = before.push(last);
    let n = before.len() as int;
    assert(all[n] == last);
    assert forall|name: Seq<char>|
        all_variables(all).contains(name) == all_variables(before).union(
            last.variables(),
        ).contains(name) by {
        if all_variables(before).contains(name) {
            let i = choose|i: int|
                0 <= i < before.len() && (#[trigger] before[i]).variables().contains(name);
            assert(all[i] == before[i]);
        }
        if all_variables(all).contains(name) {
            let i = choose|i: int|
                0 <= i < all.len() && (#[trigger] all[i]).variables().contains(name);
            if i < n {
                assert(before[i] == all[i]);
            }
        }
    }
    assert forall|name: Seq<char>|
        all_functions(all).contains(name) == all_functions(before).union(
            last.functions(),
        ).contains(name) by {
        if all_functions(before).contains(name) {
            let i = choose|i: int|
                0 <= i < before.len() && (#[trigger] before[i]).functions().contains(name);
            assert(all[i] == before[i]);
        }
        if all_functions(all).contains(name) {
            let i = choose|i: int|
                0 <= i < all.len() && (#[trigger] all[i]).functions().contains(name);
            if i < n {
                assert(before[i] == all[i]);
            }
        }
    }
    assert(all_variables(all) =~= all_variables(before).union(last.variables()));
    assert(all_functions(all) =~= all_functions(before).union(last.functions()));
    assert(all_variables(seq![]) =~= Set::<Seq<char>>::empty());
    assert(all_functions(seq![]) =~= Set::<Seq<char>>::empty());
}

/// A list refers to what its elements refer to.
pub proof fn law_references_of_lists(
    empty: Ast,
    list: Ast,
    longer: Ast,
    elements: Seq<Ast>,
    element: Ast,
)
    requires
        empty.node == Node::List(seq![]),
        list.node == Node::List(elements),
        longer.node == Node::List(elements.push(element)),
    ensures
        empty.variables() == Set::<Seq<char>>::empty(),
        empty.functions() == Set::<Seq<char>>::empty(),
        longer.variables() == list.variables().union(element.variables()),
        longer.functions() == list.functions().union(element.functions()),
{
    lemma_references(longer, elements, element);
    assert(list.variables() =~= all_variables(elements));
    assert(list.functions() =~= all_functions(elements));
    assert(empty.variables() =~= all_variables(seq![]));
    assert(empty.functions() =~= all_functions(seq![]));
}

/// A map refers to what its keys and its values refer to.
pub proof fn law_references_of_maps(
    empty: Ast,
    tree: Ast,
    longer: Ast,
    entries: Seq<Entry>,
    id: u64,
    key: Ast,
    value: Ast,
)
    requires
        empty.node == Node::Dict(seq![]),
        tree.node == Node::Dict(entries),
        longer.node == Node::Dict(
            entries.push(Entry { id, entry: EntryNode::MapEntry { key, value } }),
        ),
    ensures
        empty.variables() == Set::<Seq<char>>::empty(),
        empty.functions() == Set::<Seq<char>>::empty(),
        longer.variables() == tree.variables().union(key.variables()).union(value.variables()),
        longer.functions() == tree.functions().union(key.functions()).union(value.functions()),
{
    let more = entries.push(Entry { id, entry: EntryNode::MapEntry { key, value } });
    let before = entry_kids(entries);
    assert(more.drop_last() =~= entries);
    assert(entry_kids(more) =~= before.push(key).push(value));
    lemma_references(longer, before.push(key), value);
    lemma_all_references(before, key);
    assert(tree.variables() =~= all_variables(before));
    assert(tree.functions() =~= all_functions(before));
    assert(entry_kids(seq![]) =~= seq![]);
    assert(empty.variables() =~= all_variables(seq![]));
    assert(empty.functions() =~= all_functions(seq![]));
}

/// A message refers to what the values of its fields refer to.
pub proof fn law_references_of_messages(
    empty: Ast,
    tree: Ast,
    longer: Ast,
    name: Seq<char>,
    entries: Seq<Entry>,
    id: u64,
    field: Seq<char>,
    value: Ast,
)
    requires
        empty.node == (Node::Struct { message_type: name, entries: seq![] }),
        tree.node == (Node::Struct { message_type: name, entries }),
        longer.node == (Node::Struct {
            message_type: name,
            entries: entries.push(Entry { id, entry: EntryNode::StructField { field, value } }),
        }),
    ensures
        empty.variables() == Set::<Seq<char>>::empty(),
        empty.functions() == Set::<Seq<char>>::empty(),
        longer.variables() == tree.variables().union(value.variables()),
        longer.functions() == tree.functions().union(value.functions()),
{
    let more = entries.push(Entry { id, entry: EntryNode::StructField { field, value } });
    let before = entry_kids(entries);
    assert(more.drop_last() =~= entries);
    assert(entry_kids(more) =~= before.push(value));
    lemma_references(longer, before, value);
    assert(tree.variables() =~= all_variables(before));
    assert(tree.functions() =~= all_functions(before));
    assert(entry_kids(seq![]) =~= seq![]);
    assert(empty.variables() =~= all_variables(seq![]));
    assert(empty.functions() =~= all_functions(seq![]));
}

/// A call calls its function, and refers to what its operands and its receiver
/// refer to.
pub proof fn law_references_of_calls(
    empty: Ast,
    call: Ast,
    longer: Ast,
    method: Ast,
    func: Seq<char>,
    args: Seq<Ast>,
    arg: Ast,
    target: Ast,
)
    requires
        empty.node == (Node::Call { func, target: None, args: seq![] }),
        call.node == (Node::Call { func, target: None, args }),
        longer.node == (Node::Call { func, target: None, args: args.push(arg) }),
        method.node == (Node::Call { func, target: Some(Box::new(target)), args }),
    ensures
        empty.functions() == set![func],
        empty.variables() == Set::<Seq<char>>::empty(),
        longer.functions() == call.functions().union(arg.functions()),
        longer.variables() == call.variables().union(arg.variables()),
        method.functions() == call.functions().union(target.functions()),
        method.variables() == call.variables().union(target.variables()),
{
    lemma_references(longer, args, arg);
    lemma_references(method, args, target);
    assert(call.variables() =~= all_variables(args));
    assert(call.functions() =~= all_functions(args).insert(func));
    assert(empty.variables() =~= all_variables(seq![]));
    assert(empty.functions() =~= set![func]);
    assert(longer.functions() =~= call.functions().union(arg.functions()));
    assert(method.functions() =~= call.functions().union(target.functions()));
}

/// A comprehension refers to what its range, start, condition, step and result
/// refer to.
pub proof fn law_references_of_comprehensions(
    tree: Ast,
    range: Ast,
    init: Ast,
    cond: Ast,
    step: Ast,
    result: Ast,
)
    requires
        tree.node matches Node::Comprehension {
            iter_range,
            accu_init,
            loop_cond,
            loop_step,
            result: end,
            ..
        } && *iter_range == range && *accu_init == init && *loop_cond == cond && *loop_step == step
            && *end == result,
    ensures
        tree.variables() == range.variables().union(init.variables()).union(cond.variables()).union(
            step.variables(),
        ).union(result.variables()),
        tree.functions() == range.functions().union(init.functions()).union(cond.functions()).union(
            step.functions(),
        ).union(result.functions()),
{
    let none = Seq::<Ast>::empty();
    let four = none.push(range).push(init).push(cond).push(step);
    assert(tree.kids() =~= four.push(result));
    lemma_references(tree, four, result);
    lemma_all_references(none.push(range).push(init).push(cond), step);
    lemma_all_references(none.push(range).push(init), cond);
    lemma_all_references(none.push(range), init);
    lemma_all_references(none, range);
    assert(all_variables(none.push(range)) =~= range.variables());
    assert(all_functions(none.push(range)) =~= range.functions());
}

} // verus!
