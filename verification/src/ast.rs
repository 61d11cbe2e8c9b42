//! The expression tree and its mathematical model.

use vstd::prelude::*;

verus! {

/// An expression together with the identifier of its node.
#[derive(Debug, PartialEq)]
pub struct IdedExpr {
    pub id: u64,
    pub expr: Expr,
}

/// The root type of a parsed source text.
pub type Expression = IdedExpr;

/// The kinds of expression nodes.
#[derive(Debug, PartialEq)]
pub enum Expr {
    /// A node with no meaning of its own.
    Unspecified,
    /// A function or operator call.
    Call(CallExpr),
    /// A fold over the elements of a list or the keys of a map.
    Comprehension(ComprehensionExpr),
    /// A variable.
    Ident(String),
    /// A list construction.
    List(ListExpr),
    /// A constant.
    Literal(Literal),
    /// A map construction.
    Dict(MapExpr),
    /// A field selection, or a test for the presence of a field.
    Select(SelectExpr),
    /// A message construction.
    Struct(StructExpr),
}

/// A constant as it stands in the source text.
#[derive(Debug, PartialEq)]
pub enum Literal {
    Null,
    Bool(bool),
    Int(i64),
    UInt(u64),
    /// A floating-point constant, kept as it was spelled.
    Double(String),
    String(String),
    Bytes(Vec<u8>),
}

/// `func_name(args)`, or `target.func_name(args)` where there is a target.
#[derive(Debug, PartialEq)]
pub struct CallExpr {
    pub func_name: String,
    pub target: Option<Box<IdedExpr>>,
    pub args: Vec<IdedExpr>,
}

/// A fold: `accu_var` starts at `accu_init`; for each item of `iter_range`,
/// bound to `iter_var`, and as long as `loop_cond` holds, it becomes `loop_step`.
#[derive(Debug, PartialEq)]
pub struct ComprehensionExpr {
    pub iter_range: Box<IdedExpr>,
    pub iter_var: String,
    pub accu_var: String,
    pub accu_init: Box<IdedExpr>,
    pub loop_cond: Box<IdedExpr>,
    pub loop_step: Box<IdedExpr>,
    pub result: Box<IdedExpr>,
}

#[derive(Debug, PartialEq)]
pub struct ListExpr {
    pub elements: Vec<IdedExpr>,
}

#[derive(Debug, PartialEq)]
pub struct MapExpr {
    pub entries: Vec<IdedEntryExpr>,
}

/// `operand.field`, or `has(operand.field)` where `test` is set.
#[derive(Debug, PartialEq)]
pub struct SelectExpr {
    pub operand: Box<IdedExpr>,
    pub field: String,
    pub test: bool,
}

#[derive(Debug, PartialEq)]
pub struct StructExpr {
    pub message_type: String,
    pub entries: Vec<IdedEntryExpr>,
}

#[derive(Debug, PartialEq)]
pub struct IdedEntryExpr {
    pub id: u64,
    pub expr: EntryExpr,
}

#[derive(Debug, PartialEq)]
pub enum EntryExpr {
    StructField(StructFieldExpr),
    MapEntry(MapEntryExpr),
}

#[derive(Debug, PartialEq)]
pub struct StructFieldExpr {
    pub field: String,
    pub value: IdedExpr,
}

#[derive(Debug, PartialEq)]
pub struct MapEntryExpr {
    pub key: IdedExpr,
    pub value: IdedExpr,
}

/// The model of an [`IdedExpr`].
pub struct Ast {
    pub id: u64,
    pub node: Node,
}

/// The model of an [`Expr`].
pub enum Node {
    Unspecified,
    Call { func: Seq<char>, target: Option<Box<Ast>>, args: Seq<Ast> },
    Comprehension {
        iter_range: Box<Ast>,
        iter_var: Seq<char>,
        accu_var: Seq<char>,
        accu_init: Box<Ast>,
        loop_cond: Box<Ast>,
        loop_step: Box<Ast>,
        result: Box<Ast>,
    },
    Ident(Seq<char>),
    List(Seq<Ast>),
    Literal(Lit),
    Dict(Seq<Entry>),
    Select { operand: Box<Ast>, field: Seq<char>, test: bool },
    Struct { message_type: Seq<char>, entries: Seq<Entry> },
}

/// The model of a [`Literal`].
pub enum Lit {
    Null,
    Bool(bool),
    Int(i64),
    UInt(u64),
    Double(Seq<char>),
    Text(Seq<char>),
    Bytes(Seq<u8>),
}

/// The model of an [`IdedEntryExpr`].
pub struct Entry {
    pub id: u64,
    pub entry: EntryNode,
}

/// The model of an [`EntryExpr`].
pub enum EntryNode {
    StructField { field: Seq<char>, value: Ast },
    MapEntry { key: Ast, value: Ast },
}

impl View for Literal {
    type V = Lit;

    open spec fn view(&self) -> Lit {
        match *self {
            Literal::Null => Lit::Null,
            Literal::Bool(b) => Lit::Bool(b),
            Literal::Int(i) => Lit::Int(i),
            Literal::UInt(u) => Lit::UInt(u),
            Literal::Double(s) => Lit::Double(s@),
            Literal::String(s) => Lit::Text(s@),
            Literal::Bytes(b) => Lit::Bytes(b@),
        }
    }
}

impl IdedExpr {
    /// The tree that the expression stands for.
    pub open spec fn model(self) -> Ast
        decreases self,
    {
        Ast { id: self.id, node: self.expr.model() }
    }
}

impl Expr {
    /// The node that the expression stands for.
    pub open spec fn model(self) -> Node
        decreases self,
    {
        match self {
            Expr::Unspecified => Node::Unspecified,
            Expr::Call(c) => Node::Call {
                func: c.func_name@,
                target: match c.target {
                    Some(t) => Some(Box::new(t.model())),
                    None => None,
                },
                args: Seq::new(
                    c.args@.len(),
                    |i: int|
                        if 0 <= i < c.args@.len() {
                            c.args@[i].model()
                        } else {
                            arbitrary()
                        },
                ),
            },
            Expr::Comprehension(c) => Node::Comprehension {
                iter_range: Box::new(c.iter_range.model()),
                iter_var: c.iter_var@,
                accu_var: c.accu_var@,
                accu_init: Box::new(c.accu_init.model()),
                loop_cond: Box::new(c.loop_cond.model()),
                loop_step: Box::new(c.loop_step.model()),
                result: Box::new(c.result.model()),
            },
            Expr::Ident(name) => Node::Ident(name@),
            Expr::List(list) => Node::List(
                Seq::new(
                    list.elements@.len(),
                    |i: int|
                        if 0 <= i < list.elements@.len() {
                            list.elements@[i].model()
                        } else {
                            arbitrary()
                        },
                ),
            ),
            Expr::Literal(lit) => Node::Literal(lit@),
            Expr::Dict(map) => Node::Dict(
                Seq::new(
                    map.entries@.len(),
                    |i: int|
                        if 0 <= i < map.entries@.len() {
                            map.entries@[i].model()
                        } else {
                            arbitrary()
                        },
                ),
            ),
            Expr::Select(s) => Node::Select {
                operand: Box::new(s.operand.model()),
                field: s.field@,
                test: s.test,
            },
            Expr::Struct(s) => Node::Struct {
                message_type: s.message_type@,
                entries: Seq::new(
                    s.entries@.len(),
                    |i: int|
                        if 0 <= i < s.entries@.len() {
                            s.entries@[i].model()
                        } else {
                            arbitrary()
                        },
                ),
            },
        }
    }
}

impl IdedEntryExpr {
    /// The entry that the expression stands for.
    pub open spec fn model(self) -> Entry
        decreases self,
    {
        Entry {
            id: self.id,
            entry: match self.expr {
                EntryExpr::StructField(f) => EntryNode::StructField {
                    field: f.field@,
                    value: f.value.model(),
                },
                EntryExpr::MapEntry(e) => EntryNode::MapEntry {
                    key: e.key.model(),
                    value: e.value.model(),
                },
            },
        }
    }
}

impl View for IdedExpr {
    type V = Ast;

    open spec fn view(&self) -> Ast {
        self.model()
    }
}

impl View for IdedEntryExpr {
    type V = Entry;

    open spec fn view(&self) -> Entry {
        self.model()
    }
}

impl View for SelectExpr {
    type V = Node;

    open spec fn view(&self) -> Node {
        Expr::Select(*self).model()
    }
}

/// The trees of a sequence of expressions.
pub open spec fn models(exprs: Seq<IdedExpr>) -> Seq<Ast> {
    Seq::new(exprs.len(), |i: int| exprs[i]@)
}

/// The entries of a sequence of entry expressions.
pub open spec fn entry_models(entries: Seq<IdedEntryExpr>) -> Seq<Entry> {
    Seq::new(entries.len(), |i: int| entries[i]@)
}

impl Entry {
    /// The expressions of an entry, in the order of their evaluation.
    pub open spec fn kids(self) -> Seq<Ast> {
        match self.entry {
            EntryNode::StructField { field, value } => seq![value],
            EntryNode::MapEntry { key, value } => seq![key, value],
        }
    }
}

/// The expressions of a sequence of entries, in the order of their evaluation.
pub open spec fn entry_kids(entries: Seq<Entry>) -> Seq<Ast>
    decreases entries.len(),
{
    if entries.len() == 0 {
        seq![]
    } else {
        entry_kids(entries.drop_last()) + entries.last().kids()
    }
}

/// Every expression among those of a sequence of entries belongs to one entry.
pub proof fn lemma_entry_kids(entries: Seq<Entry>)
    ensures
        forall|k: int|
            0 <= k < entry_kids(entries).len() ==> decreases_to!(entries => #[trigger] entry_kids(
                entries,
            )[k]),
    decreases entries.len(),
{
    if entries.len() > 0 {
        let init = entries.drop_last();
        lemma_entry_kids(init);
        assert forall|k: int| 0 <= k < entry_kids(entries).len() implies decreases_to!(
            entries => #[trigger] entry_kids(entries)[k]
        ) by {
            if k < entry_kids(init).len() {
                assert(entry_kids(entries)[k] == entry_kids(init)[k]);
                assert(decreases_to!(init => entry_kids(init)[k]));
                assert(decreases_to!(entries => init));
            } else {
                let last = entries[entries.len() - 1];
                assert(decreases_to!(entries => last));
                assert(decreases_to!(last => last.entry));
                match last.entry {
                    EntryNode::StructField { field, value } => {
                        assert(decreases_to!(last.entry => last.entry->StructField_value));
                    },
                    EntryNode::MapEntry { key, value } => {
                        assert(decreases_to!(last.entry => last.entry->MapEntry_key));
                        assert(decreases_to!(last.entry => last.entry->MapEntry_value));
                    },
                }
            }
        }
    }
}

impl Ast {
    /// The direct subexpressions of a tree.
    pub open spec fn kids(self) -> Seq<Ast> {
        match self.node {
            Node::Unspecified => seq![],
            Node::Call { func, target: Some(t), args } => args.push(*t),
            Node::Call { func, target: None, args } => args,
            Node::Comprehension { iter_range, accu_init, loop_cond, loop_step, result, .. } => seq![
                *iter_range,
                *accu_init,
                *loop_cond,
                *loop_step,
                *result,
            ],
            Node::Ident(_) => seq![],
            Node::List(elements) => elements,
            Node::Literal(_) => seq![],
            Node::Dict(entries) => entry_kids(entries),
            Node::Select { operand, .. } => seq![*operand],
            Node::Struct { message_type, entries } => entry_kids(entries),
        }
    }

    /// A tree is larger than each of its direct subexpressions.
    pub proof fn lemma_kids_are_smaller(self)
        ensures
            forall|i: int|
                0 <= i < self.kids().len() ==> decreases_to!(self => #[trigger] self.kids()[i]),
    {
        match self.node {
            Node::Dict(entries) => {
                lemma_entry_kids(entries);
            },
            Node::Struct { message_type, entries } => {
                lemma_entry_kids(entries);
            },
            _ => {},
        }
    }

    /// The identifiers of the nodes below the root.
    pub open spec fn ids_below(self) -> Set<u64>
        decreases self, 0nat,
    {
        proof {
            self.lemma_kids_are_smaller();
        }
        Set::new(
            |x: u64|
                exists|i: int|
                    0 <= i < self.kids().len() && (#[trigger] self.kids()[i]).ids().contains(x),
        )
    }

    /// The identifiers of all nodes of the tree.
    pub open spec fn ids(self) -> Set<u64>
        decreases self, 1nat,
    {
        self.ids_below().insert(self.id)
    }

    /// No two nodes of the tree share an identifier.
    pub open spec fn distinct_ids(self) -> bool
        decreases self,
    {
        proof {
            self.lemma_kids_are_smaller();
        }
        &&& !self.ids_below().contains(self.id)
        &&& forall|i: int|
            0 <= i < self.kids().len() ==> (#[trigger] self.kids()[i]).distinct_ids()
        &&& forall|i: int, j: int|
            #![trigger self.kids()[i], self.kids()[j]]
            0 <= i < j < self.kids().len() ==> self.kids()[i].ids().disjoint(self.kids()[j].ids())
    }
}

} // verus!
