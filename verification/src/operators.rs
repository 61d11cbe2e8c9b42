//! The names under which operators stand in the expression tree.

use vstd::prelude::*;

verus! {

pub const CONDITIONAL: &'static str = "_?_:_";

pub const LOGICAL_AND: &'static str = "_&&_";

pub const LOGICAL_OR: &'static str = "_||_";

pub const LOGICAL_NOT: &'static str = "!_";

pub const EQUALS: &'static str = "_==_";

pub const NOT_EQUALS: &'static str = "_!=_";

pub const LESS: &'static str = "_<_";

pub const LESS_EQUALS: &'static str = "_<=_";

pub const GREATER: &'static str = "_>_";

pub const GREATER_EQUALS: &'static str = "_>=_";

pub const ADD: &'static str = "_+_";

pub const SUBTRACT: &'static str = "_-_";

pub const MULTIPLY: &'static str = "_*_";

pub const DIVIDE: &'static str = "_/_";

pub const MODULO: &'static str = "_%_";

pub const NEGATE: &'static str = "-_";

pub const INDEX: &'static str = "_[_]";

pub const IN: &'static str = "@in";

pub const NOT_STRICTLY_FALSE: &'static str = "@not_strictly_false";

} // verus!
