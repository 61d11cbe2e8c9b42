//! The variables that an expression can refer to.

use vstd::hash_map::StringHashMap;
use vstd::prelude::*;
use vstd::string::*;
use crate::value::{Val, Value};

verus! {

/// The model of a [`Context`]: the values of the declared variables.
pub type Env = Map<Seq<char>, Val>;

/// Binds variables to values.
pub struct Context {
    variables: StringHashMap<Value>,
}

impl View for Context {
    type V = Env;

    closed spec fn view(&self) -> Env {
        self.variables@.map_values(|v: Value| v@)
    }
}

impl Default for Context {
    fn default() -> (ctx: Self)
        ensures
            ctx@ == Map::<Seq<char>, Val>::empty(),
    {
        let ctx = Context { variables: StringHashMap::new() };
        assert(ctx@ =~= Map::<Seq<char>, Val>::empty());
        ctx
    }
}

impl Context {
    /// Binds `name` to `value`, in place of what it was bound to before.
    pub fn add_variable_from_value(&mut self, name: &str, value: Value)
        ensures
            final(self)@ == old(self)@.insert(name@, value@),
    {
        self.variables.insert(name.to_string(), value);
        assert(self@ =~= old(self)@.insert(name@, value@));
    }

    /// The value of a variable.
    pub fn get_variable(&self, name: &str) -> (value: Option<Value>)
        ensures
            match value {
                Some(v) => self@.contains_key(name@) && self@[name@] == v@,
                None => !self@.contains_key(name@),
            },
    {
        match self.variables.get(name) {
            Some(value) => Some(value.clone()),
            None => None,
        }
    }
}

} // verus!
