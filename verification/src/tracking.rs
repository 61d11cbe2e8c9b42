//! The cost tracker as the observer of an evaluation.

use vstd::prelude::*;
use crate::ast::{Ast, IdedExpr, Node};
use crate::cost::{lemma_pulled_len, root_ids, taken, CostTracker, Tally};
use crate::error::{ExecutionError, Fault};
use crate::eval::Event;
use crate::observer::{is_complete, Observer};
use crate::value::{Val, Value};

verus! {

impl Tally {
    /// The event takes the tally to `after`, at a price that the policy may charge.
    pub open spec fn moves_to(self, event: Event, after: Tally) -> bool {
        exists|price: u64|
            #![trigger self.may_price(event.0, event.1, price)]
            self.may_price(event.0, event.1, price) && after == self.observed(
                event.0,
                event.1,
                price,
            )
    }
}

/// A complete call can be observed, whatever is on the stack.
proof fn lemma_complete_can_be_observed(tally: Tally, tree: Ast, value: Val)
    requires
        is_complete(tree),
    ensures
        tally.can_observe(tree, value),
{
    if let Node::Call { func, target, args } = tree.node {
        match target {
            None => {
                lemma_pulled_len(tally.stack, root_ids(args));
            },
            Some(t) => {
                lemma_pulled_len(tally.stack, root_ids(args).push(t.id));
                let left = taken(tally.stack, root_ids(args).push(t.id)).1;
                lemma_pulled_len(left, root_ids(args));
            },
        }
    }
}

impl Observer for CostTracker {
    type State = Tally;

    open spec fn state(&self) -> Tally {
        self@
    }

    open spec fn accepts(before: Tally, event: Event, after: Tally) -> bool {
        before.moves_to(event, after) && !after.policy.exceeded(after.cost)
    }

    open spec fn refuses(before: Tally, event: Event, fault: Fault, after: Tally) -> bool {
        &&& before.moves_to(event, after)
        &&& after.policy.exceeded(after.cost)
        &&& fault == after.limit_fault()
    }

    fn note(&mut self, expr: &IdedExpr, value: &Value) -> (r: Result<(), ExecutionError>) {
        proof {
            lemma_complete_can_be_observed(self@, expr@, value@);
        }
        let ghost event = (expr@, value@);
        let r = self.observe(expr, value);
        assert(old(self)@.moves_to(event, self@));
        r
    }
}

} // verus!
