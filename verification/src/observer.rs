//! Watching an evaluation.

use vstd::prelude::*;
use crate::ast::{Ast, IdedExpr, Node};
use crate::error::{ExecutionError, Fault};
use crate::eval::Event;
use crate::operators;
use crate::pricing::arguments_read;
use crate::value::Value;

verus! {

/// A call has the operands that its evaluation looks at.
pub open spec fn is_complete(tree: Ast) -> bool {
    tree.node matches Node::Call { func, target, args } ==> {
        &&& func == operators::CONDITIONAL@ ==> args.len() >= 3
        &&& args.len() >= arguments_read(func)
    }
}

/// Sees every node of an expression once the node has its value, in the order
/// of evaluation, and can end the evaluation by an error.
pub trait Observer: Sized {
    /// What the observer goes by.
    type State;

    spec fn state(&self) -> Self::State;

    /// The observer, in the state `before`, lets the evaluation go on after the
    /// event, and is then in the state `after`.
    spec fn accepts(before: Self::State, event: Event, after: Self::State) -> bool;

    /// The observer, in the state `before`, ends the evaluation at the event,
    /// and is then in the state `after`.
    spec fn refuses(before: Self::State, event: Event, fault: Fault, after: Self::State) -> bool;

    fn note(&mut self, expr: &IdedExpr, value: &Value) -> (r: Result<(), ExecutionError>)
        requires
            is_complete(expr@),
        ensures
            r is Ok ==> Self::accepts(
                old(self).state(),
                (expr@, value@),
                final(self).state(),
            ),
            r matches Err(e) ==> Self::refuses(
                old(self).state(),
                (expr@, value@),
                e@,
                final(self).state(),
            ),
    ;
}

/// The observer lets all events pass.
pub open spec fn passes<O: Observer>(before: O::State, events: Seq<Event>, after: O::State) -> bool
    decreases events.len(),
{
    if events.len() == 0 {
        before == after
    } else {
        exists|between: O::State|
            #![trigger O::accepts(between, events.last(), after)]
            passes::<O>(before, events.drop_last(), between) && O::accepts(
                between,
                events.last(),
                after,
            )
    }
}

/// The observer lets some events pass and refuses the next.
pub open spec fn cut_off<O: Observer>(
    before: O::State,
    events: Seq<Event>,
    fault: Fault,
    after: O::State,
) -> bool {
    exists|n: int, between: O::State|
        #![trigger O::refuses(between, events[n], fault, after)]
        0 <= n < events.len() && passes::<O>(before, events.take(n), between) && O::refuses(
            between,
            events[n],
            fault,
            after,
        )
}

/// Events that pass one after the other pass together.
pub proof fn lemma_passes_on<O: Observer>(
    before: O::State,
    first: Seq<Event>,
    between: O::State,
    second: Seq<Event>,
    after: O::State,
)
    requires
        passes::<O>(before, first, between),
        passes::<O>(between, second, after),
    ensures
        passes::<O>(before, first + second, after),
    decreases second.len(),
{
    if second.len() == 0 {
        assert(first + second =~= first);
    } else {
        let mid = choose|mid: O::State|
            #![trigger O::accepts(mid, second.last(), after)]
            passes::<O>(between, second.drop_last(), mid) && O::accepts(mid, second.last(), after);
        lemma_passes_on::<O>(before, first, between, second.drop_last(), mid);
        assert((first + second).drop_last() =~= first + second.drop_last());
        assert((first + second).last() == second.last());
    }
}

/// A single event that is accepted passes.
pub proof fn lemma_passes_one<O: Observer>(before: O::State, event: Event, after: O::State)
    requires
        O::accepts(before, event, after),
    ensures
        passes::<O>(before, seq![event], after),
{
    let events = seq![event];
    assert(events.drop_last() =~= seq![]);
    assert(passes::<O>(before, events.drop_last(), before));
    assert(O::accepts(before, events.last(), after));
}

/// What is cut off stays cut off, whatever would have come after.
pub proof fn lemma_cut_off_before<O: Observer>(
    before: O::State,
    first: Seq<Event>,
    second: Seq<Event>,
    fault: Fault,
    after: O::State,
)
    requires
        cut_off::<O>(before, first, fault, after),
    ensures
        cut_off::<O>(before, first + second, fault, after),
{
    let (n, mid) = choose|n: int, mid: O::State|
        #![trigger O::refuses(mid, first[n], fault, after)]
        0 <= n < first.len() && passes::<O>(before, first.take(n), mid) && O::refuses(
            mid,
            first[n],
            fault,
            after,
        );
    assert((first + second).take(n) =~= first.take(n));
    assert((first + second)[n] == first[n]);
}

/// Events that pass can be followed by some that are cut off.
pub proof fn lemma_cut_off_after<O: Observer>(
    before: O::State,
    first: Seq<Event>,
    between: O::State,
    second: Seq<Event>,
    fault: Fault,
    after: O::State,
)
    requires
        passes::<O>(before, first, between),
        cut_off::<O>(between, second, fault, after),
    ensures
        cut_off::<O>(before, first + second, fault, after),
{
    let (n, mid) = choose|n: int, mid: O::State|
        #![trigger O::refuses(mid, second[n], fault, after)]
        0 <= n < second.len() && passes::<O>(between, second.take(n), mid) && O::refuses(
            mid,
            second[n],
            fault,
            after,
        );
    lemma_passes_on::<O>(before, first, between, second.take(n), mid);
    let m = first.len() + n;
    assert((first + second).take(m) =~= first + second.take(n));
    assert((first + second)[m] == second[n]);
}

/// A single event that is refused is cut off.
pub proof fn lemma_cut_off_one<O: Observer>(
    before: O::State,
    event: Event,
    fault: Fault,
    after: O::State,
)
    requires
        O::refuses(before, event, fault, after),
    ensures
        cut_off::<O>(before, seq![event], fault, after),
{
    let events = seq![event];
    assert(events.take(0) =~= seq![]);
    assert(passes::<O>(before, events.take(0), before));
    assert(O::refuses(before, events[0], fault, after));
}

/// Nobody watches.
pub struct Unobserved;

impl Observer for Unobserved {
    type State = ();

    open spec fn state(&self) -> () {
        ()
    }

    open spec fn accepts(before: (), event: Event, after: ()) -> bool {
        true
    }

    open spec fn refuses(before: (), event: Event, fault: Fault, after: ()) -> bool {
        false
    }

    fn note(&mut self, expr: &IdedExpr, value: &Value) -> (r: Result<(), ExecutionError>) {
        Ok(())
    }
}

/// Without an observer, no evaluation is cut off.
pub proof fn lemma_unobserved_is_not_cut_off(
    before: (),
    events: Seq<Event>,
    fault: Fault,
    after: (),
)
    ensures
        !cut_off::<Unobserved>(before, events, fault, after),
{
}

} // verus!
