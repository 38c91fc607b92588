//! What an input holds, record by record, and what a parse owes the sink for
//! it.

use vstd::prelude::*;

use crate::element::{Element, ElementView};
use crate::error::ParseError;
use crate::sink::{Delivery, ElementSink, Outlet};

verus! {

/// What an input holds: the elements up to its end or to the first record
/// that is in error, and that error.
pub struct Outcome {
    pub elements: Seq<ElementView>,
    pub error: Option<ParseError>,
}

/// What a record adds to a stream.
pub enum Step {
    /// Nothing: the record is none of the stream's.
    Skip,
    /// One element.
    Emit(ElementView),
    /// An error, which ends the stream.
    Fail(ParseError),
}

impl Outcome {
    /// The outcome of an input without records.
    pub open spec fn empty() -> Outcome {
        Outcome { elements: Seq::empty(), error: None }
    }

    /// The outcome of an input that cannot be read at all.
    pub open spec fn failed(error: ParseError) -> Outcome {
        Outcome { elements: Seq::empty(), error: Some(error) }
    }

    /// The outcome with one more record. After an error nothing is added.
    pub open spec fn plus(self, step: Step) -> Outcome {
        if self.error is Some {
            self
        } else {
            match step {
                Step::Skip => self,
                Step::Emit(element) => Outcome { elements: self.elements.push(element), error: None },
                Step::Fail(error) => Outcome { elements: self.elements, error: Some(error) },
            }
        }
    }

    /// The outcome with the records `steps` more, in their order.
    pub open spec fn plus_all(self, steps: Seq<Step>) -> Outcome
        decreases steps.len(),
    {
        if steps.len() == 0 {
            self
        } else {
            self.plus_all(steps.drop_last()).plus(steps.last())
        }
    }

    /// How a parse of this input ends if the sink takes every element.
    pub open spec fn result(self) -> Result<(), ParseError> {
        match self.error {
            Some(error) => Err(error),
            None => Ok(()),
        }
    }

    /// Whether `later` is this outcome with more records: it starts with the
    /// same elements, and is the same if this one ends in an error.
    pub open spec fn grows_to(self, later: Outcome) -> bool {
        &&& self.elements.len() <= later.elements.len()
        &&& forall|i: int| 0 <= i < self.elements.len() ==> later.elements[i] == self.elements[i]
        &&& self.error is Some ==> later == self
    }
}

/// Growing goes on: what has grown out of an outcome and grows again has
/// grown out of it.
pub proof fn lemma_grows_on(a: Outcome, b: Outcome, c: Outcome)
    requires
        a.grows_to(b),
        b.grows_to(c),
    ensures
        a.grows_to(c),
{
}

/// More records make an outcome grow.
pub proof fn lemma_plus_all_grows(start: Outcome, steps: Seq<Step>)
    ensures
        start.grows_to(start.plus_all(steps)),
    decreases steps.len(),
{
    if steps.len() > 0 {
        lemma_plus_all_grows(start, steps.drop_last());
    }
}

/// The outcome after some of the records grows to the outcome after all.
pub proof fn lemma_part_grows(start: Outcome, steps: Seq<Step>, done: int)
    requires
        0 <= done <= steps.len(),
    ensures
        start.plus_all(steps.take(done)).grows_to(start.plus_all(steps)),
    decreases steps.len() - done,
{
    if done == steps.len() {
        assert(steps.take(done) =~= steps);
    } else {
        lemma_part_grows(start, steps.drop_last(), done);
        assert(steps.drop_last().take(done) =~= steps.take(done));
    }
}

/// The outcome after one record more is the outcome so far with that record.
pub proof fn lemma_next_step(start: Outcome, steps: Seq<Step>, done: int)
    requires
        0 <= done < steps.len(),
    ensures
        start.plus_all(steps.take(done + 1)) == start.plus_all(steps.take(done)).plus(steps[done]),
{
    assert(steps.take(done + 1).drop_last() =~= steps.take(done));
}

/// What a parse does with an input whose outcome is `outcome`, on a sink that
/// had the calls `before` behind it and has `after` behind it now, when it
/// returns `result`.
///
/// The parse hands the elements over in order, one call each. It stops at the
/// first refusal and returns `SinkAborted`. If the sink takes them all, the
/// parse returns the error of the input, or `Ok` if it has none.
pub open spec fn streamed(
    outcome: Outcome,
    before: Seq<Delivery>,
    after: Seq<Delivery>,
    result: Result<(), ParseError>,
) -> bool {
    let calls = after.skip(before.len() as int);
    &&& before.len() <= after.len()
    &&& after.take(before.len() as int) == before
    &&& calls.len() <= outcome.elements.len()
    &&& forall|i: int| 0 <= i < calls.len() ==> (#[trigger] calls[i]).element == outcome.elements[i]
    &&& forall|i: int| 0 <= i < calls.len() - 1 ==> (#[trigger] calls[i]).accepted
    &&& if calls.len() > 0 && !calls.last().accepted {
        result == Err::<(), ParseError>(ParseError::SinkAborted)
    } else {
        calls.len() == outcome.elements.len() && result == outcome.result()
    }
}

/// The elements that were handed over in the calls after `before`, where
/// `after` are all the calls.
pub open spec fn delivered(before: Seq<Delivery>, after: Seq<Delivery>) -> Seq<ElementView> {
    after.skip(before.len() as int).map_values(|call: Delivery| call.element)
}

/// Whether the sink of `after` is the sink of `before` after the calls that
/// were noted since: it has received what was handed over in them, behind
/// what it had; and if it is one that never stops, it refused none of them
/// and is still one.
pub open spec fn sink_follows<S: ElementSink>(before: Outlet<S>, after: Outlet<S>) -> bool {
    &&& after.inner().received() == before.inner().received() + delivered(
        before.log(),
        after.log(),
    )
    &&& before.inner().never_stops() ==> after.inner().never_stops() && forall|i: int|
        before.log().len() <= i < after.log().len() ==> (#[trigger] after.log()[i]).accepted
}

/// What a parse does with an input whose outcome is `outcome`, on the sink of
/// `before`, when it returns `result` and leaves the sink as in `after`: the
/// calls are as `streamed` says, and the sink has taken them.
pub open spec fn parsed<S: ElementSink>(
    outcome: Outcome,
    before: Outlet<S>,
    after: Outlet<S>,
    result: Result<(), ParseError>,
) -> bool {
    streamed(outcome, before.log(), after.log(), result) && sink_follows(before, after)
}

/// A sink that has had no call since follows itself.
pub proof fn lemma_sink_follows_itself<S: ElementSink>(out: Outlet<S>)
    ensures
        sink_follows(out, out),
{
    assert(delivered(out.log(), out.log()) =~= Seq::<ElementView>::empty());
    assert(out.inner().received() + Seq::<ElementView>::empty() =~= out.inner().received());
}

/// Whether a sink that had the calls `before` behind it has by now taken the
/// elements of `sofar`, one call each, and refused none.
pub open spec fn kept_up(sofar: Outcome, before: Seq<Delivery>, now: Seq<Delivery>) -> bool {
    &&& sofar.error is None
    &&& now.len() == before.len() + sofar.elements.len()
    &&& now.take(before.len() as int) == before
    &&& forall|i: int|
        0 <= i < sofar.elements.len() ==> (#[trigger] now[before.len() + i]).element
            == sofar.elements[i] && now[before.len() + i].accepted
}

/// A parse that has kept up with all the input has streamed it.
pub proof fn lemma_streamed_all(
    sofar: Outcome,
    whole: Outcome,
    before: Seq<Delivery>,
    now: Seq<Delivery>,
)
    requires
        kept_up(sofar, before, now),
        sofar.grows_to(whole),
        whole.elements.len() == sofar.elements.len(),
    ensures
        streamed(whole, before, now, whole.result()),
{
    let calls = now.skip(before.len() as int);
    assert forall|i: int| 0 <= i < calls.len() implies (#[trigger] calls[i]).element
        == whole.elements[i] && calls[i].accepted by {
        assert(calls[i] == now[before.len() + i]);
    }
}

/// What the result of reading one record adds to the stream.
pub open spec fn step_of(result: Result<Element, ParseError>) -> Step {
    match result {
        Ok(element) => Step::Emit(element@),
        Err(error) => Step::Fail(error),
    }
}

/// What the result of reading one place of the input adds to the stream,
/// where `Ok(None)` says that no record stands there.
pub open spec fn read_step(result: Result<Option<Element>, ParseError>) -> Step {
    match result {
        Ok(Some(element)) => Step::Emit(element@),
        Ok(None) => Step::Skip,
        Err(error) => Step::Fail(error),
    }
}

/// The outcome with two runs of records is the outcome with the first run,
/// with the second.
pub proof fn lemma_plus_all_joined(start: Outcome, first: Seq<Step>, second: Seq<Step>)
    ensures
        start.plus_all(first + second) == start.plus_all(first).plus_all(second),
    decreases second.len(),
{
    if second.len() == 0 {
        assert(first + second =~= first);
    } else {
        lemma_plus_all_joined(start, first, second.drop_last());
        assert((first + second).drop_last() =~= first + second.drop_last());
    }
}

/// The outcome with a run of one record is the outcome with that record.
pub proof fn lemma_plus_one(start: Outcome, step: Step)
    ensures
        start.plus_all(seq![step]) == start.plus(step),
{
    assert(seq![step].drop_last() =~= Seq::<Step>::empty());
    assert(start.plus_all(Seq::<Step>::empty()) == start);
}

/// The items of `runs`, run after run.
pub open spec fn chain<T>(runs: Seq<Seq<T>>) -> Seq<T>
    decreases runs.len(),
{
    if runs.len() == 0 {
        Seq::empty()
    } else {
        chain(runs.drop_last()) + runs.last()
    }
}

/// The chain of one run more is the chain so far, and that run.
pub proof fn lemma_chain_next<T>(runs: Seq<Seq<T>>, done: int)
    requires
        0 <= done < runs.len(),
    ensures
        chain(runs.take(done + 1)) == chain(runs.take(done)) + runs[done],
{
    assert(runs.take(done + 1).drop_last() =~= runs.take(done));
}

/// A chain is the runs before one of its runs, that run, and the runs after.
pub proof fn lemma_chain_split<T>(runs: Seq<Seq<T>>, at: int)
    requires
        0 <= at < runs.len(),
    ensures
        chain(runs) == chain(runs.take(at)) + runs[at] + chain(runs.skip(at + 1)),
    decreases runs.len(),
{
    let front = runs.drop_last();
    if at == runs.len() - 1 {
        assert(runs.take(at) =~= front);
        assert(runs.skip(at + 1) =~= Seq::<Seq<T>>::empty());
        assert(chain(runs) =~= chain(runs.take(at)) + runs[at] + chain(runs.skip(at + 1)));
    } else {
        lemma_chain_split(front, at);
        assert(front.take(at) =~= runs.take(at));
        assert(runs.skip(at + 1).drop_last() =~= front.skip(at + 1));
        assert(chain(runs) =~= chain(runs.take(at)) + runs[at] + chain(runs.skip(at + 1)));
    }
}

/// The outcome after some of the runs grows to the outcome after all.
pub proof fn lemma_chain_part_grows(start: Outcome, runs: Seq<Seq<Step>>, done: int)
    requires
        0 <= done <= runs.len(),
    ensures
        start.plus_all(chain(runs.take(done))).grows_to(start.plus_all(chain(runs))),
    decreases runs.len() - done,
{
    if done == runs.len() {
        assert(runs.take(done) =~= runs);
    } else {
        let front = runs.drop_last();
        lemma_chain_part_grows(start, front, done);
        assert(front.take(done) =~= runs.take(done));
        lemma_plus_all_joined(start, chain(front), runs.last());
        lemma_plus_all_grows(start.plus_all(chain(front)), runs.last());
    }
}

/// Goes on with what reading one place of the input gave: hands an element to
/// the sink, passes over a place without a record, ends the parse on an
/// error. `earlier` is the outcome of the records before it, `whole` that of
/// the input, `start` the sink as the parse found it.
pub(crate) fn hand_on<S: ElementSink>(
    out: &mut Outlet<S>,
    read: Result<Option<Element>, ParseError>,
    Ghost(earlier): Ghost<Outcome>,
    Ghost(whole): Ghost<Outcome>,
    Ghost(start): Ghost<Outlet<S>>,
) -> (r: Result<(), ParseError>)
    requires
        kept_up(earlier, start.log(), old(out).log()),
        sink_follows(start, *old(out)),
        earlier.plus(read_step(read)).grows_to(whole),
    ensures
        sink_follows(start, *final(out)),
        match r {
            Ok(()) => kept_up(earlier.plus(read_step(read)), start.log(), final(out).log()),
            Err(_) => streamed(whole, start.log(), final(out).log(), r),
        },
{
    match read {
        Ok(Some(element)) => deliver(out, element, Ghost(earlier), Ghost(whole), Ghost(start)),
        Ok(None) => Ok(()),
        Err(error) => {
            proof {
                lemma_streamed_all(earlier, whole, start.log(), out.log());
            }
            Err(error)
        },
    }
}

/// Hands one element to the sink. `earlier` is the outcome of the records
/// before it.
fn deliver<S: ElementSink>(
    out: &mut Outlet<S>,
    element: Element,
    Ghost(earlier): Ghost<Outcome>,
    Ghost(whole): Ghost<Outcome>,
    Ghost(start): Ghost<Outlet<S>>,
) -> (r: Result<(), ParseError>)
    requires
        kept_up(earlier, start.log(), old(out).log()),
        sink_follows(start, *old(out)),
        earlier.plus(Step::Emit(element@)).grows_to(whole),
    ensures
        sink_follows(start, *final(out)),
        match r {
            Ok(()) => kept_up(earlier.plus(Step::Emit(element@)), start.log(), final(out).log()),
            Err(error) => error == ParseError::SinkAborted && streamed(
                whole,
                start.log(),
                final(out).log(),
                r,
            ),
        },
{
    let ghost before = start.log();
    let ghost handed = element@;
    let ghost log = out.log();
    let accepted = out.send(element);
    let ghost now = out.log();
    proof {
        assert(now.take(before.len() as int) =~= log.take(before.len() as int));
        assert(delivered(before, now) =~= delivered(before, log).push(handed));
        assert(start.inner().received() + delivered(before, log).push(handed) =~= (
            start.inner().received() + delivered(before, log)).push(handed));
        assert forall|i: int| before.len() <= i < now.len() && start.inner().never_stops() implies (
        #[trigger] now[i]).accepted by {
            if i < log.len() {
                assert(log[i].accepted);
            }
        }
        let next = earlier.plus(Step::Emit(handed));
        assert forall|i: int| 0 <= i < next.elements.len() implies (#[trigger] now[before.len()
            + i]).element == next.elements[i] by {
            if i < earlier.elements.len() {
                assert(now[before.len() + i] == log[before.len() + i]);
            }
        }
        assert forall|i: int| 0 <= i < earlier.elements.len() implies (#[trigger] now[before.len()
            + i]).accepted by {
            assert(now[before.len() + i] == log[before.len() + i]);
        }
        if !accepted {
            let calls = now.skip(before.len() as int);
            assert forall|i: int| 0 <= i < calls.len() implies (#[trigger] calls[i]).element
                == whole.elements[i] by {
                assert(calls[i] == now[before.len() + i]);
            }
            assert forall|i: int| 0 <= i < calls.len() - 1 implies (#[trigger] calls[i]).accepted by {
                assert(calls[i] == now[before.len() + i]);
            }
            assert(calls.last() == now[(before.len() + earlier.elements.len()) as int]);
        }
    }
    if accepted {
        Ok(())
    } else {
        Err(ParseError::SinkAborted)
    }
}

} // verus!
