//! Where the elements go: a sink that takes them one at a time, and the record
//! of what it was handed.

use vstd::prelude::*;

use crate::element::{Element, ElementView};

verus! {

/// Takes the elements of a stream, one call for each, in the order of the
/// stream.
///
/// A sink says what it has been handed, so that what a parse owes it can be
/// stated of the sink itself. A sink that is to be verified gives `received`
/// a body of its own. The bodies given here are for sinks that are written
/// where nothing is verified; nothing follows for them.
pub trait ElementSink {
    /// The elements that the sink has been handed so far, first to last.
    open spec fn received(&self) -> Seq<ElementView> {
        Seq::empty()
    }

    /// Whether the sink is one that never asks for a parse to stop.
    open spec fn never_stops(&self) -> bool {
        false
    }

    /// Takes the next element. `false` asks for the parse to stop: no further
    /// element follows.
    fn accept(&mut self, element: Element) -> (r: bool)
        ensures
            final(self).received() == old(self).received().push(element@),
            old(self).never_stops() ==> r && final(self).never_stops(),
    ;
}

/// A sink that keeps every element it is handed, in the order of the calls,
/// and never asks for the parse to stop.
#[derive(Debug)]
pub struct Collector {
    pub elements: Vec<Element>,
}

impl Collector {
    /// A sink that holds nothing yet.
    pub fn new() -> (r: Collector)
        ensures
            r.elements@.len() == 0,
    {
        Collector { elements: Vec::new() }
    }
}

impl ElementSink for Collector {
    open spec fn received(&self) -> Seq<ElementView> {
        self.elements@.map_values(|element: Element| element@)
    }

    open spec fn never_stops(&self) -> bool {
        true
    }

    /// Keeps the element behind those it has, and asks for the next.
    fn accept(&mut self, element: Element) -> (r: bool)
        ensures
            r,
            final(self).elements@ == old(self).elements@.push(element),
    {
        let ghost before = self.received();
        let ghost handed = element@;
        self.elements.push(element);
        assert(self.received() =~= before.push(handed));
        true
    }
}

/// One call of a sink: the element it was handed and its answer.
pub struct Delivery {
    pub element: ElementView,
    pub accepted: bool,
}

/// A sink, with the history of its calls.
pub struct Outlet<S> {
    sink: S,
    history: Ghost<Seq<Delivery>>,
}

impl<S: ElementSink> Outlet<S> {
    /// The calls made so far, first to last.
    pub closed spec fn log(&self) -> Seq<Delivery> {
        self.history@
    }

    /// The sink, as it is now.
    pub closed spec fn inner(&self) -> S {
        self.sink
    }

    /// Wraps a sink that has not been called yet.
    pub fn new(sink: S) -> (r: Self)
        ensures
            r.log() == Seq::<Delivery>::empty(),
            r.inner() == sink,
    {
        Outlet { sink, history: Ghost(Seq::empty()) }
    }

    /// Hands `element` to the sink and notes the call.
    pub fn send(&mut self, element: Element) -> (accepted: bool)
        ensures
            final(self).log() == old(self).log().push(Delivery { element: element@, accepted }),
            final(self).inner().received() == old(self).inner().received().push(element@),
            old(self).inner().never_stops() ==> accepted && final(self).inner().never_stops(),
    {
        let ghost handed = element@;
        let accepted = self.sink.accept(element);
        proof {
            self.history@ = self.history@.push(Delivery { element: handed, accepted });
        }
        accepted
    }

    /// The sink.
    pub fn sink(&self) -> (r: &S)
        ensures
            *r == self.inner(),
    {
        &self.sink
    }

    /// Gives the sink back.
    pub fn into_sink(self) -> (r: S)
        ensures
            r == self.inner(),
    {
        self.sink
    }
}

} // verus!
