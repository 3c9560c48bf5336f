//! The observation decorator: wraps an inner sink and invokes a
//! side-effecting observer per element before forwarding it unchanged.
//! No caching, no rewriting: purely an observation point.

use vstd::prelude::*;

use crate::buffer::Buffer;
use crate::buffer::FormatError;
use crate::element::FormatElement;
use crate::snapshot::BufferSnapshot;
use crate::state::FormatState;

verus! {

/// An observer of elements about to be written: logging, metrics,
/// counting. Implemented by users of the library; the observer may keep
/// arbitrary state of its own, but its trail of observations is part of
/// its specification, so that a decorator can promise the observer saw
/// exactly what was written.
pub trait Inspector: Sized {
    /// The elements this observer has been shown so far, in order.
    spec fn observed(&self) -> Seq<FormatElement>;

    /// Called with a read-only view of each element right before it is
    /// forwarded to the wrapped sink.
    fn observe(&mut self, element: &FormatElement)
        ensures
            final(self).observed() == old(self).observed().push(*element),
    ;
}

/// An observer that simply keeps every element it is shown: the
/// library's own [`Inspector`], usable for debugging and as the model
/// implementation of the observation trail.
pub struct CollectingInspector {
    seen: Vec<FormatElement>,
}

impl CollectingInspector {
    /// Creates an observer that has seen nothing yet.
    pub fn new() -> (r: Self)
        ensures
            r.observed() == Seq::<FormatElement>::empty(),
    {
        Self { seen: Vec::new() }
    }

    /// The elements observed so far, in order.
    pub fn seen(&self) -> (r: &Vec<FormatElement>)
        ensures
            r@ == self.observed(),
    {
        &self.seen
    }

    /// Consumes the observer and returns what it saw.
    pub fn into_vec(self) -> (r: Vec<FormatElement>)
        ensures
            r@ == self.observed(),
    {
        self.seen
    }
}

impl Inspector for CollectingInspector {
    closed spec fn observed(&self) -> Seq<FormatElement> {
        self.seen@
    }

    fn observe(&mut self, element: &FormatElement) {
        self.seen.push(*element);
    }
}

/// Buffer decorator that lets an [`Inspector`] see elements as they get
/// written to the wrapped sink.
pub struct Inspect<B, I> {
    inner: B,
    inspector: I,
}

impl<B: Buffer, I: Inspector> Inspect<B, I> {
    /// The wrapped sink.
    pub closed spec fn inner_buf(&self) -> B {
        self.inner
    }

    /// The observer.
    pub closed spec fn inspector_view(&self) -> I {
        self.inspector
    }

    /// Creates the decorator over `inner`, observing with `inspector`.
    pub fn new(inner: B, inspector: I) -> (r: Self)
        ensures
            r.inner_buf() == inner,
            r.inspector_view() == inspector,
    {
        Self { inner, inspector }
    }

    /// Consumes the decorator and hands back the wrapped sink and the
    /// observer.
    pub fn into_parts(self) -> (r: (B, I))
        ensures
            r.0 == self.inner_buf(),
            r.1 == self.inspector_view(),
    {
        (self.inner, self.inspector)
    }
}

impl<B: Buffer, I: Inspector> Buffer for Inspect<B, I> {
    open spec fn elems(&self) -> Seq<FormatElement> {
        self.inner_buf().elems()
    }

    open spec fn inv(&self, state: FormatState) -> bool {
        self.inner_buf().inv(state)
    }

    open spec fn snap_shape(&self, snapshot: BufferSnapshot) -> bool {
        self.inner_buf().snap_shape(snapshot)
    }

    open spec fn snap_saved(&self, snapshot: BufferSnapshot) -> bool {
        self.inner_buf().snap_saved(snapshot)
    }

    /// The element is forwarded unchanged to the wrapped sink, and the
    /// observer was shown exactly this one element.
    open spec fn write_post(
        pre: Self,
        post: Self,
        pre_state: FormatState,
        post_state: FormatState,
        element: FormatElement,
        r: Result<(), FormatError>,
    ) -> bool {
        &&& B::write_post(pre.inner_buf(), post.inner_buf(), pre_state, post_state, element, r)
        &&& post.inspector_view().observed() == pre.inspector_view().observed().push(element)
    }

    open spec fn restore_post(pre: Self, post: Self, snapshot: BufferSnapshot) -> bool {
        &&& B::restore_post(pre.inner_buf(), post.inner_buf(), snapshot)
        &&& post.inspector_view() == pre.inspector_view()
    }

    proof fn inv_extend(&self, pre: FormatState, post: FormatState) {
        self.inner_buf().inv_extend(pre, post);
    }

    fn write_element(&mut self, state: &mut FormatState, element: FormatElement) -> (r: Result<
        (),
        FormatError,
    >) {
        self.inspector.observe(&element);
        let result = self.inner.write_element(state, element);
        proof {
            assert(Self::write_post(*old(self), *self, *old(state), *state, element, result));
        }
        result
    }

    fn elements(&self) -> (r: &Vec<FormatElement>) {
        self.inner.elements()
    }

    fn snapshot(&self) -> (s: BufferSnapshot) {
        self.inner.snapshot()
    }

    fn restore_snapshot(&mut self, snapshot: BufferSnapshot) {
        self.inner.restore_snapshot(snapshot);
    }
}

} // verus!
