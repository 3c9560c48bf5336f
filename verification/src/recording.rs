//! The recording facility: a scoped capture of exactly the elements
//! written to a sink during a bounded interval, independent of sink
//! type. Writes pass straight through, so their effects are real;
//! stopping yields a copy of the slice written since the start.

use vstd::prelude::*;

use crate::buffer::Buffer;
use crate::buffer::FormatError;
use crate::element::FormatElement;
use crate::extensions::BufferExtensions;
use crate::snapshot::BufferSnapshot;
use crate::state::FormatState;

verus! {

/// What a recording yields: the elements written between the captured
/// start index and the sink's current end, or nothing if the sink was
/// rewound across the start.
pub open spec fn recorded_slice(start: int, elems: Seq<FormatElement>) -> Seq<FormatElement> {
    if start <= elems.len() {
        elems.skip(start)
    } else {
        Seq::empty()
    }
}

/// A recording in progress over some sink: it remembers how many
/// elements the sink held when the recording began.
#[derive(Debug, Clone, Copy)]
pub struct Recording {
    start: usize,
}

impl Recording {
    /// The element count captured when the recording began.
    pub closed spec fn start_spec(&self) -> int {
        self.start as int
    }

    /// Begins a recording at the sink's current element count.
    pub fn new<B: Buffer>(buffer: &B) -> (r: Recording)
        ensures
            r.start_spec() == buffer.elems().len(),
    {
        Recording { start: buffer.elements().len() }
    }

    /// Writes one element through the recorded sink.
    pub fn write_element<B: Buffer>(
        &self,
        buffer: &mut B,
        state: &mut FormatState,
        element: FormatElement,
    ) -> (r: Result<(), FormatError>)
        requires
            old(buffer).inv(*old(state)),
            old(state).wf(),
            old(state).elem_wf(old(state).interns().len() as int, element),
        ensures
            final(buffer).inv(*final(state)),
            final(state).wf(),
            old(state).extended_by(*final(state)),
            old(buffer).elems().is_prefix_of(final(buffer).elems()),
            B::write_post(
                *old(buffer),
                *final(buffer),
                *old(state),
                *final(state),
                element,
                r,
            ),
    {
        buffer.write_element(state, element)
    }

    /// Writes a sequence of composed elements through the recorded
    /// sink: on success each element went through one
    /// [`Buffer::write_element`], in order; the first failure is
    /// propagated, with exactly the preceding arguments written.
    pub fn write_fmt<B: Buffer>(
        &self,
        buffer: &mut B,
        state: &mut FormatState,
        arguments: Vec<FormatElement>,
    ) -> (r: Result<(), FormatError>)
        requires
            old(buffer).inv(*old(state)),
            old(state).wf(),
            old(state).seq_wf(old(state).interns().len() as int, arguments@),
        ensures
            final(buffer).inv(*final(state)),
            final(state).wf(),
            old(state).extended_by(*final(state)),
            old(buffer).elems().is_prefix_of(final(buffer).elems()),
            r is Ok ==> crate::buffer::wrote_seq(
                *old(buffer),
                *old(state),
                *final(buffer),
                *final(state),
                arguments@,
            ),
            r is Err ==> exists|k: int, mid: B, mid_state: FormatState|
                0 <= k < arguments@.len() && crate::buffer::wrote_seq(
                    *old(buffer),
                    *old(state),
                    mid,
                    mid_state,
                    arguments@.take(k),
                ) && #[trigger] B::write_post(
                    mid,
                    *final(buffer),
                    mid_state,
                    *final(state),
                    arguments@[k],
                    r,
                ),
    {
        buffer.write_fmt(state, arguments)
    }

    /// Stops the recording, yielding exactly the elements written since
    /// it began — or an empty capture if the sink has since been rewound
    /// to fewer elements than the captured start.
    pub fn stop<B: Buffer>(self, buffer: &B) -> (r: Recorded)
        ensures
            r@ == recorded_slice(self.start_spec(), buffer.elems()),
    {
        let elems = buffer.elements();
        let n = elems.len();
        let mut out: Vec<FormatElement> = Vec::new();
        if self.start <= n {
            let mut i: usize = self.start;
            while i < n
                invariant
                    self.start <= i <= n,
                    n == elems@.len(),
                    elems@ == buffer.elems(),
                    out@ =~= elems@.subrange(self.start as int, i as int),
                decreases n - i,
            {
                let e = elems[i];
                out.push(e);
                i += 1;
            }
            proof {
                assert(out@ =~= buffer.elems().skip(self.start as int));
            }
        }
        Recorded { elements: out }
    }
}

/// The elements captured by a stopped [`Recording`].
#[derive(Debug)]
pub struct Recorded {
    pub(crate) elements: Vec<FormatElement>,
}

impl View for Recorded {
    type V = Seq<FormatElement>;

    closed spec fn view(&self) -> Seq<FormatElement> {
        self.elements@
    }
}

impl Recorded {
    /// A read-only view of the captured elements.
    pub fn elements(&self) -> (r: &Vec<FormatElement>)
        ensures
            r@ == self@,
    {
        &self.elements
    }

    /// Consumes the capture and returns the elements as a vector.
    pub fn into_vec(self) -> (r: Vec<FormatElement>)
        ensures
            r@ == self@,
    {
        self.elements
    }
}

} // verus!
