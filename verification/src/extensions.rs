//! Convenience operations available on every sink: attaching an
//! observer, starting a recording, and writing several elements at once.

use vstd::prelude::*;

use crate::buffer::Buffer;
use crate::buffer::FormatError;
use crate::buffer::lemma_extends_trans;
use crate::buffer::lemma_prefix_trans;
use crate::buffer::lemma_wrote_seq_snoc;
use crate::buffer::wrote_seq;
use crate::snapshot::BufferSnapshot;
use crate::element::FormatElement;
use crate::inspect::Inspect;
use crate::inspect::Inspector;
use crate::recording::Recording;
use crate::state::FormatState;

verus! {

/// Extension operations every [`Buffer`] gets for free.
pub trait BufferExtensions: Buffer {
    /// Wraps this sink so that the passed observer sees every element
    /// that gets written to the output.
    fn inspect<I: Inspector>(self, inspector: I) -> (r: Inspect<Self, I>)
        ensures
            r.inner_buf() == self,
            r.inspector_view() == inspector,
    ;

    /// Starts a recording that gives access to all elements written
    /// between the start and the stop of the recording.
    fn start_recording(&self) -> (r: Recording)
        ensures
            r.start_spec() == self.elems().len(),
    ;

    /// Writes a sequence of already-composed elements one by one, in
    /// order: on success every element went through
    /// [`Buffer::write_element`], in argument order; the first failure
    /// is propagated, with exactly the preceding arguments written.
    fn write_fmt(&mut self, state: &mut FormatState, arguments: Vec<FormatElement>) -> (r: Result<
        (),
        FormatError,
    >)
        requires
            old(self).inv(*old(state)),
            old(state).wf(),
            old(state).seq_wf(old(state).interns().len() as int, arguments@),
        ensures
            final(self).inv(*final(state)),
            final(state).wf(),
            old(state).extended_by(*final(state)),
            old(self).elems().is_prefix_of(final(self).elems()),
            forall|s: BufferSnapshot|
                #[trigger] old(self).snap_shape(s) ==> final(self).snap_shape(s),
            r is Ok ==> wrote_seq(
                *old(self),
                *old(state),
                *final(self),
                *final(state),
                arguments@,
            ),
            r is Err ==> exists|k: int, mid: Self, mid_state: FormatState|
                0 <= k < arguments@.len() && wrote_seq(
                    *old(self),
                    *old(state),
                    mid,
                    mid_state,
                    arguments@.take(k),
                ) && #[trigger] Self::write_post(
                    mid,
                    *final(self),
                    mid_state,
                    *final(state),
                    arguments@[k],
                    r,
                ),
    ;

    /// Writes a sequence of elements into this buffer: on success each
    /// element went through one [`Buffer::write_element`], in order; the
    /// first failure is propagated, with exactly the preceding elements
    /// written.
    fn write_elements(&mut self, state: &mut FormatState, elements: Vec<FormatElement>) -> (r:
        Result<(), FormatError>)
        requires
            old(self).inv(*old(state)),
            old(state).wf(),
            old(state).seq_wf(old(state).interns().len() as int, elements@),
        ensures
            final(self).inv(*final(state)),
            final(state).wf(),
            old(state).extended_by(*final(state)),
            old(self).elems().is_prefix_of(final(self).elems()),
            forall|s: BufferSnapshot|
                #[trigger] old(self).snap_shape(s) ==> final(self).snap_shape(s),
            r is Ok ==> wrote_seq(
                *old(self),
                *old(state),
                *final(self),
                *final(state),
                elements@,
            ),
            r is Err ==> exists|k: int, mid: Self, mid_state: FormatState|
                0 <= k < elements@.len() && wrote_seq(
                    *old(self),
                    *old(state),
                    mid,
                    mid_state,
                    elements@.take(k),
                ) && #[trigger] Self::write_post(
                    mid,
                    *final(self),
                    mid_state,
                    *final(state),
                    elements@[k],
                    r,
                ),
    ;
}

impl<T: Buffer> BufferExtensions for T {
    fn inspect<I: Inspector>(self, inspector: I) -> (r: Inspect<Self, I>) {
        Inspect::new(self, inspector)
    }

    fn start_recording(&self) -> (r: Recording) {
        Recording::new(self)
    }

    fn write_fmt(&mut self, state: &mut FormatState, arguments: Vec<FormatElement>) -> (r: Result<
        (),
        FormatError,
    >) {
            let n = arguments.len();
            let mut i: usize = 0;
            proof {
                assert(arguments@.take(0) =~= Seq::<FormatElement>::empty());
            }
            while i < n
                invariant
                    n == arguments@.len(),
                    0 <= i <= n,
                    self.inv(*state),
                    state.wf(),
                    old(state).extended_by(*state),
                    old(state).seq_wf(old(state).interns().len() as int, arguments@),
                    old(self).elems().is_prefix_of(self.elems()),
                    forall|s: BufferSnapshot|
                        #[trigger] old(self).snap_shape(s) ==> self.snap_shape(s),
                    wrote_seq(*old(self), *old(state), *self, *state, arguments@.take(i as int)),
                decreases n - i,
            {
                let element = arguments[i];
                proof {
                    crate::state::lemma_elem_wf_extend(
                        *old(state),
                        *state,
                        old(state).interns().len() as int,
                        state.interns().len() as int,
                        element,
                    );
                }
                let ghost pre_self = *self;
                let ghost pre_state = *state;
                let result = self.write_element(state, element);
                proof {
                    lemma_extends_trans(*old(state), pre_state, *state);
                    lemma_prefix_trans(old(self).elems(), pre_self.elems(), self.elems());
                }
                if result.is_err() {
                    proof {
                        assert(exists|k: int, mid: Self, mid_state: FormatState|
                            0 <= k < arguments@.len() && wrote_seq(
                                *old(self),
                                *old(state),
                                mid,
                                mid_state,
                                arguments@.take(k),
                            ) && #[trigger] Self::write_post(
                                mid,
                                *self,
                                mid_state,
                                *state,
                                arguments@[k],
                                result,
                            )) by {
                            assert(wrote_seq(
                                *old(self),
                                *old(state),
                                pre_self,
                                pre_state,
                                arguments@.take(i as int),
                            ));
                            assert(Self::write_post(
                                pre_self,
                                *self,
                                pre_state,
                                *state,
                                arguments@[i as int],
                                result,
                            ));
                        }
                    }
                    return result;
                }
                proof {
                    lemma_wrote_seq_snoc(
                        *old(self),
                        *old(state),
                        pre_self,
                        pre_state,
                        *self,
                        *state,
                        arguments@.take(i as int),
                        element,
                        result,
                    );
                    assert(arguments@.take(i + 1) =~= arguments@.take(i as int).push(element));
                }
                i += 1;
            }
            proof {
                assert(arguments@.take(n as int) =~= arguments@);
            }
            Ok(())
        }

    fn write_elements(&mut self, state: &mut FormatState, elements: Vec<FormatElement>) -> (r:
        Result<(), FormatError>) {
        self.write_fmt(state, elements)
    }
}

} // verus!
