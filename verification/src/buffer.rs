//! The sink capability interface and the baseline in-memory sink.
//!
//! Every concrete buffer and every decorator implements [`Buffer`]. The
//! interface promises, for any sink: writes only ever append to the
//! element sequence, snapshots record the current element count, and
//! restoring a snapshot truncates back to the recorded count. What a
//! write appends exactly is pinned per implementation through
//! [`Buffer::write_post`].

use vstd::prelude::*;

use crate::element::FormatElement;
use crate::snapshot::BufferSnapshot;
use crate::snapshot::snapshot_cursor;
use crate::state::FormatState;

verus! {

/// A recoverable formatting failure. Any write can fail with it; the
/// failure propagates to the caller, who may roll back to a snapshot
/// taken before the attempt.
#[derive(Debug, Clone, Copy, PartialEq, Eq, Structural)]
pub struct FormatError;

/// Every sequence is a prefix of itself.
pub proof fn lemma_prefix_refl<T>(s: Seq<T>)
    ensures
        s.is_prefix_of(s),
{
    assert(s =~= s.subrange(0, s.len() as int));
}

/// Every state is an extension of itself.
pub proof fn lemma_extends_refl(s: FormatState)
    ensures
        s.extended_by(s),
{
    lemma_prefix_refl(s.interns());
    lemma_prefix_refl(s.best_fittings());
}

/// A prefix stays a prefix when the longer sequence grows at its end.
pub proof fn lemma_prefix_push<T>(a: Seq<T>, b: Seq<T>, e: T)
    requires
        a.is_prefix_of(b),
    ensures
        a.is_prefix_of(b.push(e)),
{
    assert(a =~= b.push(e).subrange(0, a.len() as int));
}

/// A prefix of a prefix is a prefix.
pub proof fn lemma_prefix_trans<T>(a: Seq<T>, b: Seq<T>, c: Seq<T>)
    requires
        a.is_prefix_of(b),
        b.is_prefix_of(c),
    ensures
        a.is_prefix_of(c),
{
    assert(a =~= c.subrange(0, a.len() as int));
}

/// State extension is transitive: growing the tables twice still only
/// grows them.
pub proof fn lemma_extends_trans(a: FormatState, b: FormatState, c: FormatState)
    requires
        a.extended_by(b),
        b.extended_by(c),
    ensures
        a.extended_by(c),
{
    lemma_prefix_trans(a.interns(), b.interns(), c.interns());
    lemma_prefix_trans(a.best_fittings(), b.best_fittings(), c.best_fittings());
}

/// A trait for writing or formatting into element-accepting buffers.
///
/// Decorators compose by wrapping one sink inside another; each
/// intercepts [`Buffer::write_element`] and delegates to the wrapped
/// sink. The run-wide [`FormatState`] is borrowed for the duration of a
/// write and never owned by a sink.
pub trait Buffer: Sized {
    /// The sequence of elements written into this buffer so far.
    spec fn elems(&self) -> Seq<FormatElement>;

    /// The sink's internal invariant, relative to the run-wide state.
    /// It must only loosen when the state grows.
    spec fn inv(&self, state: FormatState) -> bool;

    /// Whether a snapshot has the shape this sink produces and accepts.
    /// Writes preserve the shapes a sink accepts.
    spec fn snap_shape(&self, snapshot: BufferSnapshot) -> bool;

    /// What, beyond the element-count cursor, a snapshot taken of the
    /// current state records (a decorator's own flags).
    spec fn snap_saved(&self, snapshot: BufferSnapshot) -> bool;

    /// Exactly what one write does, pinned per implementation: how the
    /// element sequence, the run-wide state and the sink's own state
    /// change, and when the write succeeds.
    spec fn write_post(
        pre: Self,
        post: Self,
        pre_state: FormatState,
        post_state: FormatState,
        element: FormatElement,
        r: Result<(), FormatError>,
    ) -> bool;

    /// What restoring a snapshot does to the sink's own state, beyond
    /// truncating the element sequence.
    spec fn restore_post(pre: Self, post: Self, snapshot: BufferSnapshot) -> bool;

    /// The sink's invariant survives growth of the run-wide state: every
    /// implementation must prove its invariant only reads content the
    /// extension preserves.
    proof fn inv_extend(&self, pre: FormatState, post: FormatState)
        requires
            self.inv(pre),
            pre.extended_by(post),
        ensures
            self.inv(post),
    ;

    /// Writes an element into this buffer, returning whether the write
    /// succeeded. Already-written elements are never disturbed: the old
    /// sequence stays a prefix of the new one even on failure.
    fn write_element(&mut self, state: &mut FormatState, element: FormatElement) -> (r: Result<
        (),
        FormatError,
    >)
        requires
            old(self).inv(*old(state)),
            old(state).wf(),
            old(state).elem_wf(old(state).interns().len() as int, element),
        ensures
            final(self).inv(*final(state)),
            final(state).wf(),
            old(state).extended_by(*final(state)),
            old(self).elems().is_prefix_of(final(self).elems()),
            forall|s: BufferSnapshot|
                #[trigger] old(self).snap_shape(s) ==> final(self).snap_shape(s),
            Self::write_post(
                *old(self),
                *final(self),
                *old(state),
                *final(state),
                element,
                r,
            ),
    ;

    /// A read-only view of everything written into this buffer so far.
    fn elements(&self) -> (r: &Vec<FormatElement>)
        ensures
            r@ == self.elems(),
    ;

    /// Takes a snapshot of the buffer's state, excluding the run-wide
    /// formatting state.
    fn snapshot(&self) -> (s: BufferSnapshot)
        ensures
            self.snap_shape(s),
            snapshot_cursor(s) == self.elems().len(),
            self.snap_saved(s),
    ;

    /// Restores a snapshot previously taken of this buffer, truncating
    /// the element sequence back to the recorded count. Restoring a
    /// snapshot of another buffer, or out of order, is a programming
    /// error; its shape and cursor preconditions rule it out here.
    fn restore_snapshot(&mut self, snapshot: BufferSnapshot)
        requires
            old(self).snap_shape(snapshot),
            snapshot_cursor(snapshot) <= old(self).elems().len(),
        ensures
            final(self).elems() == old(self).elems().take(snapshot_cursor(snapshot)),
            forall|st: FormatState| #[trigger] old(self).inv(st) ==> final(self).inv(st),
            forall|s: BufferSnapshot|
                #[trigger] old(self).snap_shape(s) ==> final(self).snap_shape(s),
            Self::restore_post(*old(self), *final(self), snapshot),
    ;
}

/// The sink stepped from `pre` to `post` by forwarding exactly the given
/// elements, one [`Buffer::write_element`] call each, in order, every
/// call succeeding.
pub open spec fn wrote_seq<B: Buffer>(
    pre: B,
    pre_state: FormatState,
    post: B,
    post_state: FormatState,
    written: Seq<FormatElement>,
) -> bool
    decreases written.len(),
{
    if written.len() == 0 {
        post == pre && post_state == pre_state
    } else {
        exists|mid: B, mid_state: FormatState, r: Result<(), FormatError>|
            #[trigger] B::write_post(pre, mid, pre_state, mid_state, written[0], r) && r is Ok
                && wrote_seq(mid, mid_state, post, post_state, written.drop_first())
    }
}

/// A single successful write is a forwarding trace of one element.
pub proof fn lemma_wrote_seq_one<B: Buffer>(
    pre: B,
    pre_state: FormatState,
    post: B,
    post_state: FormatState,
    element: FormatElement,
    result: Result<(), FormatError>,
)
    requires
        B::write_post(pre, post, pre_state, post_state, element, result),
        result is Ok,
    ensures
        wrote_seq(pre, pre_state, post, post_state, seq![element]),
{
    assert(wrote_seq(pre, pre_state, pre, pre_state, Seq::<FormatElement>::empty()));
    lemma_wrote_seq_snoc(
        pre,
        pre_state,
        pre,
        pre_state,
        post,
        post_state,
        Seq::empty(),
        element,
        result,
    );
    assert(Seq::<FormatElement>::empty().push(element) =~= seq![element]);
}

/// Extends a successful forwarding trace by one more successful write.
pub proof fn lemma_wrote_seq_snoc<B: Buffer>(
    pre: B,
    pre_state: FormatState,
    mid: B,
    mid_state: FormatState,
    post: B,
    post_state: FormatState,
    written: Seq<FormatElement>,
    element: FormatElement,
    result: Result<(), FormatError>,
)
    requires
        wrote_seq(pre, pre_state, mid, mid_state, written),
        B::write_post(mid, post, mid_state, post_state, element, result),
        result is Ok,
    ensures
        wrote_seq(pre, pre_state, post, post_state, written.push(element)),
    decreases written.len(),
{
    if written.len() == 0 {
        assert(mid == pre && mid_state == pre_state);
        assert(written.push(element)[0] == element);
        assert(written.push(element).drop_first() =~= written);
        assert(B::write_post(pre, post, pre_state, post_state, element, result));
        assert(wrote_seq(post, post_state, post, post_state, written));
    } else {
        let (m1, s1, r1) = choose|m1: B, s1: FormatState, r1: Result<(), FormatError>|
            #[trigger] B::write_post(pre, m1, pre_state, s1, written[0], r1) && r1 is Ok
                && wrote_seq(m1, s1, mid, mid_state, written.drop_first());
        lemma_wrote_seq_snoc(m1, s1, mid, mid_state, post, post_state,
            written.drop_first(), element, result);
        assert(written.push(element)[0] == written[0]);
        assert(written.push(element).drop_first() =~= written.drop_first().push(element));
        assert(B::write_post(pre, m1, pre_state, s1, written.push(element)[0], r1));
    }
}

/// The sink stepped from `pre` to `post` by forwarding exactly the
/// given elements in order, every write succeeding, with the run-wide
/// state possibly growing between writes (as the canonicalizer's
/// subtree rewrites do).
pub open spec fn wrote_seq_interleaved<B: Buffer>(
    pre: B,
    pre_state: FormatState,
    post: B,
    post_state: FormatState,
    written: Seq<FormatElement>,
) -> bool
    decreases written.len(),
{
    if written.len() == 0 {
        post == pre && pre_state.extended_by(post_state)
    } else {
        exists|
            mid_state: FormatState,
            mid: B,
            mid_state2: FormatState,
            r: Result<(), FormatError>,
        |
            pre_state.extended_by(mid_state) && #[trigger] B::write_post(
                pre,
                mid,
                mid_state,
                mid_state2,
                written[0],
                r,
            ) && r is Ok && wrote_seq_interleaved(
                mid,
                mid_state2,
                post,
                post_state,
                written.drop_first(),
            )
    }
}

/// Extends an interleaved forwarding trace by state growth and one more
/// successful write.
pub proof fn lemma_wrote_seq_interleaved_snoc<B: Buffer>(
    pre: B,
    pre_state: FormatState,
    mid: B,
    mid_state: FormatState,
    mid_state2: FormatState,
    post: B,
    post_state: FormatState,
    written: Seq<FormatElement>,
    element: FormatElement,
    result: Result<(), FormatError>,
)
    requires
        wrote_seq_interleaved(pre, pre_state, mid, mid_state, written),
        mid_state.extended_by(mid_state2),
        B::write_post(mid, post, mid_state2, post_state, element, result),
        result is Ok,
    ensures
        wrote_seq_interleaved(pre, pre_state, post, post_state, written.push(element)),
    decreases written.len(),
{
    if written.len() == 0 {
        assert(mid == pre && pre_state.extended_by(mid_state));
        lemma_extends_trans(pre_state, mid_state, mid_state2);
        assert(written.push(element)[0] == element);
        assert(written.push(element).drop_first() =~= written);
        lemma_extends_refl(post_state);
        assert(wrote_seq_interleaved(post, post_state, post, post_state, written));
        assert(pre_state.extended_by(mid_state2) && B::write_post(
            pre,
            post,
            mid_state2,
            post_state,
            element,
            result,
        ));
    } else {
        let (s1, m1, s2, r1) = choose|
            s1: FormatState,
            m1: B,
            s2: FormatState,
            r1: Result<(), FormatError>,
        |
            pre_state.extended_by(s1) && #[trigger] B::write_post(
                pre,
                m1,
                s1,
                s2,
                written[0],
                r1,
            ) && r1 is Ok && wrote_seq_interleaved(m1, s2, mid, mid_state, written.drop_first());
        lemma_wrote_seq_interleaved_snoc(
            m1,
            s2,
            mid,
            mid_state,
            mid_state2,
            post,
            post_state,
            written.drop_first(),
            element,
            result,
        );
        assert(written.push(element)[0] == written[0]);
        assert(written.push(element).drop_first() =~= written.drop_first().push(element));
        assert(pre_state.extended_by(s1) && B::write_post(
            pre,
            m1,
            s1,
            s2,
            written.push(element)[0],
            r1,
        ));
    }
}

/// On the baseline sink, forwarding a sequence of elements appends
/// exactly that sequence and leaves the run-wide state alone.
pub proof fn lemma_wrote_seq_vec(
    pre: VecBuffer,
    pre_state: FormatState,
    post: VecBuffer,
    post_state: FormatState,
    written: Seq<FormatElement>,
)
    requires
        wrote_seq(pre, pre_state, post, post_state, written),
    ensures
        post.elems() =~= pre.elems() + written,
        post_state == pre_state,
    decreases written.len(),
{
    if written.len() == 0 {
        assert(post.elems() =~= pre.elems() + written);
    } else {
        let (mid, mid_state, r) = choose|mid: VecBuffer, mid_state: FormatState, r: Result<
            (),
            FormatError,
        >|
            #[trigger] <VecBuffer as Buffer>::write_post(
                pre,
                mid,
                pre_state,
                mid_state,
                written[0],
                r,
            ) && r is Ok && wrote_seq(mid, mid_state, post, post_state, written.drop_first());
        lemma_wrote_seq_vec(mid, mid_state, post, post_state, written.drop_first());
        assert(post.elems() =~= pre.elems() + written);
    }
}

/// Vector-backed [`Buffer`] implementation: the baseline in-memory sink.
/// Writes always succeed and append; restoring truncates.
#[derive(Debug)]
pub struct VecBuffer {
    elements: Vec<FormatElement>,
}

impl VecBuffer {
    /// Creates an empty buffer.
    pub fn new() -> (r: Self)
        ensures
            r.elems() == Seq::<FormatElement>::empty(),
    {
        Self::new_with_vec(Vec::new())
    }

    /// Creates a buffer over an existing element vector.
    pub fn new_with_vec(elements: Vec<FormatElement>) -> (r: Self)
        ensures
            r.elems() == elements@,
    {
        Self { elements }
    }

    /// Creates an empty buffer with the specified capacity.
    pub fn with_capacity(capacity: usize) -> (r: Self)
        ensures
            r.elems() == Seq::<FormatElement>::empty(),
    {
        Self { elements: Vec::with_capacity(capacity) }
    }

    /// Consumes the buffer and returns the written elements as a vector.
    pub fn into_vec(self) -> (r: Vec<FormatElement>)
        ensures
            r@ == self.elems(),
    {
        self.elements
    }

    /// Takes the elements without consuming the buffer, leaving it
    /// empty and usable.
    pub fn take_vec(&mut self) -> (r: Vec<FormatElement>)
        ensures
            r@ == old(self).elems(),
            final(self).elems() == Seq::<FormatElement>::empty(),
    {
        let mut out: Vec<FormatElement> = Vec::new();
        core::mem::swap(&mut out, &mut self.elements);
        out
    }
}

impl Buffer for VecBuffer {
    closed spec fn elems(&self) -> Seq<FormatElement> {
        self.elements@
    }

    open spec fn inv(&self, state: FormatState) -> bool {
        true
    }

    open spec fn snap_shape(&self, snapshot: BufferSnapshot) -> bool {
        snapshot is Position
    }

    open spec fn snap_saved(&self, snapshot: BufferSnapshot) -> bool {
        true
    }

    /// A write appends exactly the given element, touches nothing else,
    /// and always succeeds.
    open spec fn write_post(
        pre: Self,
        post: Self,
        pre_state: FormatState,
        post_state: FormatState,
        element: FormatElement,
        r: Result<(), FormatError>,
    ) -> bool {
        &&& r is Ok
        &&& post.elems() == pre.elems().push(element)
        &&& post_state == pre_state
    }

    open spec fn restore_post(pre: Self, post: Self, snapshot: BufferSnapshot) -> bool {
        true
    }

    proof fn inv_extend(&self, pre: FormatState, post: FormatState) {
    }

    fn write_element(&mut self, state: &mut FormatState, element: FormatElement) -> (r: Result<
        (),
        FormatError,
    >) {
        self.elements.push(element);
        proof {
            assert(old(self).elems().is_prefix_of(self.elems())) by {
                assert(old(self).elems() =~= self.elems().subrange(
                    0,
                    old(self).elems().len() as int,
                ));
            }
            assert(old(state).extended_by(*state)) by {
                assert(state.interns() =~= state.interns().subrange(
                    0,
                    state.interns().len() as int,
                ));
                assert(state.best_fittings() =~= state.best_fittings().subrange(
                    0,
                    state.best_fittings().len() as int,
                ));
            }
            assert(<Self as Buffer>::write_post(
                *old(self),
                *self,
                *old(state),
                *state,
                element,
                Ok(()),
            ));
        }
        Ok(())
    }

    fn elements(&self) -> (r: &Vec<FormatElement>) {
        &self.elements
    }

    fn snapshot(&self) -> (s: BufferSnapshot) {
        BufferSnapshot::position(self.elements.len())
    }

    fn restore_snapshot(&mut self, snapshot: BufferSnapshot) {
        match snapshot {
            BufferSnapshot::Position(position) => {
                self.elements.truncate(position);
            },
            BufferSnapshot::Any(_) => {
                proof {
                    assert(false);
                }
            },
        }
    }
}

} // verus!
