//! The deferred-prefix decorator: wraps another sink and emits a fixed
//! preamble lazily, exactly once, right before the first real element.
//! If nothing is ever written, the preamble is never emitted — "only show
//! a heading if there will be something under it".

use vstd::prelude::*;

use crate::buffer::Buffer;
use crate::buffer::FormatError;
use crate::buffer::lemma_extends_trans;
use crate::buffer::lemma_prefix_trans;
use crate::buffer::lemma_wrote_seq_snoc;
use crate::buffer::wrote_seq;
use crate::element::FormatElement;
use crate::snapshot::BufferSnapshot;
use crate::snapshot::PreambleBufferSnapshot;
use crate::snapshot::snapshot_cursor;
use crate::state::FormatState;
use crate::state::lemma_elem_wf_extend;
use crate::state::lemma_seq_wf_extend;

verus! {

/// Wraps an existing buffer and forwards a preamble, through the
/// standard write path of the wrapped sink, when the first element is
/// written.
pub struct PreambleBuffer<B> {
    /// The wrapped buffer.
    inner: B,
    /// The preamble to forward once the first content gets written.
    preamble: Vec<FormatElement>,
    /// Whether nothing (preamble included) has been written yet.
    empty: bool,
}

impl<B: Buffer> PreambleBuffer<B> {
    /// The wrapped sink.
    pub closed spec fn inner_buf(&self) -> B {
        self.inner
    }

    /// The preamble elements this decorator will forward before the
    /// first real element.
    pub closed spec fn preamble_view(&self) -> Seq<FormatElement> {
        self.preamble@
    }

    /// Whether the preamble is still pending, that is, nothing has been
    /// written through this decorator yet.
    pub closed spec fn pending(&self) -> bool {
        self.empty
    }

    /// Creates the decorator over `inner`; the preamble is pending until
    /// the first write.
    pub fn new(inner: B, preamble: Vec<FormatElement>) -> (r: Self)
        ensures
            r.inner_buf() == inner,
            r.preamble_view() == preamble@,
            r.pending(),
            r.elems() == inner.elems(),
    {
        Self { inner, preamble, empty: true }
    }

    /// Returns `true` if the preamble has been written, `false`
    /// otherwise.
    pub fn did_write_preamble(&self) -> (r: bool)
        ensures
            r == !self.pending(),
    {
        !self.empty
    }

    /// Consumes the decorator and hands the wrapped sink back.
    pub fn into_inner(self) -> (r: B)
        ensures
            r == self.inner_buf(),
    {
        self.inner
    }
}

impl<B: Buffer> Buffer for PreambleBuffer<B> {
    open spec fn elems(&self) -> Seq<FormatElement> {
        self.inner_buf().elems()
    }

    open spec fn inv(&self, state: FormatState) -> bool {
        &&& self.inner_buf().inv(state)
        &&& state.seq_wf(state.interns().len() as int, self.preamble_view())
    }

    open spec fn snap_shape(&self, snapshot: BufferSnapshot) -> bool {
        snapshot matches BufferSnapshot::Any(payload) && self.inner_buf().snap_shape(
            payload.inner,
        )
    }

    open spec fn snap_saved(&self, snapshot: BufferSnapshot) -> bool {
        snapshot matches BufferSnapshot::Any(payload) && payload.empty == self.pending()
            && self.inner_buf().snap_saved(payload.inner)
    }

    /// On the first successful write the preamble is forwarded to the
    /// wrapped sink, in order, immediately before the element itself;
    /// afterwards writes forward directly. The pending flag flips only
    /// once the whole preamble has gone through: a cleared flag demands
    /// a successful forwarding trace of the full preamble, so a sink
    /// that cannot complete the preamble forces the write to fail with
    /// the flag still pending, the failure pinned to a preamble write
    /// and the element itself never forwarded.
    open spec fn write_post(
        pre: Self,
        post: Self,
        pre_state: FormatState,
        post_state: FormatState,
        element: FormatElement,
        r: Result<(), FormatError>,
    ) -> bool {
        &&& post.preamble_view() == pre.preamble_view()
        &&& if pre.pending() {
            &&& r is Ok ==> !post.pending() && wrote_seq(
                pre.inner_buf(),
                pre_state,
                post.inner_buf(),
                post_state,
                pre.preamble_view().push(element),
            )
            &&& (r is Err && post.pending()) ==> exists|mid: B, mid_state: FormatState, k: int|
                0 <= k < pre.preamble_view().len() && wrote_seq(
                    pre.inner_buf(),
                    pre_state,
                    mid,
                    mid_state,
                    pre.preamble_view().take(k),
                ) && #[trigger] B::write_post(
                    mid,
                    post.inner_buf(),
                    mid_state,
                    post_state,
                    pre.preamble_view()[k],
                    r,
                )
            &&& (r is Err && !post.pending()) ==> exists|mid: B, mid_state: FormatState|
                wrote_seq(pre.inner_buf(), pre_state, mid, mid_state, pre.preamble_view())
                    && #[trigger] B::write_post(
                    mid,
                    post.inner_buf(),
                    mid_state,
                    post_state,
                    element,
                    r,
                )
        } else {
            &&& post.pending() == pre.pending()
            &&& B::write_post(
                pre.inner_buf(),
                post.inner_buf(),
                pre_state,
                post_state,
                element,
                r,
            )
        }
    }

    /// Restoring rolls the decorator's pending flag back together with
    /// the wrapped sink's content.
    open spec fn restore_post(pre: Self, post: Self, snapshot: BufferSnapshot) -> bool {
        &&& post.preamble_view() == pre.preamble_view()
        &&& snapshot matches BufferSnapshot::Any(payload) ==> {
            &&& post.pending() == payload.empty
            &&& B::restore_post(pre.inner_buf(), post.inner_buf(), payload.inner)
        }
    }

    proof fn inv_extend(&self, pre: FormatState, post: FormatState) {
        self.inner_buf().inv_extend(pre, post);
        lemma_seq_wf_extend(
            pre,
            post,
            pre.interns().len() as int,
            post.interns().len() as int,
            self.preamble_view(),
        );
    }

    fn write_element(&mut self, state: &mut FormatState, element: FormatElement) -> (r: Result<
        (),
        FormatError,
    >) {
        if self.empty {
            let ghost pre_inner = self.inner;
            let ghost pre_state = *state;
            let n = self.preamble.len();
            let mut i: usize = 0;
            while i < n
                invariant
                    n == self.preamble@.len(),
                    0 <= i <= n,
                    old(self).pending(),
                    self.empty == old(self).empty,
                    self.preamble@ == old(self).preamble@,
                    pre_inner == old(self).inner_buf(),
                    pre_state == *old(state),
                    old(self).inv(*old(state)),
                    old(state).wf(),
                    old(state).elem_wf(old(state).interns().len() as int, element),
                    self.inner.inv(*state),
                    state.wf(),
                    old(state).extended_by(*state),
                    old(self).elems().is_prefix_of(self.inner.elems()),
                    forall|s: BufferSnapshot|
                        #[trigger] old(self).inner_buf().snap_shape(s)
                            ==> self.inner.snap_shape(s),
                    wrote_seq(
                        pre_inner,
                        pre_state,
                        self.inner,
                        *state,
                        self.preamble@.take(i as int),
                    ),
                decreases n - i,
            {
                let e = self.preamble[i];
                proof {
                    lemma_elem_wf_extend(
                        *old(state),
                        *state,
                        old(state).interns().len() as int,
                        state.interns().len() as int,
                        e,
                    );
                }
                let ghost mid_inner = self.inner;
                let ghost mid_state = *state;
                let result = self.inner.write_element(state, e);
                proof {
                    lemma_extends_trans(*old(state), mid_state, *state);
                    lemma_prefix_trans(old(self).elems(), mid_inner.elems(), self.inner.elems());
                }
                if let Err(err) = result {
                    proof {
                        lemma_seq_wf_extend(
                            *old(state),
                            *state,
                            old(state).interns().len() as int,
                            state.interns().len() as int,
                            self.preamble@,
                        );
                        assert(B::write_post(
                            mid_inner,
                            (*self).inner_buf(),
                            mid_state,
                            *state,
                            old(self).preamble_view()[i as int],
                            Err(err),
                        ));
                        assert(exists|mid: B, mid_state2: FormatState, k: int|
                            0 <= k < old(self).preamble_view().len() && wrote_seq(
                                old(self).inner_buf(),
                                *old(state),
                                mid,
                                mid_state2,
                                old(self).preamble_view().take(k),
                            ) && #[trigger] B::write_post(
                                mid,
                                (*self).inner_buf(),
                                mid_state2,
                                *state,
                                old(self).preamble_view()[k],
                                Err(err),
                            ));
                        assert(Self::write_post(
                            *old(self),
                            *self,
                            *old(state),
                            *state,
                            element,
                            Err(err),
                        ));
                    }
                    return Err(err);
                }
                proof {
                    lemma_wrote_seq_snoc(
                        pre_inner,
                        pre_state,
                        mid_inner,
                        mid_state,
                        self.inner,
                        *state,
                        self.preamble@.take(i as int),
                        e,
                        result,
                    );
                    assert(self.preamble@.take(i + 1) =~= self.preamble@.take(i as int).push(e));
                }
                i += 1;
            }
            proof {
                assert(self.preamble@.take(n as int) =~= self.preamble@);
            }
            self.empty = false;
            let ghost mid_inner = self.inner;
            let ghost mid_state = *state;
            proof {
                lemma_elem_wf_extend(
                    *old(state),
                    *state,
                    old(state).interns().len() as int,
                    state.interns().len() as int,
                    element,
                );
            }
            let result = self.inner.write_element(state, element);
            proof {
                lemma_extends_trans(*old(state), mid_state, *state);
                lemma_prefix_trans(old(self).elems(), mid_inner.elems(), self.inner.elems());
            }
            match result {
                Ok(()) => {
                    proof {
                        lemma_wrote_seq_snoc(
                            pre_inner,
                            pre_state,
                            mid_inner,
                            mid_state,
                            self.inner,
                            *state,
                            self.preamble@,
                            element,
                            result,
                        );
                        lemma_seq_wf_extend(
                            *old(state),
                            *state,
                            old(state).interns().len() as int,
                            state.interns().len() as int,
                            self.preamble@,
                        );
                        assert(Self::write_post(
                            *old(self),
                            *self,
                            *old(state),
                            *state,
                            element,
                            Ok(()),
                        ));
                    }
                    Ok(())
                },
                Err(err) => {
                    // The preamble went through but the element did not:
                    // the decorator's own state must not claim emptiness,
                    // since preamble content now sits in the wrapped sink.
                    proof {
                        lemma_seq_wf_extend(
                            *old(state),
                            *state,
                            old(state).interns().len() as int,
                            state.interns().len() as int,
                            self.preamble@,
                        );
                        assert(wrote_seq(
                            old(self).inner_buf(),
                            *old(state),
                            mid_inner,
                            mid_state,
                            old(self).preamble_view(),
                        ));
                        assert(B::write_post(
                            mid_inner,
                            (*self).inner_buf(),
                            mid_state,
                            *state,
                            element,
                            Err(err),
                        ));
                        assert(exists|mid: B, mid_state2: FormatState|
                            wrote_seq(
                                old(self).inner_buf(),
                                *old(state),
                                mid,
                                mid_state2,
                                old(self).preamble_view(),
                            ) && #[trigger] B::write_post(
                                mid,
                                (*self).inner_buf(),
                                mid_state2,
                                *state,
                                element,
                                Err(err),
                            ));
                        assert(Self::write_post(
                            *old(self),
                            *self,
                            *old(state),
                            *state,
                            element,
                            Err(err),
                        ));
                    }
                    Err(err)
                },
            }
        } else {
            let result = self.inner.write_element(state, element);
            proof {
                lemma_seq_wf_extend(
                    *old(state),
                    *state,
                    old(state).interns().len() as int,
                    state.interns().len() as int,
                    self.preamble@,
                );
                assert(Self::write_post(
                    *old(self),
                    *self,
                    *old(state),
                    *state,
                    element,
                    result,
                ));
            }
            result
        }
    }

    fn elements(&self) -> (r: &Vec<FormatElement>) {
        self.inner.elements()
    }

    fn snapshot(&self) -> (s: BufferSnapshot) {
        BufferSnapshot::Any(
            Box::new(
                PreambleBufferSnapshot { inner: self.inner.snapshot(), empty: self.empty },
            ),
        )
    }

    fn restore_snapshot(&mut self, snapshot: BufferSnapshot) {
        match snapshot {
            BufferSnapshot::Any(payload) => {
                let payload = *payload;
                self.empty = payload.empty;
                self.inner.restore_snapshot(payload.inner);
            },
            BufferSnapshot::Position(_) => {
                proof {
                    assert(false);
                }
            },
        }
    }
}

} // verus!
