//! The laws the buffering layer obeys, stated and proved once for all:
//! snapshot round trips, the deferred-prefix discipline, recording
//! capture, and the canonicalizer's identity, conditional-content and
//! dedup guarantees.

use vstd::prelude::*;

use crate::buffer::Buffer;
use crate::buffer::FormatError;
use crate::buffer::VecBuffer;
use crate::buffer::lemma_wrote_seq_vec;
use crate::buffer::wrote_seq;
use crate::element::Condition;
use crate::element::FormatElement;
use crate::element::PrintMode;
use crate::element::Tag;
use crate::element::seq_flat;
use crate::element::seq_plain;
use crate::extensions::BufferExtensions;
use crate::preamble::PreambleBuffer;
use crate::recording::Recorded;
use crate::state::FormatState;
use crate::remove_soft_lines::RemoveSoftLinesBuffer;
use crate::remove_soft_lines::expanded_top;
use crate::remove_soft_lines::flat_canon_seq;
use crate::remove_soft_lines::lemma_dropped_under_expanded;
use crate::remove_soft_lines::lemma_plain_forwarded;
use crate::remove_soft_lines::seq_tag_free_flat;
use crate::remove_soft_lines::seq_trigger_free;

verus! {

/// For any sink, a snapshot immediately followed by its restore, with
/// no intervening writes, leaves the element sequence unchanged.
pub fn law_snapshot_restore_identity<B: Buffer>(buffer: &mut B)
    ensures
        final(buffer).elems() == old(buffer).elems(),
{
    let snapshot = buffer.snapshot();
    buffer.restore_snapshot(snapshot);
    proof {
        assert(old(buffer).elems().take(old(buffer).elems().len() as int) =~= old(
            buffer,
        ).elems());
    }
}

/// For any sink and any sequence of writes, a snapshot taken before the
/// writes restores the element sequence to exactly its prior contents,
/// whether or not every write succeeded.
pub fn law_snapshot_restores_after_writes<B: Buffer>(
    buffer: &mut B,
    state: &mut FormatState,
    writes: Vec<FormatElement>,
)
    requires
        old(buffer).inv(*old(state)),
        old(state).wf(),
        old(state).seq_wf(old(state).interns().len() as int, writes@),
    ensures
        final(buffer).elems() == old(buffer).elems(),
{
    let snapshot = buffer.snapshot();
    let _ = buffer.write_fmt(state, writes);
    buffer.restore_snapshot(snapshot);
    proof {
        assert(buffer.elems() =~= old(buffer).elems());
    }
}

/// A write through the deferred-prefix decorator over the baseline sink
/// cannot fail: every failure traces back to a wrapped-sink write, and
/// the baseline sink's writes all succeed.
proof fn lemma_preamble_over_vec_write_ok(
    pre: PreambleBuffer<VecBuffer>,
    post: PreambleBuffer<VecBuffer>,
    pre_state: FormatState,
    post_state: FormatState,
    element: FormatElement,
    r: Result<(), FormatError>,
)
    requires
        <PreambleBuffer<VecBuffer> as Buffer>::write_post(
            pre,
            post,
            pre_state,
            post_state,
            element,
            r,
        ),
    ensures
        r is Ok,
{
    if r is Err {
        if pre.pending() {
            if post.pending() {
                let (mid, mid_state, k) = choose|
                    mid: VecBuffer,
                    mid_state: FormatState,
                    k: int,
                |
                    0 <= k < pre.preamble_view().len() && wrote_seq(
                        pre.inner_buf(),
                        pre_state,
                        mid,
                        mid_state,
                        pre.preamble_view().take(k),
                    ) && #[trigger] <VecBuffer as Buffer>::write_post(
                        mid,
                        post.inner_buf(),
                        mid_state,
                        post_state,
                        pre.preamble_view()[k],
                        r,
                    );
            } else {
                let (mid, mid_state) = choose|mid: VecBuffer, mid_state: FormatState|
                    wrote_seq(pre.inner_buf(), pre_state, mid, mid_state, pre.preamble_view())
                        && #[trigger] <VecBuffer as Buffer>::write_post(
                        mid,
                        post.inner_buf(),
                        mid_state,
                        post_state,
                        element,
                        r,
                    );
            }
        }
    }
}

/// The deferred-prefix decorator never emits its preamble while nothing
/// has been written through it.
pub fn law_preamble_not_emitted_without_writes(inner: VecBuffer, preamble: Vec<FormatElement>)
    -> (r: PreambleBuffer<VecBuffer>)
    ensures
        r.elems() == inner.elems(),
        r.pending(),
{
    PreambleBuffer::new(inner, preamble)
}

/// Writing through the deferred-prefix decorator over the baseline sink
/// emits the preamble exactly once, immediately before the first real
/// element, however many elements follow.
pub fn law_preamble_emitted_once_before_first_element(
    inner: VecBuffer,
    state: &mut FormatState,
    preamble: Vec<FormatElement>,
    first: FormatElement,
    second: FormatElement,
) -> (r: PreambleBuffer<VecBuffer>)
    requires
        old(state).wf(),
        old(state).seq_wf(old(state).interns().len() as int, preamble@),
        old(state).elem_wf(old(state).interns().len() as int, first),
        old(state).elem_wf(old(state).interns().len() as int, second),
    ensures
        r.elems() =~= inner.elems() + preamble@ + seq![first, second],
        !r.pending(),
{
    let ghost inner0 = inner;
    let mut decorated = PreambleBuffer::new(inner, preamble);
    let ghost pre1 = decorated;
    let result = decorated.write_element(state, first);
    proof {
        lemma_preamble_over_vec_write_ok(
            pre1,
            decorated,
            *old(state),
            *state,
            first,
            result,
        );
        lemma_wrote_seq_vec(
            inner0,
            *old(state),
            decorated.inner_buf(),
            *state,
            preamble@.push(first),
        );
    }
    let ghost mid = decorated;
    let ghost mid_state = *state;
    let result2 = decorated.write_element(state, second);
    proof {
        lemma_preamble_over_vec_write_ok(
            mid,
            decorated,
            mid_state,
            *state,
            second,
            result2,
        );
        assert(decorated.inner_buf().elems() =~= inner0.elems() + preamble@ + seq![
            first,
            second,
        ]);
    }
    decorated
}

/// A recording captures exactly the elements written between its start
/// and its stop, in order, even when earlier content already sits in
/// the sink: single writes and a composed batch in one capture.
pub fn law_recording_captures_writes(
    buffer: &mut VecBuffer,
    state: &mut FormatState,
    first: Vec<FormatElement>,
    second: Vec<FormatElement>,
) -> (r: Recorded)
    requires
        old(state).wf(),
        old(state).seq_wf(old(state).interns().len() as int, first@),
        old(state).seq_wf(old(state).interns().len() as int, second@),
    ensures
        r@ == first@ + second@,
{
    let ghost sec = second@;
    let recording = buffer.start_recording();
    let n1 = first.len();
    let mut i: usize = 0;
    while i < n1
        invariant
            n1 == first@.len(),
            0 <= i <= n1,
            *state == *old(state),
            state.wf(),
            old(state).seq_wf(old(state).interns().len() as int, first@),
            buffer.elems() == old(buffer).elems() + first@.take(i as int),
            recording.start_spec() == old(buffer).elems().len(),
        decreases n1 - i,
    {
        let element = first[i];
        let _ = recording.write_element(buffer, state, element);
        proof {
            assert(buffer.elems() =~= old(buffer).elems() + first@.take(i + 1));
        }
        i += 1;
    }
    proof {
        assert(first@.take(n1 as int) =~= first@);
    }
    let ghost after_first = buffer.elems();
    let ghost pre2 = *buffer;
    let ghost pre2_state = *state;
    let result = recording.write_fmt(buffer, state, second);
    proof {
        if result is Err {
            let (k, mid, mid_state) = choose|k: int, mid: VecBuffer, mid_state: FormatState|
                0 <= k < sec.len() && wrote_seq(pre2, pre2_state, mid, mid_state, sec.take(k))
                    && #[trigger] <VecBuffer as Buffer>::write_post(
                    mid,
                    *buffer,
                    mid_state,
                    *state,
                    sec[k],
                    result,
                );
        }
        lemma_wrote_seq_vec(pre2, pre2_state, *buffer, *state, sec);
    }
    let captured = recording.stop(buffer);
    proof {
        assert(captured@ =~= first@ + second@);
    }
    captured
}

/// Canonicalizing an already-canonical shared subtree — one with no
/// soft breaks, no conditional markers and no best-fitting groups,
/// recursively — forwards the original subtree reference, by identity.
pub fn law_canonical_subtree_kept_by_identity(
    buffer: &mut RemoveSoftLinesBuffer<VecBuffer>,
    state: &mut FormatState,
    id: usize,
)
    requires
        old(buffer).inv(*old(state)),
        old(state).wf(),
        0 <= id < old(state).interns().len(),
        seq_trigger_free(*old(state), id as int, old(state).interns()[id as int]),
        !expanded_top(old(buffer).stack_view()),
    ensures
        final(buffer).elems() =~= old(buffer).elems() + seq![FormatElement::Interned(id)],
{
    let ghost pre = *buffer;
    let result = buffer.write_element(state, FormatElement::Interned(id));
    proof {
        lemma_remove_soft_lines_over_vec_write_ok(
            pre,
            *buffer,
            *old(state),
            *state,
            FormatElement::Interned(id),
            result,
        );
        lemma_wrote_seq_vec(
            pre.inner_buf(),
            *old(state),
            buffer.inner_buf(),
            *state,
            seq![FormatElement::Interned(id)],
        );
    }
}

/// A write through the canonicalizer over the baseline sink cannot
/// fail: every failure traces back to a wrapped-sink write, and the
/// baseline sink's writes all succeed.
proof fn lemma_remove_soft_lines_over_vec_write_ok(
    pre: RemoveSoftLinesBuffer<VecBuffer>,
    post: RemoveSoftLinesBuffer<VecBuffer>,
    pre_state: FormatState,
    post_state: FormatState,
    element: FormatElement,
    r: Result<(), FormatError>,
)
    requires
        <RemoveSoftLinesBuffer<VecBuffer> as Buffer>::write_post(
            pre,
            post,
            pre_state,
            post_state,
            element,
            r,
        ),
    ensures
        r is Ok,
{
    if r is Err {
        let (mid, mid_state, x) = choose|
            mid: VecBuffer,
            mid_state: FormatState,
            x: FormatElement,
        |
            #[trigger] <VecBuffer as Buffer>::write_post(
                mid,
                post.inner_buf(),
                mid_state,
                post_state,
                x,
                r,
            );
    }
}

/// After one reference to a shared subtree passes through the
/// canonicalizer, the rewrite is remembered under the subtree's
/// identity.
pub fn law_shared_subtree_cached_after_first_use(
    buffer: &mut RemoveSoftLinesBuffer<VecBuffer>,
    state: &mut FormatState,
    id: usize,
)
    requires
        old(buffer).inv(*old(state)),
        old(state).wf(),
        0 <= id < old(state).interns().len(),
        !expanded_top(old(buffer).stack_view()),
    ensures
        final(buffer).inv(*final(state)),
        final(state).wf(),
        final(buffer).cache_view().contains_key(id),
        final(buffer).elems() =~= old(buffer).elems() + seq![
            FormatElement::Interned(final(buffer).cache_view()[id]),
        ],
{
    let ghost pre = *buffer;
    let result = buffer.write_element(state, FormatElement::Interned(id));
    proof {
        lemma_remove_soft_lines_over_vec_write_ok(
            pre,
            *buffer,
            *old(state),
            *state,
            FormatElement::Interned(id),
            result,
        );
        let post = *buffer;
        let post_state = *state;
        let w = choose|w: FormatState|
            old(state).extended_by(w) && #[trigger] wrote_seq(
                pre.inner_buf(),
                w,
                post.inner_buf(),
                post_state,
                seq![FormatElement::Interned(post.cache_view()[id])],
            );
        lemma_wrote_seq_vec(
            pre.inner_buf(),
            w,
            post.inner_buf(),
            post_state,
            seq![FormatElement::Interned(post.cache_view()[id])],
        );
    }
}

/// A repeated reference to an already-rewritten shared subtree is
/// served from the cache: the scan counter does not move, nothing is
/// re-scanned, and the reference forwarded is the same one the first
/// occurrence produced.
pub fn law_repeated_subtree_served_from_cache(
    buffer: &mut RemoveSoftLinesBuffer<VecBuffer>,
    state: &mut FormatState,
    id: usize,
)
    requires
        old(buffer).inv(*old(state)),
        old(state).wf(),
        0 <= id < old(state).interns().len(),
        old(buffer).cache_view().contains_key(id),
        !expanded_top(old(buffer).stack_view()),
    ensures
        final(buffer).scans_spec() == old(buffer).scans_spec(),
        final(buffer).cache_view() == old(buffer).cache_view(),
        final(buffer).stack_view() == old(buffer).stack_view(),
        final(buffer).elems() =~= old(buffer).elems() + seq![
            FormatElement::Interned(old(buffer).cache_view()[id]),
        ],
{
    let ghost pre = *buffer;
    let result = buffer.write_element(state, FormatElement::Interned(id));
    proof {
        lemma_remove_soft_lines_over_vec_write_ok(
            pre,
            *buffer,
            *old(state),
            *state,
            FormatElement::Interned(id),
            result,
        );
        lemma_wrote_seq_vec(
            pre.inner_buf(),
            *old(state),
            buffer.inner_buf(),
            *state,
            seq![FormatElement::Interned(pre.cache_view()[id])],
        );
    }
}

/// The canonicalizer's effect on any sequence of flat elements is
/// exactly the canonical flat form: soft lines vanish, soft-or-space
/// lines become spaces, expanded-gated content is dropped, and the
/// conditional-content stack threads left to right.
pub fn law_flat_writes_canonicalized(
    buffer: &mut RemoveSoftLinesBuffer<VecBuffer>,
    state: &mut FormatState,
    writes: Vec<FormatElement>,
)
    requires
        old(buffer).inv(*old(state)),
        old(state).wf(),
        seq_flat(writes@),
    ensures
        final(buffer).elems() =~= old(buffer).elems() + flat_canon_seq(
            old(buffer).stack_view(),
            writes@,
        ).0,
        final(buffer).stack_view() == flat_canon_seq(old(buffer).stack_view(), writes@).1,
{
    let n = writes.len();
    let mut i: usize = 0;
    while i < n
        invariant
            n == writes@.len(),
            0 <= i <= n,
            seq_flat(writes@),
            state.wf(),
            buffer.inv(*state),
            buffer.elems() == old(buffer).elems() + flat_canon_seq(
                old(buffer).stack_view(),
                writes@.take(i as int),
            ).0,
            buffer.stack_view() == flat_canon_seq(
                old(buffer).stack_view(),
                writes@.take(i as int),
            ).1,
        decreases n - i,
    {
        let element = writes[i];
        let ghost pre = *buffer;
        let ghost pre_state = *state;
        let result = buffer.write_element(state, element);
        proof {
            lemma_remove_soft_lines_over_vec_write_ok(
                pre,
                *buffer,
                pre_state,
                *state,
                element,
                result,
            );
            lemma_wrote_seq_vec(
                pre.inner_buf(),
                pre_state,
                buffer.inner_buf(),
                *state,
                crate::remove_soft_lines::flat_canon_elem(pre.stack_view(), element).0,
            );
            crate::remove_soft_lines::lemma_flat_canon_app(
                old(buffer).stack_view(),
                writes@.take(i as int),
                seq![element],
            );
            reveal_with_fuel(flat_canon_seq, 3);
            assert(writes@.take(i + 1) =~= writes@.take(i as int) + seq![element]);
            assert(seq![element].drop_first() =~= Seq::<FormatElement>::empty());
            assert(buffer.elems() =~= old(buffer).elems() + flat_canon_seq(
                old(buffer).stack_view(),
                writes@.take(i + 1),
            ).0);
        }
        i += 1;
    }
    proof {
        assert(writes@.take(n as int) =~= writes@);
    }
}

/// Idempotence on flat input: content that is already in canonical form
/// — no soft breaks, no markers, no best-fitting groups — passes
/// through the canonicalizer unchanged.
pub fn law_canonical_flat_input_unchanged(
    buffer: &mut RemoveSoftLinesBuffer<VecBuffer>,
    state: &mut FormatState,
    writes: Vec<FormatElement>,
)
    requires
        old(buffer).inv(*old(state)),
        old(state).wf(),
        seq_flat(writes@),
        seq_plain(writes@),
        !expanded_top(old(buffer).stack_view()),
    ensures
        final(buffer).elems() =~= old(buffer).elems() + writes@,
        final(buffer).stack_view() == old(buffer).stack_view(),
{
    let ghost w = writes@;
    law_flat_writes_canonicalized(buffer, state, writes);
    proof {
        lemma_plain_forwarded(old(buffer).stack_view(), w);
    }
}

/// A best-fitting group resolves to exactly its first — most compact —
/// alternative, with that alternative's own soft breaks resolved in
/// turn; no trace of the rejected variants survives.
pub fn law_best_fitting_resolved_to_most_compact(
    buffer: &mut RemoveSoftLinesBuffer<VecBuffer>,
    state: &mut FormatState,
    group: usize,
)
    requires
        old(buffer).inv(*old(state)),
        old(state).wf(),
        0 <= group < old(state).best_fittings().len(),
        old(state).best_fittings()[group as int].len() >= 1,
        forall|k: int|
            0 <= k < old(state).best_fittings()[group as int].len() ==> 0 <= #[trigger] old(
                state,
            ).best_fittings()[group as int][k] < old(state).interns().len(),
        seq_flat(
            old(state).interns()[old(state).best_fittings()[group as int][0] as int],
        ),
        !expanded_top(old(buffer).stack_view()),
    ensures
        final(buffer).elems() =~= old(buffer).elems() + flat_canon_seq(
            old(buffer).stack_view(),
            old(state).interns()[old(state).best_fittings()[group as int][0] as int],
        ).0,
{
    let ghost pre = *buffer;
    let result = buffer.write_element(state, FormatElement::BestFitting(group));
    proof {
        lemma_remove_soft_lines_over_vec_write_ok(
            pre,
            *buffer,
            *old(state),
            *state,
            FormatElement::BestFitting(group),
            result,
        );
        lemma_wrote_seq_vec(
            pre.inner_buf(),
            *old(state),
            buffer.inner_buf(),
            *state,
            flat_canon_seq(
                pre.stack_view(),
                old(state).interns()[old(state).best_fittings()[group as int][0] as int],
            ).0,
        );
    }
}

/// Canonicalization is idempotent: whatever shared subtree goes in, the
/// reference that comes out points at a canonical subtree — no soft
/// breaks, no markers, no best-fitting groups, recursively — so writing
/// that reference again, outside expanded content, forwards it
/// unchanged, by identity ([`law_canonical_subtree_kept_by_identity`]).
pub fn law_rewritten_subtree_is_canonical(
    buffer: &mut RemoveSoftLinesBuffer<VecBuffer>,
    state: &mut FormatState,
    id: usize,
)
    requires
        old(buffer).inv(*old(state)),
        old(state).wf(),
        0 <= id < old(state).interns().len(),
        !expanded_top(old(buffer).stack_view()),
    ensures
        final(buffer).inv(*final(state)),
        final(state).wf(),
        final(buffer).cache_view().contains_key(id),
        final(buffer).elems() =~= old(buffer).elems() + seq![
            FormatElement::Interned(final(buffer).cache_view()[id]),
        ],
        seq_trigger_free(
            *final(state),
            final(buffer).cache_view()[id] as int,
            final(state).interns()[final(buffer).cache_view()[id] as int],
        ),
{
    let ghost pre = *buffer;
    let result = buffer.write_element(state, FormatElement::Interned(id));
    proof {
        lemma_remove_soft_lines_over_vec_write_ok(
            pre,
            *buffer,
            *old(state),
            *state,
            FormatElement::Interned(id),
            result,
        );
        let post = *buffer;
        let post_state = *state;
        let w = choose|w: FormatState|
            old(state).extended_by(w) && #[trigger] wrote_seq(
                pre.inner_buf(),
                w,
                post.inner_buf(),
                post_state,
                seq![FormatElement::Interned(post.cache_view()[id])],
            );
        lemma_wrote_seq_vec(
            pre.inner_buf(),
            w,
            post.inner_buf(),
            post_state,
            seq![FormatElement::Interned(post.cache_view()[id])],
        );
    }
}

/// A shared subtree that holds soft breaks but no markers and no nested
/// references is rewritten into exactly its canonical form, registered
/// as a new subtree, and forwarded by reference.
pub fn law_flat_subtree_rewritten_to_canonical_form(
    buffer: &mut RemoveSoftLinesBuffer<VecBuffer>,
    state: &mut FormatState,
    id: usize,
)
    requires
        old(buffer).inv(*old(state)),
        old(state).wf(),
        0 <= id < old(state).interns().len(),
        !old(buffer).cache_view().contains_key(id),
        seq_tag_free_flat(old(state).interns()[id as int]),
        !expanded_top(old(buffer).stack_view()),
    ensures
        final(buffer).cache_view().contains_key(id),
        final(buffer).elems() =~= old(buffer).elems() + seq![
            FormatElement::Interned(final(buffer).cache_view()[id]),
        ],
        final(state).interns()[final(buffer).cache_view()[id] as int] == flat_canon_seq(
            old(buffer).stack_view(),
            old(state).interns()[id as int],
        ).0,
        final(buffer).stack_view() == old(buffer).stack_view(),
{
    let ghost pre = *buffer;
    let result = buffer.write_element(state, FormatElement::Interned(id));
    proof {
        lemma_remove_soft_lines_over_vec_write_ok(
            pre,
            *buffer,
            *old(state),
            *state,
            FormatElement::Interned(id),
            result,
        );
        let post = *buffer;
        let post_state = *state;
        let w = choose|w: FormatState|
            old(state).extended_by(w) && #[trigger] wrote_seq(
                pre.inner_buf(),
                w,
                post.inner_buf(),
                post_state,
                seq![FormatElement::Interned(post.cache_view()[id])],
            );
        lemma_wrote_seq_vec(
            pre.inner_buf(),
            w,
            post.inner_buf(),
            post_state,
            seq![FormatElement::Interned(post.cache_view()[id])],
        );
    }
}

/// Content between a start/end marker pair gated to the expanded mode
/// is entirely absent from the canonical output, and the
/// conditional-content stack is left as it was.
pub proof fn law_expanded_conditional_content_dropped(
    stack: Seq<Condition>,
    content: Seq<FormatElement>,
)
    requires
        forall|i: int| 0 <= i < content.len() ==> !(#[trigger] content[i] is Tag),
    ensures
        flat_canon_seq(
            stack,
            seq![
                FormatElement::Tag(
                    Tag::StartConditionalContent(Condition { mode: PrintMode::Expanded }),
                ),
            ] + content + seq![FormatElement::Tag(Tag::EndConditionalContent)],
        ).0 == Seq::<FormatElement>::empty(),
        flat_canon_seq(
            stack,
            seq![
                FormatElement::Tag(
                    Tag::StartConditionalContent(Condition { mode: PrintMode::Expanded }),
                ),
            ] + content + seq![FormatElement::Tag(Tag::EndConditionalContent)],
        ).1 == stack,
{
    let start = seq![
        FormatElement::Tag(Tag::StartConditionalContent(Condition { mode: PrintMode::Expanded })),
    ];
    let end = seq![FormatElement::Tag(Tag::EndConditionalContent)];
    let whole = start + content + end;
    let pushed = stack.push(Condition { mode: PrintMode::Expanded });
    reveal_with_fuel(flat_canon_seq, 4);
    assert(whole[0] == start[0]);
    assert(whole.drop_first() =~= content + end);
    crate::remove_soft_lines::lemma_flat_canon_app(pushed, content, end);
    lemma_dropped_under_expanded(pushed, content);
    assert(pushed.drop_last() =~= stack);
    assert(flat_canon_seq(pushed, end).0 =~= Seq::<FormatElement>::empty());
    assert(flat_canon_seq(stack, whole).0 =~= Seq::<FormatElement>::empty());
}

/// Already-canonical content between a start/end marker pair gated to
/// the compact mode is retained unchanged in the canonical output, and
/// the conditional-content stack is left as it was.
pub proof fn law_compact_conditional_content_retained(
    stack: Seq<Condition>,
    content: Seq<FormatElement>,
)
    requires
        seq_flat(content),
        seq_plain(content),
    ensures
        flat_canon_seq(
            stack,
            seq![
                FormatElement::Tag(
                    Tag::StartConditionalContent(Condition { mode: PrintMode::Flat }),
                ),
            ] + content + seq![FormatElement::Tag(Tag::EndConditionalContent)],
        ).0 == content,
        flat_canon_seq(
            stack,
            seq![
                FormatElement::Tag(
                    Tag::StartConditionalContent(Condition { mode: PrintMode::Flat }),
                ),
            ] + content + seq![FormatElement::Tag(Tag::EndConditionalContent)],
        ).1 == stack,
{
    let start = seq![
        FormatElement::Tag(Tag::StartConditionalContent(Condition { mode: PrintMode::Flat })),
    ];
    let end = seq![FormatElement::Tag(Tag::EndConditionalContent)];
    let whole = start + content + end;
    let pushed = stack.push(Condition { mode: PrintMode::Flat });
    reveal_with_fuel(flat_canon_seq, 4);
    assert(whole[0] == start[0]);
    assert(whole.drop_first() =~= content + end);
    crate::remove_soft_lines::lemma_flat_canon_app(pushed, content, end);
    lemma_plain_forwarded(pushed, content);
    assert(pushed.drop_last() =~= stack);
    assert(flat_canon_seq(pushed, end).0 =~= Seq::<FormatElement>::empty());
    assert(flat_canon_seq(stack, whole).0 =~= content + Seq::<FormatElement>::empty());
    assert(content + Seq::<FormatElement>::empty() =~= content);
}

} // verus!
