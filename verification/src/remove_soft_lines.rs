//! The soft-break canonicalizer: a buffer decorator that rewrites
//! incoming elements as the document would render at infinite print
//! width. Soft line breaks vanish, soft-or-space breaks become spaces,
//! best-fitting groups resolve to their most compact variant, content
//! gated to the expanded print mode is dropped, and shared subtrees are
//! rewritten once each through an identity-keyed memo cache.

use rustc_hash::FxHashMap;
use vstd::prelude::*;

use crate::buffer::Buffer;
use crate::buffer::FormatError;
use crate::buffer::lemma_wrote_seq_interleaved_snoc;
use crate::buffer::wrote_seq;
use crate::buffer::wrote_seq_interleaved;
use crate::element::Condition;
use crate::element::FormatElement;
use crate::element::LineMode;
use crate::element::PrintMode;
use crate::element::Tag;
use crate::element::elem_flat;
use crate::element::seq_plain;
use crate::element::seq_flat;
use crate::snapshot::BufferSnapshot;
use crate::state::FormatState;

verus! {

/// The hasher type of `rustc_hash`, declared so that `FxHashMap` (the
/// standard `HashMap` with this hasher) can appear in fields here.
#[verifier::external_type_specification]
#[verifier::external_body]
pub struct ExFxBuildHasher(rustc_hash::FxBuildHasher);

/// The canonicalization cache: `rustc_hash`'s map from the id of a
/// shared subtree to the id of its already-canonicalized counterpart.
pub type InternCache = FxHashMap<usize, usize>;

/// Relies on `rustc_hash::FxHashMap::default` (`HashMap::default` with
/// the Fx hasher): a newly created map is empty.
#[verifier::external_body]
fn cache_new() -> (r: InternCache)
    ensures
        r@.dom() == Set::<usize>::empty(),
{
    FxHashMap::default()
}

/// Relies on `HashMap::get` (with the Fx hasher): returns the value
/// stored under the key, or nothing if the key is absent.
#[verifier::external_body]
fn cache_get(cache: &InternCache, key: usize) -> (r: Option<usize>)
    ensures
        r matches Some(v) ==> cache@.contains_key(key) && cache@[key] == v,
        r is None ==> !cache@.contains_key(key),
{
    cache.get(&key).copied()
}

/// Relies on `HashMap::insert` (with the Fx hasher): stores the value
/// under the key, replacing any previous value.
#[verifier::external_body]
fn cache_insert(cache: &mut InternCache, key: usize, value: usize)
    ensures
        final(cache)@ == old(cache)@.insert(key, value),
{
    cache.insert(key, value);
}

/// Whether the innermost open conditional region is gated to the
/// expanded print mode, so that elements written now are dropped.
pub open spec fn expanded_top(stack: Seq<Condition>) -> bool {
    stack.len() > 0 && stack.last().mode is Expanded
}

/// What the canonicalizer does with one flat element under the given
/// conditional-content stack: the elements forwarded and the stack after.
pub open spec fn flat_canon_elem(stack: Seq<Condition>, e: FormatElement) -> (
    Seq<FormatElement>,
    Seq<Condition>,
) {
    match e {
        FormatElement::Tag(Tag::StartConditionalContent(condition)) => (
            Seq::empty(),
            stack.push(condition),
        ),
        FormatElement::Tag(Tag::EndConditionalContent) => (
            Seq::empty(),
            if stack.len() > 0 {
                stack.drop_last()
            } else {
                stack
            },
        ),
        _ => if expanded_top(stack) {
            (Seq::empty(), stack)
        } else {
            match e {
                FormatElement::Line(LineMode::Soft) => (Seq::empty(), stack),
                FormatElement::Line(LineMode::SoftOrSpace) => (
                    seq![FormatElement::Space],
                    stack,
                ),
                _ => (seq![e], stack),
            }
        },
    }
}

/// The canonicalizer's effect on a sequence of flat elements, threading
/// the conditional-content stack left to right.
pub open spec fn flat_canon_seq(stack: Seq<Condition>, s: Seq<FormatElement>) -> (
    Seq<FormatElement>,
    Seq<Condition>,
)
    decreases s.len(),
{
    if s.len() == 0 {
        (Seq::empty(), stack)
    } else {
        let head = flat_canon_elem(stack, s[0]);
        let tail = flat_canon_seq(head.1, s.drop_first());
        (head.0 + tail.0, tail.1)
    }
}

/// Splitting a flat sequence splits its canonical form: the second part
/// is canonicalized under the stack the first part left behind.
pub proof fn lemma_flat_canon_app(stack: Seq<Condition>, a: Seq<FormatElement>, b: Seq<
    FormatElement,
>)
    ensures
        flat_canon_seq(stack, a + b).0 == flat_canon_seq(stack, a).0 + flat_canon_seq(
            flat_canon_seq(stack, a).1,
            b,
        ).0,
        flat_canon_seq(stack, a + b).1 == flat_canon_seq(flat_canon_seq(stack, a).1, b).1,
    decreases a.len(),
{
    if a.len() == 0 {
        assert(a + b =~= b);
        assert(flat_canon_seq(stack, a).0 + flat_canon_seq(stack, b).0 =~= flat_canon_seq(
            stack,
            b,
        ).0);
    } else {
        let head = flat_canon_elem(stack, a[0]);
        assert((a + b).drop_first() =~= a.drop_first() + b);
        lemma_flat_canon_app(head.1, a.drop_first(), b);
        assert((a + b)[0] == a[0]);
        assert(flat_canon_seq(stack, a + b).0 =~= flat_canon_seq(stack, a).0 + flat_canon_seq(
            flat_canon_seq(stack, a).1,
            b,
        ).0);
    }
}

/// Every element of the sequence is flat and is not a conditional
/// marker: such a sequence never touches the conditional-content stack.
pub open spec fn seq_tag_free_flat(s: Seq<FormatElement>) -> bool {
    forall|i: int| 0 <= i < s.len() ==> elem_flat(#[trigger] s[i]) && !(s[i] is Tag)
}

/// Flat content that carries no markers of its own vanishes entirely
/// under an innermost expanded-gated condition.
pub proof fn lemma_dropped_under_expanded(stack: Seq<Condition>, content: Seq<FormatElement>)
    requires
        expanded_top(stack),
        forall|i: int| 0 <= i < content.len() ==> !(#[trigger] content[i] is Tag),
    ensures
        flat_canon_seq(stack, content).0 == Seq::<FormatElement>::empty(),
        flat_canon_seq(stack, content).1 == stack,
    decreases content.len(),
{
    if content.len() > 0 {
        lemma_dropped_under_expanded(stack, content.drop_first());
        assert(flat_canon_seq(stack, content).0 =~= Seq::<FormatElement>::empty());
    }
}

/// Already-canonical flat content that carries no markers of its own is
/// forwarded unchanged while the innermost condition is not expanded.
pub proof fn lemma_plain_forwarded(stack: Seq<Condition>, content: Seq<FormatElement>)
    requires
        !expanded_top(stack),
        seq_flat(content),
        seq_plain(content),
    ensures
        flat_canon_seq(stack, content).0 == content,
        flat_canon_seq(stack, content).1 == stack,
    decreases content.len(),
{
    if content.len() > 0 {
        assert(seq_flat(content.drop_first())) by {
            assert(forall|i: int|
                0 <= i < content.drop_first().len() ==> #[trigger] content.drop_first()[i]
                    == content[i + 1]);
        }
        assert(seq_plain(content.drop_first()));
        lemma_plain_forwarded(stack, content.drop_first());
        assert(flat_canon_seq(stack, content).0 =~= content);
    }
}

/// Content that never touches the conditional-content stack leaves it
/// exactly as it was.
pub proof fn lemma_tag_free_keeps_stack(stack: Seq<Condition>, content: Seq<FormatElement>)
    requires
        seq_tag_free_flat(content),
    ensures
        flat_canon_seq(stack, content).1 == stack,
    decreases content.len(),
{
    if content.len() > 0 {
        assert(seq_tag_free_flat(content.drop_first())) by {
            assert(forall|i: int|
                0 <= i < content.drop_first().len() ==> #[trigger] content.drop_first()[i]
                    == content[i + 1]);
        }
        lemma_tag_free_keeps_stack(stack, content.drop_first());
    }
}

/// An element is trigger free when canonicalizing it changes nothing:
/// not a soft break, marker or best-fitting group, and, for a shared
/// subtree, its whole sequence is trigger free in turn.
pub open spec fn elem_trigger_free(state: FormatState, bound: int, e: FormatElement) -> bool
    decreases bound, 0int, 1int,
{
    match e {
        FormatElement::Line(mode) => mode is Hard,
        FormatElement::Tag(_) => false,
        FormatElement::BestFitting(_) => false,
        FormatElement::Interned(id) => 0 <= id < bound && seq_trigger_free(
            state,
            id as int,
            state.interns()[id as int],
        ),
        _ => true,
    }
}

/// Every element of the sequence is trigger free: the canonicalizer
/// forwards such a sequence unchanged.
pub open spec fn seq_trigger_free(state: FormatState, bound: int, s: Seq<FormatElement>) -> bool
    decreases bound, s.len(), 0int,
{
    if bound < 0 {
        false
    } else if s.len() == 0 {
        true
    } else {
        elem_trigger_free(state, bound, s[0]) && seq_trigger_free(state, bound, s.drop_first())
    }
}

/// Each element of a trigger-free sequence is trigger free.
pub proof fn lemma_trigger_free_index(state: FormatState, bound: int, s: Seq<FormatElement>, i: int)
    requires
        seq_trigger_free(state, bound, s),
        0 <= i < s.len(),
    ensures
        elem_trigger_free(state, bound, s[i]),
    decreases s.len(),
{
    if i > 0 {
        lemma_trigger_free_index(state, bound, s.drop_first(), i - 1);
    }
}

/// Trigger freedom only reads subtrees below its bound, so it is
/// unaffected when the state grows.
pub proof fn lemma_elem_trigger_free_extend(
    pre: FormatState,
    post: FormatState,
    bound: int,
    e: FormatElement,
)
    requires
        pre.extended_by(post),
        bound <= pre.interns().len(),
    ensures
        elem_trigger_free(pre, bound, e) == elem_trigger_free(post, bound, e),
    decreases bound, 0int, 1int,
{
    match e {
        FormatElement::Interned(id) => {
            if 0 <= id < bound {
                assert(pre.interns()[id as int] == post.interns()[id as int]);
                lemma_seq_trigger_free_extend(pre, post, id as int, pre.interns()[id as int]);
            }
        },
        _ => {},
    }
}

/// As [`lemma_elem_trigger_free_extend`], for a whole sequence.
pub proof fn lemma_seq_trigger_free_extend(
    pre: FormatState,
    post: FormatState,
    bound: int,
    s: Seq<FormatElement>,
)
    requires
        pre.extended_by(post),
        bound <= pre.interns().len(),
    ensures
        seq_trigger_free(pre, bound, s) == seq_trigger_free(post, bound, s),
    decreases bound, s.len(), 0int,
{
    if bound >= 0 && s.len() > 0 {
        lemma_elem_trigger_free_extend(pre, post, bound, s[0]);
        lemma_seq_trigger_free_extend(pre, post, bound, s.drop_first());
    }
}

/// Appending one element to a sequence is trigger free exactly when
/// both parts are.
pub proof fn lemma_trigger_free_push(
    state: FormatState,
    bound: int,
    s: Seq<FormatElement>,
    e: FormatElement,
)
    requires
        bound >= 0,
    ensures
        seq_trigger_free(state, bound, s.push(e)) == (seq_trigger_free(state, bound, s)
            && elem_trigger_free(state, bound, e)),
    decreases s.len(),
{
    if s.len() == 0 {
        assert(s.push(e).drop_first() =~= s);
    } else {
        assert(s.push(e).drop_first() =~= s.drop_first().push(e));
        lemma_trigger_free_push(state, bound, s.drop_first(), e);
    }
}

/// Trigger freedom under a bound still holds under any larger bound.
pub proof fn lemma_trigger_free_widen(
    state: FormatState,
    bound1: int,
    bound2: int,
    s: Seq<FormatElement>,
)
    requires
        0 <= bound1 <= bound2,
        seq_trigger_free(state, bound1, s),
    ensures
        seq_trigger_free(state, bound2, s),
    decreases s.len(),
{
    if s.len() > 0 {
        assert(elem_trigger_free(state, bound1, s[0]) && seq_trigger_free(
            state,
            bound1,
            s.drop_first(),
        ));
        match s[0] {
            FormatElement::Interned(id) => {
                assert(0 <= id < bound1);
                assert(elem_trigger_free(state, bound2, s[0]));
            },
            _ => {
                assert(elem_trigger_free(state, bound2, s[0]));
            },
        }
        lemma_trigger_free_widen(state, bound1, bound2, s.drop_first());
    }
}

/// The full expansion size of one element: how much work remains when it
/// sits on the canonicalizer's stack. Used as the termination measure.
pub open spec fn elem_size(state: FormatState, bound: int, e: FormatElement) -> nat
    decreases bound, 0int, 1int,
{
    match e {
        FormatElement::Interned(id) => if 0 <= id < bound {
            1 + seq_size(state, id as int, state.interns()[id as int])
        } else {
            1
        },
        FormatElement::BestFitting(b) => if 0 <= b < state.best_fittings().len()
            && state.best_fittings()[b as int].len() >= 1 && 0 <= state.best_fittings()[
            b as int
        ][0] < bound {
            1 + seq_size(
                state,
                state.best_fittings()[b as int][0] as int,
                state.interns()[state.best_fittings()[b as int][0] as int],
            )
        } else {
            1
        },
        _ => 1,
    }
}

/// The summed expansion size of a sequence of elements.
pub open spec fn seq_size(state: FormatState, bound: int, s: Seq<FormatElement>) -> nat
    decreases bound, s.len(), 0int,
{
    if bound < 0 {
        0
    } else if s.len() == 0 {
        0
    } else {
        elem_size(state, bound, s[0]) + seq_size(state, bound, s.drop_first())
    }
}

/// Appending one element adds exactly its size to a sequence's size.
pub proof fn lemma_seq_size_push(
    state: FormatState,
    bound: int,
    s: Seq<FormatElement>,
    e: FormatElement,
)
    requires
        bound >= 0,
    ensures
        seq_size(state, bound, s.push(e)) == seq_size(state, bound, s) + elem_size(
            state,
            bound,
            e,
        ),
    decreases s.len(),
{
    if s.len() == 0 {
        assert(s.push(e).drop_first() =~= s);
    } else {
        assert(s.push(e).drop_first() =~= s.drop_first().push(e));
        lemma_seq_size_push(state, bound, s.drop_first(), e);
    }
}

/// An element's size does not depend on the bound, as long as the bound
/// admits the ids the element references.
pub proof fn lemma_elem_size_bound(
    state: FormatState,
    bound1: int,
    bound2: int,
    e: FormatElement,
)
    requires
        state.elem_wf(bound1, e),
        state.elem_wf(bound2, e),
    ensures
        elem_size(state, bound1, e) == elem_size(state, bound2, e),
{
}

/// The canonicalization cache is well formed: every key is a registered
/// subtree id mapped to a registered id, every stored rewrite is itself
/// canonical — trigger free, recursively — and a subtree that needs no
/// rewrite is mapped to itself (identity is preserved).
#[verifier::opaque]
pub open spec fn cache_wf(state: FormatState, cache: Map<usize, usize>) -> bool {
    forall|k: usize| #[trigger] cache.contains_key(k) ==> {
        &&& 0 <= k < state.interns().len()
        &&& 0 <= cache[k] < state.interns().len()
        &&& seq_trigger_free(state, cache[k] as int, state.interns()[cache[k] as int])
        &&& (seq_trigger_free(state, k as int, state.interns()[k as int]) ==> cache[k] == k)
    }
}

/// Every entry of the first cache is in the second, unchanged: the
/// cache only ever gains entries.
pub open spec fn cache_le(pre: Map<usize, usize>, post: Map<usize, usize>) -> bool {
    forall|k: usize| #[trigger] pre.contains_key(k) ==> post.contains_key(k) && post[k] == pre[k]
}

/// A well-formed cache stays well formed when the state grows.
pub proof fn lemma_cache_wf_extend(pre: FormatState, post: FormatState, cache: Map<usize, usize>)
    requires
        cache_wf(pre, cache),
        pre.extended_by(post),
    ensures
        cache_wf(post, cache),
{
    reveal(cache_wf);
    assert forall|k: usize| #[trigger] cache.contains_key(k) implies {
        &&& 0 <= k < post.interns().len()
        &&& 0 <= cache[k] < post.interns().len()
        &&& seq_trigger_free(post, cache[k] as int, post.interns()[cache[k] as int])
        &&& (seq_trigger_free(post, k as int, post.interns()[k as int]) ==> cache[k] == k)
    } by {
        assert(pre.interns()[k as int] == post.interns()[k as int]);
        lemma_seq_trigger_free_extend(pre, post, k as int, pre.interns()[k as int]);
        assert(pre.interns()[cache[k] as int] == post.interns()[cache[k] as int]);
        lemma_seq_trigger_free_extend(
            pre,
            post,
            cache[k] as int,
            pre.interns()[cache[k] as int],
        );
    }
}

/// Copies a vector of elements.
fn copy_elements(v: &Vec<FormatElement>) -> (r: Vec<FormatElement>)
    ensures
        r@ == v@,
{
    let n = v.len();
    let mut r: Vec<FormatElement> = Vec::new();
    let mut i: usize = 0;
    while i < n
        invariant
            n == v@.len(),
            0 <= i <= n,
            r@ == v@.take(i as int),
        decreases n - i,
    {
        let e = v[i];
        r.push(e);
        proof {
            assert(r@ =~= v@.take(i + 1));
        }
        i += 1;
    }
    proof {
        assert(r@ =~= v@);
    }
    r
}

/// Whether the innermost open condition on the stack is expanded.
fn expanded_now(stack: &Vec<Condition>) -> (r: bool)
    ensures
        r == expanded_top(stack@),
{
    let n = stack.len();
    if n == 0 {
        false
    } else {
        let top = stack[n - 1];
        match top.mode {
            PrintMode::Expanded => true,
            PrintMode::Flat => false,
        }
    }
}

/// Removes the soft line breaks from the shared subtree with the given
/// id, memoized: on a cache hit nothing is re-scanned and nothing
/// changes; a subtree that is trigger free comes back as itself, by
/// identity; otherwise a rewritten subtree is registered and the cache
/// learns the pair. The conditional-content stack is shared with the
/// caller, as the subtree may open or close regions.
fn clean_interned(
    state: &mut FormatState,
    cache: &mut InternCache,
    stack: &mut Vec<Condition>,
    scans: &mut usize,
    id: usize,
) -> (r: usize)
    requires
        old(state).wf(),
        0 <= id < old(state).interns().len(),
        cache_wf(*old(state), old(cache)@),
    ensures
        final(state).wf(),
        old(state).extended_by(*final(state)),
        cache_wf(*final(state), final(cache)@),
        cache_le(old(cache)@, final(cache)@),
        0 <= r < final(state).interns().len(),
        final(cache)@.contains_key(id) && final(cache)@[id] == r,
        *final(scans) >= *old(scans),
        old(cache)@.contains_key(id) ==> r == old(cache)@[id] && *final(state) == *old(state)
            && final(cache)@ == old(cache)@ && final(stack)@ == old(stack)@ && *final(scans)
            == *old(scans),
        seq_trigger_free(*old(state), id as int, old(state).interns()[id as int]) ==> r == id
            && *final(state) == *old(state) && final(stack)@ == old(stack)@,
        (!old(cache)@.contains_key(id) && !expanded_top(old(stack)@) && seq_tag_free_flat(
            old(state).interns()[id as int],
        )) ==> final(stack)@ == old(stack)@ && final(state).interns()[r as int]
            == flat_canon_seq(old(stack)@, old(state).interns()[id as int]).0,
        seq_trigger_free(*final(state), r as int, final(state).interns()[r as int]),
        r == id ==> *final(state) == *old(state) && final(stack)@ == old(stack)@,
        !old(cache)@.contains_key(id) ==> exists|i: int|
            0 <= i <= old(state).interns()[id as int].len() && seq_trigger_free(
                *final(state),
                id as int,
                old(state).interns()[id as int].take(i),
            ) && #[trigger] old(state).interns()[id as int].take(i).is_prefix_of(
                final(state).interns()[r as int],
            ) && (i < old(state).interns()[id as int].len() ==> !elem_trigger_free(
                *final(state),
                id as int,
                old(state).interns()[id as int][i],
            )),
    decreases id,
{
    if let Some(cached) = cache_get(cache, id) {
        proof {
            reveal(cache_wf);
        }
        return cached;
    }
    *scans = if *scans == usize::MAX {
        usize::MAX
    } else {
        *scans + 1
    };
    let ghost s0 = *state;
    let ghost st0 = stack@;
    let ghost c0 = cache@;
    let ghost sc0 = *scans;
    let entry = copy_elements(state.interned(id));
    let n = entry.len();
    // Scan for the first element that forces a rewrite.
    let mut j: usize = 0;
    let mut found = false;
    let mut replaced: Option<usize> = None;
    while j < n && !found
        invariant
            n == entry@.len(),
            entry@ == s0.interns()[id as int],
            0 <= j <= n,
            0 <= id < s0.interns().len(),
            s0.wf(),
            state.wf(),
            s0.extended_by(*state),
            cache_wf(*state, cache@),
            cache_le(c0, cache@),
            *scans >= sc0,
            seq_trigger_free(s0, id as int, entry@) ==> (!found && *state == s0 && stack@
                == st0),
            seq_trigger_free(*state, id as int, entry@.take(j as int)),
            !found ==> (*state == s0 && stack@ == st0),
            (!expanded_top(st0) && seq_tag_free_flat(entry@)) ==> (*state == s0 && stack@
                == st0),
            (!expanded_top(st0) && seq_tag_free_flat(entry@)) ==> seq_plain(
                entry@.take(j as int),
            ),
            found ==> j < n && !seq_trigger_free(s0, id as int, entry@),
            found ==> !elem_trigger_free(*state, id as int, entry@[j as int]),
            replaced matches Some(ci) ==> (found && (entry@[j as int] matches
                FormatElement::Interned(inner)) && 0 <= ci < state.interns().len()
                && seq_trigger_free(*state, ci as int, state.interns()[ci as int])),
            !found ==> replaced is None,
        decreases n - j + (if found { 0int } else { 1int }),
    {
        let e = entry[j];
        proof {
            assert(s0.seq_wf(id as int, entry@));
            assert(s0.elem_wf(id as int, entry@[j as int]));
        }
        match e {
            FormatElement::Line(LineMode::Soft) => {
                found = true;
                proof {
                    if seq_trigger_free(s0, id as int, entry@) {
                        lemma_trigger_free_index(s0, id as int, entry@, j as int);
                    }
                }
            },
            FormatElement::Line(LineMode::SoftOrSpace) => {
                found = true;
                proof {
                    if seq_trigger_free(s0, id as int, entry@) {
                        lemma_trigger_free_index(s0, id as int, entry@, j as int);
                    }
                }
            },
            FormatElement::Tag(_) => {
                found = true;
                proof {
                    if seq_trigger_free(s0, id as int, entry@) {
                        lemma_trigger_free_index(s0, id as int, entry@, j as int);
                    }
                }
            },
            FormatElement::BestFitting(_) => {
                found = true;
                proof {
                    if seq_trigger_free(s0, id as int, entry@) {
                        lemma_trigger_free_index(s0, id as int, entry@, j as int);
                    }
                }
            },
            FormatElement::Interned(inner) => {
                let ghost mid_state = *state;
                let cleaned_inner = clean_interned(state, cache, stack, scans, inner);
                proof {
                    crate::buffer::lemma_extends_trans(s0, mid_state, *state);
                    if !expanded_top(st0) && seq_tag_free_flat(entry@) {
                        assert(elem_flat(entry@[j as int]));
                        assert(false);
                    }
                    if seq_trigger_free(s0, id as int, entry@) {
                        lemma_trigger_free_index(s0, id as int, entry@, j as int);
                        assert(elem_trigger_free(s0, id as int, FormatElement::Interned(inner)));
                        assert(seq_trigger_free(s0, inner as int, s0.interns()[inner as int]));
                        assert(mid_state == s0);
                        assert(cleaned_inner == inner);
                    }
                }
                if cleaned_inner != inner {
                    found = true;
                    replaced = Some(cleaned_inner);
                    proof {
                        lemma_seq_trigger_free_extend(
                            mid_state,
                            *state,
                            id as int,
                            entry@.take(j as int),
                        );
                        assert(!elem_trigger_free(*state, id as int, e)) by {
                            if elem_trigger_free(*state, id as int, e) {
                                lemma_seq_trigger_free_extend(
                                    mid_state,
                                    *state,
                                    inner as int,
                                    mid_state.interns()[inner as int],
                                );
                            }
                        }
                    }
                } else {
                    proof {
                        assert(*state == mid_state);
                        assert(elem_trigger_free(*state, id as int, e)) by {
                            assert(seq_trigger_free(
                                *state,
                                cleaned_inner as int,
                                state.interns()[cleaned_inner as int],
                            ));
                        }
                        lemma_trigger_free_push(*state, id as int, entry@.take(j as int), e);
                        assert(entry@.take(j + 1) =~= entry@.take(j as int).push(e));
                    }
                    j += 1;
                }
            },
            _ => {
                proof {
                    lemma_trigger_free_push(*state, id as int, entry@.take(j as int), e);
                    assert(entry@.take(j + 1) =~= entry@.take(j as int).push(e));
                    if !expanded_top(st0) && seq_tag_free_flat(entry@) {
                        assert(entry@.take(j + 1) =~= entry@.take(j as int).push(
                            entry@[j as int],
                        ));
                        assert(seq_plain(entry@.take(j + 1))) by {
                            assert forall|t: int| 0 <= t < j + 1 implies crate::element::elem_plain(
                                #[trigger] entry@.take(j + 1)[t],
                            ) by {
                                if t < j {
                                    assert(entry@.take(j + 1)[t] == entry@.take(j as int)[t]);
                                }
                            }
                        }
                    }
                }
                j += 1;
            },
        }
    }
    if !found {
        // No change necessary: keep the existing subtree, by identity.
        let ghost c1 = cache@;
        cache_insert(cache, id, id);
        proof {
            reveal(cache_wf);
            assert(entry@.take(n as int) =~= entry@);
            assert(seq_trigger_free(*state, id as int, state.interns()[id as int]));
            assert forall|k: usize| #[trigger] cache@.contains_key(k) implies {
                &&& 0 <= k < state.interns().len()
                &&& 0 <= cache@[k] < state.interns().len()
                &&& seq_trigger_free(*state, cache@[k] as int, state.interns()[cache@[k] as int])
                &&& (seq_trigger_free(*state, k as int, state.interns()[k as int])
                    ==> cache@[k] == k)
            } by {
                if k != id {
                    assert(c1.contains_key(k) && cache@[k] == c1[k]);
                }
            }
            if !expanded_top(st0) && seq_tag_free_flat(entry@) {
                assert(entry@.take(n as int) =~= entry@);
                assert(seq_flat(entry@));
                lemma_plain_forwarded(st0, entry@);
            }
            // The untouched prefix clause: the whole input was kept.
            assert(entry@.take(n as int) =~= entry@);
            crate::buffer::lemma_prefix_refl(entry@);
            assert(0 <= n as int <= entry@.len() && seq_trigger_free(
                *state,
                id as int,
                entry@.take(n as int),
            ) && entry@.take(n as int).is_prefix_of(state.interns()[id as int]));
        }
        return id;
    }
    // Copy the prefix that needs no change, then rewrite the rest with
    // an explicit work stack.
    let ghost s_scan = *state;
    proof {
        crate::buffer::lemma_extends_refl(s_scan);
    }
    let mut cleaned: Vec<FormatElement> = Vec::new();
    let mut p: usize = 0;
    while p < j
        invariant
            0 <= p <= j <= n,
            n == entry@.len(),
            entry@ == s0.interns()[id as int],
            0 <= id < s0.interns().len(),
            s0.wf(),
            cleaned@ == entry@.take(p as int),
        decreases j - p,
    {
        let e = entry[p];
        cleaned.push(e);
        proof {
            assert(cleaned@ =~= entry@.take(p + 1));
        }
        p += 1;
    }
    let rest_start: usize;
    match replaced {
        Some(cleaned_inner) => {
            cleaned.push(FormatElement::Interned(cleaned_inner));
            rest_start = j + 1;
        },
        None => {
            rest_start = j;
        },
    }
    proof {
        assert(seq_trigger_free(*state, state.interns().len() as int, cleaned@)) by {
            lemma_trigger_free_widen(
                *state,
                id as int,
                state.interns().len() as int,
                entry@.take(j as int),
            );
            match replaced {
                Some(ci) => {
                    lemma_trigger_free_push(
                        *state,
                        state.interns().len() as int,
                        entry@.take(j as int),
                        FormatElement::Interned(ci),
                    );
                    assert(cleaned@ =~= entry@.take(j as int).push(FormatElement::Interned(ci)));
                },
                None => {
                    assert(cleaned@ == entry@.take(j as int));
                },
            }
        }
        assert(state.seq_wf(state.interns().len() as int, cleaned@)) by {
            assert forall|t: int| 0 <= t < cleaned@.len() implies state.elem_wf(
                state.interns().len() as int,
                #[trigger] cleaned@[t],
            ) by {
                if t < j {
                    assert(cleaned@[t] == entry@[t]);
                    assert(s0.elem_wf(id as int, entry@[t]));
                    crate::state::lemma_elem_wf_extend(
                        s0,
                        *state,
                        id as int,
                        state.interns().len() as int,
                        entry@[t],
                    );
                }
            }
        }
    }
    let mut work: Vec<FormatElement> = Vec::new();
    let mut k = n;
    while k > rest_start
        invariant
            rest_start <= k <= n,
            n == entry@.len(),
            entry@ == s0.interns()[id as int],
            0 <= id < s0.interns().len(),
            s0.wf(),
            work@ == entry@.subrange(k as int, n as int).reverse(),
        decreases k,
    {
        k -= 1;
        let e = entry[k];
        work.push(e);
        proof {
            assert(work@ =~= entry@.subrange(k as int, n as int).reverse());
        }
    }
    let ghost mut pending = entry@.subrange(rest_start as int, n as int);
    let ghost tail_flat = !expanded_top(st0) && seq_tag_free_flat(entry@);
    proof {
        assert(entry@.take(j as int).is_prefix_of(cleaned@)) by {
            match replaced {
                Some(ci) => {
                    crate::buffer::lemma_prefix_refl(entry@.take(j as int));
                    crate::buffer::lemma_prefix_push(
                        entry@.take(j as int),
                        entry@.take(j as int),
                        FormatElement::Interned(ci),
                    );
                    assert(cleaned@ =~= entry@.take(j as int).push(FormatElement::Interned(ci)));
                },
                None => {
                    crate::buffer::lemma_prefix_refl(cleaned@);
                },
            }
        }
        assert forall|t: int| 0 <= t < work@.len() implies s0.elem_wf(
            id as int,
            #[trigger] work@[t],
        ) by {
            assert(work@[t] == entry@[n - 1 - t]);
            assert(s0.elem_wf(id as int, entry@[n - 1 - t]));
        }
        assert(pending =~= work@.reverse());
        if tail_flat {
            // The trigger was a soft line, so the whole prefix was kept
            // verbatim, and the canonical form splits around it.
            assert(replaced is None);
            assert(rest_start == j);
            assert(cleaned@ == entry@.take(j as int));
            assert(seq_flat(entry@.take(j as int))) by {
                assert forall|t: int| 0 <= t < j implies elem_flat(
                    #[trigger] entry@.take(j as int)[t],
                ) by {
                    assert(entry@.take(j as int)[t] == entry@[t]);
                }
            }
            lemma_plain_forwarded(st0, entry@.take(j as int));
            lemma_flat_canon_app(st0, entry@.take(j as int), pending);
            assert(entry@.take(j as int) + pending =~= entry@);
            assert(seq_tag_free_flat(pending)) by {
                assert forall|t: int| 0 <= t < pending.len() implies elem_flat(
                    #[trigger] pending[t],
                ) && !(pending[t] is Tag) by {
                    assert(pending[t] == entry@[rest_start + t]);
                }
            }
            assert(cleaned@ + flat_canon_seq(st0, pending).0 == flat_canon_seq(st0, entry@).0);
        }
    }
    while work.len() > 0
        invariant
            s0.wf(),
            0 <= id < s0.interns().len(),
            state.wf(),
            s0.extended_by(*state),
            cache_wf(*state, cache@),
            cache_le(c0, cache@),
            *scans >= sc0,
            forall|t: int| 0 <= t < work@.len() ==> s0.elem_wf(id as int, #[trigger] work@[t]),
            state.seq_wf(state.interns().len() as int, cleaned@),
            seq_trigger_free(*state, state.interns().len() as int, cleaned@),
            entry@.take(j as int).is_prefix_of(cleaned@),
            found && !(replaced is Some) ==> !elem_trigger_free(
                s_scan,
                id as int,
                entry@[j as int],
            ),
            replaced is Some ==> !elem_trigger_free(s_scan, id as int, entry@[j as int]),
            s0.extended_by(s_scan),
            s_scan.extended_by(*state),
            found,
            j < n,
            pending == work@.reverse(),
            tail_flat == (!expanded_top(st0) && seq_tag_free_flat(entry@)),
            tail_flat ==> {
                &&& stack@ == st0
                &&& seq_tag_free_flat(pending)
                &&& cleaned@ + flat_canon_seq(st0, pending).0 == flat_canon_seq(
                    st0,
                    entry@,
                ).0
            },
        decreases seq_size(s0, id as int, work@),
    {
        let ghost work0 = work@;
        let e = match work.pop() {
            Some(e) => e,
            None => {
                proof {
                    assert(false);
                }
                FormatElement::Space
            },
        };
        let ghost pending0 = pending;
        proof {
            assert(work0 =~= work@.push(e));
            lemma_seq_size_push(s0, id as int, work@, e);
            assert(s0.elem_wf(id as int, e));
            assert(pending0[0] == e);
            pending = pending.drop_first();
            assert(pending =~= work@.reverse());
            if tail_flat {
                assert(seq_tag_free_flat(pending)) by {
                    assert forall|t: int| 0 <= t < pending.len() implies elem_flat(
                        #[trigger] pending[t],
                    ) && !(pending[t] is Tag) by {
                        assert(pending[t] == pending0[t + 1]);
                    }
                }
            }
        }
        let expanded = expanded_now(stack);
        match e {
            FormatElement::Tag(Tag::StartConditionalContent(condition)) => {
                proof {
                    if tail_flat {
                        assert(!(pending0[0] is Tag));
                        assert(false);
                    }
                }
                stack.push(condition);
            },
            FormatElement::Tag(Tag::EndConditionalContent) => {
                proof {
                    if tail_flat {
                        assert(!(pending0[0] is Tag));
                        assert(false);
                    }
                }
                let _ = stack.pop();
            },
            _ if expanded => {
                proof {
                    if tail_flat {
                        assert(!expanded_top(stack@));
                        assert(false);
                    }
                }
            },
            FormatElement::Line(LineMode::Soft) => {
                proof {
                    if tail_flat {
                        assert(Seq::<FormatElement>::empty() + flat_canon_seq(
                            st0,
                            pending,
                        ).0 =~= flat_canon_seq(st0, pending).0);
                    }
                }
            },
            FormatElement::Line(LineMode::SoftOrSpace) => {
                let ghost cleaned_before = cleaned@;
                cleaned.push(FormatElement::Space);
                proof {
                    assert(state.seq_wf(state.interns().len() as int, cleaned@));
                    lemma_trigger_free_push(
                        *state,
                        state.interns().len() as int,
                        cleaned_before,
                        FormatElement::Space,
                    );
                    assert(cleaned@ =~= cleaned_before.push(FormatElement::Space));
                    crate::buffer::lemma_prefix_push(
                        entry@.take(j as int),
                        cleaned_before,
                        FormatElement::Space,
                    );
                    if tail_flat {
                        assert(cleaned@ + flat_canon_seq(st0, pending).0
                            =~= cleaned@.drop_last() + (seq![FormatElement::Space]
                            + flat_canon_seq(st0, pending).0));
                    }
                }
            },
            FormatElement::Interned(inner) => {
                proof {
                    if tail_flat {
                        assert(elem_flat(pending0[0]));
                        assert(false);
                    }
                }
                let ghost mid_state = *state;
                let ghost cleaned_before = cleaned@;
                proof {
                    assert(seq_trigger_free(
                        mid_state,
                        mid_state.interns().len() as int,
                        cleaned_before,
                    ));
                }
                let cleaned_inner = clean_interned(state, cache, stack, scans, inner);
                cleaned.push(FormatElement::Interned(cleaned_inner));
                proof {
                    crate::buffer::lemma_extends_trans(s0, mid_state, *state);
                    crate::state::lemma_seq_wf_extend(
                        mid_state,
                        *state,
                        mid_state.interns().len() as int,
                        state.interns().len() as int,
                        cleaned_before,
                    );
                    assert(cleaned@ =~= cleaned_before.push(
                        FormatElement::Interned(cleaned_inner),
                    ));
                    lemma_seq_trigger_free_extend(
                        mid_state,
                        *state,
                        mid_state.interns().len() as int,
                        cleaned_before,
                    );
                    lemma_trigger_free_widen(
                        *state,
                        mid_state.interns().len() as int,
                        state.interns().len() as int,
                        cleaned_before,
                    );
                    lemma_trigger_free_push(
                        *state,
                        state.interns().len() as int,
                        cleaned_before,
                        FormatElement::Interned(cleaned_inner),
                    );
                    crate::buffer::lemma_prefix_push(
                        entry@.take(j as int),
                        cleaned_before,
                        FormatElement::Interned(cleaned_inner),
                    );
                    assert(state.seq_wf(state.interns().len() as int, cleaned@));
                }
            },
            FormatElement::BestFitting(b) => {
                proof {
                    if tail_flat {
                        assert(elem_flat(pending0[0]));
                        assert(false);
                    }
                    assert(s0.elem_wf(id as int, FormatElement::BestFitting(b)));
                    assert(s0.best_fittings()[b as int] == state.best_fittings()[b as int]);
                }
                let variants = state.best_fitting_variants(b);
                let most_flat = variants[0];
                proof {
                    assert(most_flat == s0.best_fittings()[b as int][0]);
                    assert(0 <= most_flat < id);
                    assert(s0.interns()[most_flat as int] == state.interns()[
                        most_flat as int
                    ]);
                }
                let variant_elems = copy_elements(state.interned(most_flat));
                let ghost base = work@;
                let m = variant_elems.len();
                let mut q = m;
                while q > 0
                    invariant
                        0 <= q <= m,
                        m == variant_elems@.len(),
                        work@ == base + variant_elems@.subrange(q as int, m as int).reverse(),
                    decreases q,
                {
                    q -= 1;
                    let ve = variant_elems[q];
                    work.push(ve);
                    proof {
                        assert(work@ =~= base + variant_elems@.subrange(
                            q as int,
                            m as int,
                        ).reverse());
                    }
                }
                proof {
                    assert(variant_elems@.subrange(0, m as int) =~= variant_elems@);
                    assert(work@ == base + variant_elems@.reverse());
                    pending = variant_elems@ + pending;
                    assert(pending =~= work@.reverse());
                    assert(variant_elems@ == s0.interns()[most_flat as int]);
                    // Every pushed element is well formed under the old
                    // bound, and the measure strictly shrinks: the
                    // variant's summed size is below the group's size.
                    assert(s0.seq_wf(most_flat as int, variant_elems@));
                    assert forall|t: int| 0 <= t < work@.len() implies s0.elem_wf(
                        id as int,
                        #[trigger] work@[t],
                    ) by {
                        if t < base.len() {
                            assert(work@[t] == base[t]);
                        } else {
                            assert(work@[t] == variant_elems@.reverse()[t - base.len()]);
                            assert(s0.elem_wf(
                                most_flat as int,
                                variant_elems@[m - 1 - (t - base.len())],
                            ));
                            crate::state::lemma_elem_wf_extend(
                                s0,
                                s0,
                                most_flat as int,
                                id as int,
                                variant_elems@[m - 1 - (t - base.len())],
                            );
                        }
                    }
                    lemma_seq_size_reverse_append(s0, id as int, base, variant_elems@);
                    lemma_seq_size_same_bound(s0, most_flat as int, id as int, variant_elems@);
                    assert(elem_size(s0, id as int, e) == 1 + seq_size(
                        s0,
                        most_flat as int,
                        variant_elems@,
                    ));
                }
            },
            _ => {
                let ghost cleaned_before = cleaned@;
                cleaned.push(e);
                proof {
                    assert(state.seq_wf(state.interns().len() as int, cleaned@));
                    lemma_trigger_free_push(
                        *state,
                        state.interns().len() as int,
                        cleaned_before,
                        e,
                    );
                    assert(cleaned@ =~= cleaned_before.push(e));
                    crate::buffer::lemma_prefix_push(entry@.take(j as int), cleaned_before, e);
                    if tail_flat {
                        assert(cleaned@ + flat_canon_seq(st0, pending).0
                            =~= cleaned@.drop_last() + (seq![e] + flat_canon_seq(
                            st0,
                            pending,
                        ).0));
                    }
                }
            },
        }
    }
    proof {
        if tail_flat {
            assert(pending =~= Seq::<FormatElement>::empty());
            assert(cleaned@ + Seq::<FormatElement>::empty() =~= cleaned@);
            assert(cleaned@ == flat_canon_seq(st0, entry@).0);
        }
    }
    let ghost pre_intern_state = *state;
    let ghost cleaned_view = cleaned@;
    proof {
        assert(seq_trigger_free(
            pre_intern_state,
            pre_intern_state.interns().len() as int,
            cleaned_view,
        ));
    }
    let new_id = state.intern(cleaned);
    proof {
        lemma_cache_wf_extend(pre_intern_state, *state, cache@);
        crate::buffer::lemma_extends_trans(s0, pre_intern_state, *state);
    }
    let ghost c2 = cache@;
    cache_insert(cache, id, new_id);
    proof {
        reveal(cache_wf);
        assert(!seq_trigger_free(s0, id as int, entry@));
        lemma_seq_trigger_free_extend(s0, *state, id as int, entry@);
        assert(state.interns()[id as int] == s0.interns()[id as int]);
        assert(state.interns()[new_id as int] == cleaned_view);
        lemma_seq_trigger_free_extend(pre_intern_state, *state, new_id as int, cleaned_view);
        assert(seq_trigger_free(*state, new_id as int, state.interns()[new_id as int]));
        assert(new_id != id);
        // The untouched prefix clause, witnessed by the trigger index.
        lemma_seq_trigger_free_extend(s_scan, pre_intern_state, id as int, entry@.take(j as int));
        lemma_seq_trigger_free_extend(pre_intern_state, *state, id as int, entry@.take(j as int));
        crate::buffer::lemma_prefix_trans(
            entry@.take(j as int),
            cleaned_view,
            state.interns()[new_id as int],
        );
        lemma_elem_trigger_free_extend(s_scan, pre_intern_state, id as int, entry@[j as int]);
        lemma_elem_trigger_free_extend(pre_intern_state, *state, id as int, entry@[j as int]);
        assert(0 <= j <= entry@.len() && seq_trigger_free(
            *state,
            id as int,
            entry@.take(j as int),
        ) && entry@.take(j as int).is_prefix_of(state.interns()[new_id as int]) && (j
            < entry@.len() ==> !elem_trigger_free(*state, id as int, entry@[j as int])));
        assert forall|kk: usize| #[trigger] cache@.contains_key(kk) implies {
            &&& 0 <= kk < state.interns().len()
            &&& 0 <= cache@[kk] < state.interns().len()
            &&& seq_trigger_free(*state, cache@[kk] as int, state.interns()[cache@[kk] as int])
            &&& (seq_trigger_free(*state, kk as int, state.interns()[kk as int])
                ==> cache@[kk] == kk)
        } by {
            if kk == id {
                assert(!seq_trigger_free(*state, id as int, state.interns()[id as int]));
            } else {
                assert(c2.contains_key(kk) && cache@[kk] == c2[kk]);
            }
        }
    }
    new_id
}

/// The size of a stack with a reversed sequence appended is the two
/// sizes added: size is a sum, indifferent to order.
pub proof fn lemma_seq_size_reverse_append(
    state: FormatState,
    bound: int,
    base: Seq<FormatElement>,
    v: Seq<FormatElement>,
)
    requires
        bound >= 0,
    ensures
        seq_size(state, bound, base + v.reverse()) == seq_size(state, bound, base) + seq_size(
            state,
            bound,
            v,
        ),
    decreases v.len(),
{
    if v.len() == 0 {
        assert(base + v.reverse() =~= base);
    } else {
        assert(v.reverse() =~= seq![v[v.len() - 1]] + v.drop_last().reverse());
        assert(base + v.reverse() =~= (base.push(v[v.len() - 1])) + v.drop_last().reverse());
        lemma_seq_size_reverse_append(state, bound, base.push(v[v.len() - 1]), v.drop_last());
        lemma_seq_size_push(state, bound, base, v[v.len() - 1]);
        lemma_seq_size_push(state, bound, v.drop_last(), v[v.len() - 1]);
        assert(v =~= v.drop_last().push(v[v.len() - 1]));
    }
}

/// Sizes agree across bounds that both admit every id the sequence
/// references.
pub proof fn lemma_seq_size_same_bound(
    state: FormatState,
    bound1: int,
    bound2: int,
    s: Seq<FormatElement>,
)
    requires
        0 <= bound1,
        0 <= bound2,
        state.seq_wf(bound1, s),
        state.seq_wf(bound2, s),
    ensures
        seq_size(state, bound1, s) == seq_size(state, bound2, s),
    decreases s.len(),
{
    if s.len() > 0 {
        lemma_elem_size_bound(state, bound1, bound2, s[0]);
        assert(state.seq_wf(bound1, s.drop_first())) by {
            assert forall|t: int| 0 <= t < s.drop_first().len() implies state.elem_wf(
                bound1,
                #[trigger] s.drop_first()[t],
            ) by {
                assert(s.drop_first()[t] == s[t + 1]);
            }
        }
        assert(state.seq_wf(bound2, s.drop_first())) by {
            assert forall|t: int| 0 <= t < s.drop_first().len() implies state.elem_wf(
                bound2,
                #[trigger] s.drop_first()[t],
            ) by {
                assert(s.drop_first()[t] == s[t + 1]);
            }
        }
        lemma_seq_size_same_bound(state, bound1, bound2, s.drop_first());
    }
}

/// Cache growth is transitive.
pub proof fn lemma_cache_le_trans(a: Map<usize, usize>, b: Map<usize, usize>, c: Map<
    usize,
    usize,
>)
    requires
        cache_le(a, b),
        cache_le(b, c),
    ensures
        cache_le(a, c),
{
}

/// A buffer that removes any soft line breaks before forwarding to a
/// wrapped sink, simulating infinite print width.
///
/// * Soft lines are removed; soft-or-space lines become a space.
/// * Content inside a conditional region gated to the expanded mode is
///   dropped entirely; a matching compact variant is kept.
/// * A best-fitting group is resolved to its most compact variant.
/// * A shared subtree is rewritten through [`clean_interned`], once per
///   identity, and forwarded as a (possibly different) subtree
///   reference.
pub struct RemoveSoftLinesBuffer<B> {
    inner: B,
    /// Caches the interned elements after soft line breaks have been
    /// removed, keyed by the identity (id) of the original subtree. It
    /// is fine not to snapshot the cache: the worst that can happen is
    /// that it holds subtrees that are now unused.
    interned_cache: InternCache,
    /// The open conditional regions, innermost last, used to decide
    /// whether the current element sits in expanded-only content.
    conditional_content_stack: Vec<Condition>,
    /// How many subtree scans the canonicalizer has performed: a cache
    /// hit performs none.
    scans: usize,
}

impl<B: Buffer> RemoveSoftLinesBuffer<B> {
    /// The wrapped sink.
    pub closed spec fn inner_buf(&self) -> B {
        self.inner
    }

    /// The memo cache, as a map from subtree id to rewritten id.
    pub closed spec fn cache_view(&self) -> Map<usize, usize> {
        self.interned_cache@
    }

    /// The open conditional regions, innermost last.
    pub closed spec fn stack_view(&self) -> Seq<Condition> {
        self.conditional_content_stack@
    }

    /// How many subtree scans have been performed.
    pub closed spec fn scans_spec(&self) -> int {
        self.scans as int
    }

    /// Creates a buffer that removes the soft line breaks before
    /// writing them into `inner`.
    pub fn new(inner: B) -> (r: Self)
        ensures
            r.inner_buf() == inner,
            r.cache_view().dom() == Set::<usize>::empty(),
            r.stack_view() == Seq::<Condition>::empty(),
            r.scans_spec() == 0,
    {
        Self {
            inner,
            interned_cache: cache_new(),
            conditional_content_stack: Vec::new(),
            scans: 0,
        }
    }

    /// How many subtree scans the canonicalizer has performed so far.
    /// A repeated reference to an already-rewritten subtree does not
    /// scan again.
    pub fn scan_count(&self) -> (r: usize)
        ensures
            r as int == self.scans_spec(),
    {
        self.scans
    }

    /// Consumes the decorator and hands the wrapped sink back.
    pub fn into_inner(self) -> (r: B)
        ensures
            r == self.inner_buf(),
    {
        self.inner
    }

    /// Whether a start-of-conditional-content marker gated to the
    /// expanded mode has been written but not yet closed.
    fn is_in_expanded_conditional_content(&self) -> (r: bool)
        ensures
            r == expanded_top(self.stack_view()),
    {
        expanded_now(&self.conditional_content_stack)
    }
}

impl<B: Buffer> Buffer for RemoveSoftLinesBuffer<B> {
    open spec fn elems(&self) -> Seq<FormatElement> {
        self.inner_buf().elems()
    }

    open spec fn inv(&self, state: FormatState) -> bool {
        &&& self.inner_buf().inv(state)
        &&& cache_wf(state, self.cache_view())
    }

    open spec fn snap_shape(&self, snapshot: BufferSnapshot) -> bool {
        self.inner_buf().snap_shape(snapshot)
    }

    open spec fn snap_saved(&self, snapshot: BufferSnapshot) -> bool {
        self.inner_buf().snap_saved(snapshot)
    }

    /// What one write does. The cache only grows and scans only count
    /// up. A flat element is forwarded as its canonical form under the
    /// current conditional-content stack. A best-fitting group whose
    /// most compact variant is flat forwards that variant's canonical
    /// form. A shared subtree under a non-expanded top is rewritten and
    /// forwarded as a subtree reference: by identity if it was already
    /// canonical, from the cache — without scanning — if it was seen
    /// before. Anything under an expanded top, markers aside, is
    /// dropped without a trace.
    open spec fn write_post(
        pre: Self,
        post: Self,
        pre_state: FormatState,
        post_state: FormatState,
        element: FormatElement,
        r: Result<(), FormatError>,
    ) -> bool {
        &&& cache_le(pre.cache_view(), post.cache_view())
        &&& post.scans_spec() >= pre.scans_spec()
        &&& (r is Err ==> exists|mid: B, mid_state: FormatState, x: FormatElement|
            #[trigger] B::write_post(mid, post.inner_buf(), mid_state, post_state, x, r))
        &&& (r is Ok ==> exists|ws: Seq<FormatElement>|
            #[trigger] wrote_seq_interleaved(
                pre.inner_buf(),
                pre_state,
                post.inner_buf(),
                post_state,
                ws,
            ) && seq_trigger_free(post_state, post_state.interns().len() as int, ws))
        &&& (elem_flat(element) ==> {
            &&& post.cache_view() == pre.cache_view()
            &&& post.scans_spec() == pre.scans_spec()
            &&& (r is Ok ==> wrote_seq(
                pre.inner_buf(),
                pre_state,
                post.inner_buf(),
                post_state,
                flat_canon_elem(pre.stack_view(), element).0,
            ) && post.stack_view() == flat_canon_elem(pre.stack_view(), element).1)
        })
        &&& (expanded_top(pre.stack_view()) && !(element is Tag)) ==> {
            &&& r is Ok
            &&& post == pre
            &&& post_state == pre_state
        }
        &&& match element {
            FormatElement::BestFitting(b) => (!expanded_top(pre.stack_view()) && 0 <= b
                < pre_state.best_fittings().len() && pre_state.best_fittings()[
                b as int
            ].len() >= 1 && seq_flat(
                pre_state.interns()[pre_state.best_fittings()[b as int][0] as int],
            )) ==> {
                let variant = pre_state.interns()[pre_state.best_fittings()[b as int][
                    0
                ] as int];
                r is Ok ==> wrote_seq(
                    pre.inner_buf(),
                    pre_state,
                    post.inner_buf(),
                    post_state,
                    flat_canon_seq(pre.stack_view(), variant).0,
                ) && post.stack_view() == flat_canon_seq(pre.stack_view(), variant).1
            },
            _ => true,
        }
        &&& match element {
            FormatElement::Interned(id) => !expanded_top(pre.stack_view()) ==> {
                &&& post.cache_view().contains_key(id)
                &&& seq_trigger_free(
                    post_state,
                    post.cache_view()[id] as int,
                    post_state.interns()[post.cache_view()[id] as int],
                )
                &&& (r is Ok ==> exists|mid_state: FormatState|
                    pre_state.extended_by(mid_state) && #[trigger] wrote_seq(
                        pre.inner_buf(),
                        mid_state,
                        post.inner_buf(),
                        post_state,
                        seq![FormatElement::Interned(post.cache_view()[id])],
                    ))
                &&& (pre.cache_view().contains_key(id) ==> {
                    &&& post.cache_view() == pre.cache_view()
                    &&& post.scans_spec() == pre.scans_spec()
                    &&& post.stack_view() == pre.stack_view()
                    &&& (r is Ok ==> wrote_seq(
                        pre.inner_buf(),
                        pre_state,
                        post.inner_buf(),
                        post_state,
                        seq![FormatElement::Interned(pre.cache_view()[id])],
                    ))
                })
                &&& (seq_trigger_free(pre_state, id as int, pre_state.interns()[id as int])
                    ==> {
                    &&& post.stack_view() == pre.stack_view()
                    &&& (r is Ok ==> wrote_seq(
                        pre.inner_buf(),
                        pre_state,
                        post.inner_buf(),
                        post_state,
                        seq![FormatElement::Interned(id)],
                    ))
                })
                &&& ((!pre.cache_view().contains_key(id) && seq_tag_free_flat(
                    pre_state.interns()[id as int],
                )) ==> {
                    &&& post.stack_view() == pre.stack_view()
                    &&& post_state.interns()[post.cache_view()[id] as int]
                        == flat_canon_seq(
                        pre.stack_view(),
                        pre_state.interns()[id as int],
                    ).0
                })
            },
            _ => true,
        }
    }

    /// Restoring forwards to the wrapped sink; the cache, the stack and
    /// the scan count stay as they are.
    open spec fn restore_post(pre: Self, post: Self, snapshot: BufferSnapshot) -> bool {
        &&& B::restore_post(pre.inner_buf(), post.inner_buf(), snapshot)
        &&& post.cache_view() == pre.cache_view()
        &&& post.stack_view() == pre.stack_view()
        &&& post.scans_spec() == pre.scans_spec()
    }

    proof fn inv_extend(&self, pre: FormatState, post: FormatState) {
        self.inner_buf().inv_extend(pre, post);
        lemma_cache_wf_extend(pre, post, self.cache_view());
    }

    #[verifier::rlimit(100)]
    fn write_element(&mut self, state: &mut FormatState, element: FormatElement) -> (r: Result<
        (),
        FormatError,
    >) {
        proof {
            crate::buffer::lemma_extends_refl(*state);
            crate::buffer::lemma_prefix_refl(self.inner.elems());
        }
        let expanded = self.is_in_expanded_conditional_content();
        match element {
            FormatElement::Tag(Tag::StartConditionalContent(condition)) => {
                self.conditional_content_stack.push(condition);
                proof {
                    assert(wrote_seq(
                        old(self).inner_buf(),
                        *old(state),
                        self.inner,
                        *state,
                        Seq::<FormatElement>::empty(),
                    ));
                    assert(wrote_seq_interleaved(
                        old(self).inner_buf(),
                        *old(state),
                        (*self).inner_buf(),
                        *state,
                        Seq::<FormatElement>::empty(),
                    ));
                    assert(Self::write_post(
                        *old(self),
                        *self,
                        *old(state),
                        *state,
                        element,
                        Ok(()),
                    ));
                }
                Ok(())
            },
            FormatElement::Tag(Tag::EndConditionalContent) => {
                let _ = self.conditional_content_stack.pop();
                proof {
                    assert(wrote_seq(
                        old(self).inner_buf(),
                        *old(state),
                        self.inner,
                        *state,
                        Seq::<FormatElement>::empty(),
                    ));
                    assert(wrote_seq_interleaved(
                        old(self).inner_buf(),
                        *old(state),
                        (*self).inner_buf(),
                        *state,
                        Seq::<FormatElement>::empty(),
                    ));
                    assert(Self::write_post(
                        *old(self),
                        *self,
                        *old(state),
                        *state,
                        element,
                        Ok(()),
                    ));
                }
                Ok(())
            },
            _ if expanded => {
                // Content inside expanded-only conditional content is
                // dropped without a trace.
                proof {
                    assert(wrote_seq(
                        old(self).inner_buf(),
                        *old(state),
                        self.inner,
                        *state,
                        Seq::<FormatElement>::empty(),
                    ));
                    assert(wrote_seq_interleaved(
                        old(self).inner_buf(),
                        *old(state),
                        (*self).inner_buf(),
                        *state,
                        Seq::<FormatElement>::empty(),
                    ));
                    assert(Self::write_post(
                        *old(self),
                        *self,
                        *old(state),
                        *state,
                        element,
                        Ok(()),
                    ));
                }
                Ok(())
            },
            FormatElement::Line(LineMode::Soft) => {
                proof {
                    assert(wrote_seq(
                        old(self).inner_buf(),
                        *old(state),
                        self.inner,
                        *state,
                        Seq::<FormatElement>::empty(),
                    ));
                    assert(wrote_seq_interleaved(
                        old(self).inner_buf(),
                        *old(state),
                        (*self).inner_buf(),
                        *state,
                        Seq::<FormatElement>::empty(),
                    ));
                    assert(Self::write_post(
                        *old(self),
                        *self,
                        *old(state),
                        *state,
                        element,
                        Ok(()),
                    ));
                }
                Ok(())
            },
            FormatElement::Line(LineMode::SoftOrSpace) => {
                let result = self.inner.write_element(state, FormatElement::Space);
                proof {
                    lemma_cache_wf_extend(*old(state), *state, self.interned_cache@);
                    if result is Err {
                        assert(<B as Buffer>::write_post(
                            old(self).inner_buf(),
                            (*self).inner_buf(),
                            *old(state),
                            *state,
                            FormatElement::Space,
                            result,
                        ));
                    }
                    if result is Ok {
                        crate::buffer::lemma_wrote_seq_one(
                            old(self).inner_buf(),
                            *old(state),
                            self.inner,
                            *state,
                            FormatElement::Space,
                            result,
                        );
                        assert(flat_canon_elem(old(self).stack_view(), element).0 =~= seq![
                            FormatElement::Space,
                        ]);
                        assert(wrote_seq_interleaved(
                            old(self).inner_buf(),
                            *old(state),
                            old(self).inner_buf(),
                            *old(state),
                            Seq::<FormatElement>::empty(),
                        ));
                        lemma_wrote_seq_interleaved_snoc(
                            old(self).inner_buf(),
                            *old(state),
                            old(self).inner_buf(),
                            *old(state),
                            *old(state),
                            (*self).inner_buf(),
                            *state,
                            Seq::empty(),
                            FormatElement::Space,
                            result,
                        );
                        assert(Seq::<FormatElement>::empty().push(FormatElement::Space) =~= seq![
                            FormatElement::Space,
                        ]);
                        assert(seq_trigger_free(*state, state.interns().len() as int, seq![
                            FormatElement::Space,
                        ])) by {
                            reveal_with_fuel(seq_trigger_free, 3);
                            assert(seq![FormatElement::Space].drop_first()
                                =~= Seq::<FormatElement>::empty());
                            assert(elem_trigger_free(
                                *state,
                                state.interns().len() as int,
                                FormatElement::Space,
                            ));
                        }
                    }
                    assert(Self::write_post(
                        *old(self),
                        *self,
                        *old(state),
                        *state,
                        element,
                        result,
                    ));
                }
                result
            },
            FormatElement::Interned(id) => {
                let ghost pre_cache = self.interned_cache@;
                let cleaned = clean_interned(
                    state,
                    &mut self.interned_cache,
                    &mut self.conditional_content_stack,
                    &mut self.scans,
                    id,
                );
                let ghost mid_state = *state;
                proof {
                    old(self).inner_buf().inv_extend(*old(state), *state);
                }
                let result = self.inner.write_element(
                    state,
                    FormatElement::Interned(cleaned),
                );
                proof {
                    crate::buffer::lemma_extends_trans(*old(state), mid_state, *state);
                    lemma_cache_wf_extend(mid_state, *state, self.interned_cache@);
                    if result is Err {
                        assert(<B as Buffer>::write_post(
                            old(self).inner_buf(),
                            (*self).inner_buf(),
                            mid_state,
                            *state,
                            FormatElement::Interned(cleaned),
                            result,
                        ));
                    }
                    if result is Ok {
                        crate::buffer::lemma_wrote_seq_one(
                            old(self).inner_buf(),
                            mid_state,
                            self.inner,
                            *state,
                            FormatElement::Interned(cleaned),
                            result,
                        );
                    }
                    if pre_cache.contains_key(id) {
                        assert(mid_state == *old(state));
                    }
                    if seq_trigger_free(
                        *old(state),
                        id as int,
                        old(state).interns()[id as int],
                    ) {
                        assert(cleaned == id);
                        assert(mid_state == *old(state));
                    }
                    if !old(self).cache_view().contains_key(id) && seq_tag_free_flat(
                        old(state).interns()[id as int],
                    ) {
                        assert(mid_state.interns()[cleaned as int] == state.interns()[
                            cleaned as int
                        ]);
                    }
                    assert(mid_state.interns()[cleaned as int] == state.interns()[
                        cleaned as int
                    ]);
                    lemma_seq_trigger_free_extend(
                        mid_state,
                        *state,
                        cleaned as int,
                        mid_state.interns()[cleaned as int],
                    );
                    if result is Ok {
                        assert(old(state).extended_by(mid_state) && wrote_seq(
                            old(self).inner_buf(),
                            mid_state,
                            (*self).inner_buf(),
                            *state,
                            seq![FormatElement::Interned((*self).cache_view()[id])],
                        ));
                        assert(wrote_seq_interleaved(
                            old(self).inner_buf(),
                            *old(state),
                            old(self).inner_buf(),
                            *old(state),
                            Seq::<FormatElement>::empty(),
                        )) by {
                            crate::buffer::lemma_extends_refl(*old(state));
                        }
                        lemma_wrote_seq_interleaved_snoc(
                            old(self).inner_buf(),
                            *old(state),
                            old(self).inner_buf(),
                            *old(state),
                            mid_state,
                            (*self).inner_buf(),
                            *state,
                            Seq::empty(),
                            FormatElement::Interned(cleaned),
                            result,
                        );
                        assert(Seq::<FormatElement>::empty().push(
                            FormatElement::Interned(cleaned),
                        ) =~= seq![FormatElement::Interned(cleaned)]);
                        assert(seq_trigger_free(*state, state.interns().len() as int, seq![
                            FormatElement::Interned(cleaned),
                        ])) by {
                            reveal_with_fuel(seq_trigger_free, 3);
                            assert(seq![FormatElement::Interned(cleaned)].drop_first()
                                =~= Seq::<FormatElement>::empty());
                            assert(elem_trigger_free(
                                *state,
                                state.interns().len() as int,
                                FormatElement::Interned(cleaned),
                            ));
                        }
                        assert(exists|mid_state2: FormatState|
                            old(state).extended_by(mid_state2) && #[trigger] wrote_seq(
                                old(self).inner_buf(),
                                mid_state2,
                                (*self).inner_buf(),
                                *state,
                                seq![FormatElement::Interned((*self).cache_view()[id])],
                            ));
                    }
                    assert(Self::write_post(
                        *old(self),
                        *self,
                        *old(state),
                        *state,
                        element,
                        result,
                    ));
                }
                result
            },
            FormatElement::BestFitting(b) => {
                let ghost state0 = *state;
                let ghost inner0 = self.inner;
                let ghost st0 = self.conditional_content_stack@;
                let ghost cache0 = self.interned_cache@;
                let ghost scans0 = self.scans as int;
                let most_flat = state.best_fitting_variants(b)[0];
                let variant_elems = copy_elements(state.interned(most_flat));
                let ghost vseq = variant_elems@;
                let ghost bound0 = state0.interns().len() as int;
                proof {
                    assert(vseq == state0.interns()[most_flat as int]);
                    assert(state0.seq_wf(most_flat as int, vseq));
                }
                let mut work: Vec<FormatElement> = Vec::new();
                let m = variant_elems.len();
                let mut q = m;
                while q > 0
                    invariant
                        0 <= q <= m,
                        m == variant_elems@.len(),
                        work@ == variant_elems@.subrange(q as int, m as int).reverse(),
                    decreases q,
                {
                    q -= 1;
                    let ve = variant_elems[q];
                    work.push(ve);
                    proof {
                        assert(work@ =~= variant_elems@.subrange(q as int, m as int).reverse());
                    }
                }
                let ghost mut pending = vseq;
                let ghost mut out_acc = Seq::<FormatElement>::empty();
                proof {
                    assert(vseq.subrange(0, m as int) =~= vseq);
                    assert(pending =~= work@.reverse());
                    assert(wrote_seq(inner0, state0, self.inner, *state, out_acc));
                    crate::buffer::lemma_extends_refl(state0);
                    assert(wrote_seq_interleaved(inner0, state0, self.inner, *state, out_acc));
                    assert(out_acc + flat_canon_seq(self.stack_view(), pending).0
                        =~= flat_canon_seq(st0, vseq).0);
                    assert forall|t: int| 0 <= t < work@.len() implies state0.elem_wf(
                        bound0,
                        #[trigger] work@[t],
                    ) by {
                        assert(work@[t] == vseq[m - 1 - t]);
                        assert(state0.elem_wf(most_flat as int, vseq[m - 1 - t]));
                        crate::state::lemma_elem_wf_extend(
                            state0,
                            state0,
                            most_flat as int,
                            bound0,
                            vseq[m - 1 - t],
                        );
                    }
                }
                while work.len() > 0
                    invariant
                        element == FormatElement::BestFitting(b),
                        !expanded_top(st0),
                        state0.elem_wf(bound0, element),
                        most_flat == state0.best_fittings()[b as int][0],
                        vseq == state0.interns()[most_flat as int],
                        state0.wf(),
                        state.wf(),
                        state0 == *old(state),
                        inner0 == old(self).inner_buf(),
                        st0 == old(self).stack_view(),
                        cache0 == old(self).cache_view(),
                        scans0 == old(self).scans_spec(),
                        bound0 == state0.interns().len() as int,
                        old(self).inv(state0),
                        state0.extended_by(*state),
                        self.inner.inv(*state),
                        cache_wf(*state, self.interned_cache@),
                        cache_le(cache0, self.interned_cache@),
                        self.scans as int >= scans0,
                        inner0.elems().is_prefix_of(self.inner.elems()),
                        forall|s: BufferSnapshot|
                            #[trigger] inner0.snap_shape(s) ==> self.inner.snap_shape(s),
                        forall|t: int|
                            0 <= t < work@.len() ==> state0.elem_wf(
                                bound0,
                                #[trigger] work@[t],
                            ),
                        wrote_seq_interleaved(inner0, state0, self.inner, *state, out_acc),
                        seq_trigger_free(*state, state.interns().len() as int, out_acc),
                        pending == work@.reverse(),
                        seq_flat(vseq) ==> {
                            &&& seq_flat(pending)
                            &&& wrote_seq(inner0, state0, self.inner, *state, out_acc)
                            &&& flat_canon_seq(st0, vseq).0 == out_acc + flat_canon_seq(
                                self.stack_view(),
                                pending,
                            ).0
                            &&& flat_canon_seq(st0, vseq).1 == flat_canon_seq(
                                self.stack_view(),
                                pending,
                            ).1
                        },
                    decreases seq_size(state0, bound0, work@),
                {
                    let ghost work_before = work@;
                    let ghost pending_before = pending;
                    let e = match work.pop() {
                        Some(e) => e,
                        None => {
                            proof {
                                assert(false);
                            }
                            FormatElement::Space
                        },
                    };
                    proof {
                        assert(work_before =~= work@.push(e));
                        lemma_seq_size_push(state0, bound0, work@, e);
                        assert(state0.elem_wf(bound0, e));
                        assert(pending_before[0] == e);
                        pending = pending.drop_first();
                        assert(pending =~= work@.reverse());
                        if seq_flat(vseq) {
                            assert(elem_flat(e));
                            assert(seq_flat(pending)) by {
                                assert forall|t: int| 0 <= t < pending.len() implies elem_flat(
                                    #[trigger] pending[t],
                                ) by {
                                    assert(pending[t] == pending_before[t + 1]);
                                }
                            }
                        }
                    }
                    let inner_expanded = expanded_now(&self.conditional_content_stack);
                    match e {
                        FormatElement::Tag(Tag::StartConditionalContent(condition)) => {
                            self.conditional_content_stack.push(condition);
                            proof {
                                if seq_flat(vseq) {
                                    assert(Seq::<FormatElement>::empty() + flat_canon_seq(
                                        self.stack_view(),
                                        pending,
                                    ).0 =~= flat_canon_seq(self.stack_view(), pending).0);
                                }
                            }
                        },
                        FormatElement::Tag(Tag::EndConditionalContent) => {
                            let _ = self.conditional_content_stack.pop();
                            proof {
                                if seq_flat(vseq) {
                                    assert(Seq::<FormatElement>::empty() + flat_canon_seq(
                                        self.stack_view(),
                                        pending,
                                    ).0 =~= flat_canon_seq(self.stack_view(), pending).0);
                                }
                            }
                        },
                        _ if inner_expanded => {
                            proof {
                                if seq_flat(vseq) {
                                    assert(Seq::<FormatElement>::empty() + flat_canon_seq(
                                        self.stack_view(),
                                        pending,
                                    ).0 =~= flat_canon_seq(self.stack_view(), pending).0);
                                }
                            }
                        },
                        FormatElement::Line(LineMode::Soft) => {
                            proof {
                                if seq_flat(vseq) {
                                    assert(Seq::<FormatElement>::empty() + flat_canon_seq(
                                        self.stack_view(),
                                        pending,
                                    ).0 =~= flat_canon_seq(self.stack_view(), pending).0);
                                }
                            }
                        },
                        FormatElement::Line(LineMode::SoftOrSpace) => {
                            let ghost mid_inner = self.inner;
                            let ghost mid_state = *state;
                            let result = self.inner.write_element(state, FormatElement::Space);
                            proof {
                                crate::buffer::lemma_extends_trans(state0, mid_state, *state);
                                lemma_cache_wf_extend(mid_state, *state, self.interned_cache@);
                                crate::buffer::lemma_prefix_trans(
                                    inner0.elems(),
                                    mid_inner.elems(),
                                    self.inner.elems(),
                                );
                            }
                            if let Err(err) = result {
                                proof {
                                    assert(<B as Buffer>::write_post(
                                        mid_inner,
                                        (*self).inner_buf(),
                                        mid_state,
                                        *state,
                                        FormatElement::Space,
                                        Err(err),
                                    ));
                                    assert(Self::write_post(
                                        *old(self),
                                        *self,
                                        *old(state),
                                        *state,
                                        element,
                                        Err(err),
                                    ));
                                }
                                return Err(err);
                            }
                            proof {
                                let ghost out_before = out_acc;
                                if seq_flat(vseq) {
                                    crate::buffer::lemma_wrote_seq_snoc(
                                        inner0,
                                        state0,
                                        mid_inner,
                                        mid_state,
                                        self.inner,
                                        *state,
                                        out_acc,
                                        FormatElement::Space,
                                        result,
                                    );
                                }
                                lemma_wrote_seq_interleaved_snoc(
                                    inner0,
                                    state0,
                                    mid_inner,
                                    mid_state,
                                    mid_state,
                                    self.inner,
                                    *state,
                                    out_before,
                                    FormatElement::Space,
                                    result,
                                );
                                out_acc = out_acc.push(FormatElement::Space);
                                lemma_seq_trigger_free_extend(
                                    mid_state,
                                    *state,
                                    mid_state.interns().len() as int,
                                    out_before,
                                );
                                lemma_trigger_free_widen(
                                    *state,
                                    mid_state.interns().len() as int,
                                    state.interns().len() as int,
                                    out_before,
                                );
                                lemma_trigger_free_push(
                                    *state,
                                    state.interns().len() as int,
                                    out_before,
                                    FormatElement::Space,
                                );
                                if seq_flat(vseq) {
                                    assert(flat_canon_seq(st0, vseq).0 == out_acc
                                        + flat_canon_seq(self.stack_view(), pending).0) by {
                                        assert(out_acc + flat_canon_seq(
                                            self.stack_view(),
                                            pending,
                                        ).0 =~= out_before + (seq![
                                            FormatElement::Space,
                                        ] + flat_canon_seq(self.stack_view(), pending).0));
                                    }
                                }
                            }
                        },
                        FormatElement::Interned(inner_id) => {
                            proof {
                                if seq_flat(vseq) {
                                    assert(elem_flat(pending_before[0]));
                                    assert(false);
                                }
                            }
                            let ghost mid_state = *state;
                            let ghost mid_cache = self.interned_cache@;
                            let cleaned = clean_interned(
                                state,
                                &mut self.interned_cache,
                                &mut self.conditional_content_stack,
                                &mut self.scans,
                                inner_id,
                            );
                            let ghost mid2_state = *state;
                            proof {
                                self.inner.inv_extend(mid_state, *state);
                                lemma_cache_le_trans(
                                    cache0,
                                    mid_cache,
                                    self.interned_cache@,
                                );
                            }
                            let ghost mid_inner = self.inner;
                            let result = self.inner.write_element(
                                state,
                                FormatElement::Interned(cleaned),
                            );
                            proof {
                                crate::buffer::lemma_extends_trans(
                                    state0,
                                    mid_state,
                                    mid2_state,
                                );
                                crate::buffer::lemma_extends_trans(
                                    state0,
                                    mid2_state,
                                    *state,
                                );
                                lemma_cache_wf_extend(mid2_state, *state, self.interned_cache@);
                                crate::buffer::lemma_prefix_trans(
                                    inner0.elems(),
                                    mid_inner.elems(),
                                    self.inner.elems(),
                                );
                            }
                            if let Err(err) = result {
                                proof {
                                    assert(<B as Buffer>::write_post(
                                        mid_inner,
                                        (*self).inner_buf(),
                                        mid2_state,
                                        *state,
                                        FormatElement::Interned(cleaned),
                                        Err(err),
                                    ));
                                    assert(Self::write_post(
                                        *old(self),
                                        *self,
                                        *old(state),
                                        *state,
                                        element,
                                        Err(err),
                                    ));
                                }
                                return Err(err);
                            }
                            proof {
                                let ghost out_before = out_acc;
                                lemma_wrote_seq_interleaved_snoc(
                                    inner0,
                                    state0,
                                    mid_inner,
                                    mid_state,
                                    mid2_state,
                                    self.inner,
                                    *state,
                                    out_before,
                                    FormatElement::Interned(cleaned),
                                    result,
                                );
                                out_acc = out_acc.push(FormatElement::Interned(cleaned));
                                lemma_seq_trigger_free_extend(
                                    mid_state,
                                    mid2_state,
                                    mid_state.interns().len() as int,
                                    out_before,
                                );
                                lemma_seq_trigger_free_extend(
                                    mid2_state,
                                    *state,
                                    mid_state.interns().len() as int,
                                    out_before,
                                );
                                lemma_trigger_free_widen(
                                    *state,
                                    mid_state.interns().len() as int,
                                    state.interns().len() as int,
                                    out_before,
                                );
                                assert(mid2_state.interns()[cleaned as int] == state.interns()[
                                    cleaned as int
                                ]);
                                lemma_seq_trigger_free_extend(
                                    mid2_state,
                                    *state,
                                    cleaned as int,
                                    mid2_state.interns()[cleaned as int],
                                );
                                lemma_trigger_free_push(
                                    *state,
                                    state.interns().len() as int,
                                    out_before,
                                    FormatElement::Interned(cleaned),
                                );
                            }
                        },
                        FormatElement::BestFitting(bb) => {
                            proof {
                                if seq_flat(vseq) {
                                    assert(elem_flat(pending_before[0]));
                                    assert(false);
                                }
                                assert(state0.elem_wf(bound0, FormatElement::BestFitting(bb)));
                                assert(state0.best_fittings()[bb as int] == state
                                    .best_fittings()[bb as int]);
                            }
                            let nested_flat = state.best_fitting_variants(bb)[0];
                            proof {
                                assert(nested_flat == state0.best_fittings()[bb as int][0]);
                                assert(0 <= nested_flat < bound0);
                                assert(state0.interns()[nested_flat as int] == state.interns()[
                                    nested_flat as int
                                ]);
                            }
                            let nested_elems = copy_elements(state.interned(nested_flat));
                            let ghost base = work@;
                            let mn = nested_elems.len();
                            let mut qn = mn;
                            while qn > 0
                                invariant
                                    0 <= qn <= mn,
                                    mn == nested_elems@.len(),
                                    work@ == base + nested_elems@.subrange(
                                        qn as int,
                                        mn as int,
                                    ).reverse(),
                                decreases qn,
                            {
                                qn -= 1;
                                let ve = nested_elems[qn];
                                work.push(ve);
                                proof {
                                    assert(work@ =~= base + nested_elems@.subrange(
                                        qn as int,
                                        mn as int,
                                    ).reverse());
                                }
                            }
                            proof {
                                assert(nested_elems@.subrange(0, mn as int) =~= nested_elems@);
                                assert(work@ == base + nested_elems@.reverse());
                                pending = nested_elems@ + pending;
                                assert(pending =~= work@.reverse());
                                assert(nested_elems@ == state0.interns()[nested_flat as int]);
                                assert(state0.seq_wf(nested_flat as int, nested_elems@));
                                assert forall|t: int| 0 <= t < work@.len() implies state0
                                    .elem_wf(bound0, #[trigger] work@[t]) by {
                                    if t < base.len() {
                                        assert(work@[t] == base[t]);
                                    } else {
                                        assert(work@[t] == nested_elems@[mn - 1 - (t
                                            - base.len())]);
                                        assert(state0.elem_wf(
                                            nested_flat as int,
                                            nested_elems@[mn - 1 - (t - base.len())],
                                        ));
                                        crate::state::lemma_elem_wf_extend(
                                            state0,
                                            state0,
                                            nested_flat as int,
                                            bound0,
                                            nested_elems@[mn - 1 - (t - base.len())],
                                        );
                                    }
                                }
                                lemma_seq_size_reverse_append(
                                    state0,
                                    bound0,
                                    base,
                                    nested_elems@,
                                );
                                lemma_seq_size_same_bound(
                                    state0,
                                    nested_flat as int,
                                    bound0,
                                    nested_elems@,
                                );
                                assert(elem_size(state0, bound0, e) == 1 + seq_size(
                                    state0,
                                    nested_flat as int,
                                    nested_elems@,
                                ));
                            }
                        },
                        _ => {
                            let ghost mid_inner = self.inner;
                            let ghost mid_state = *state;
                            let result = self.inner.write_element(state, e);
                            proof {
                                crate::buffer::lemma_extends_trans(state0, mid_state, *state);
                                lemma_cache_wf_extend(mid_state, *state, self.interned_cache@);
                                crate::buffer::lemma_prefix_trans(
                                    inner0.elems(),
                                    mid_inner.elems(),
                                    self.inner.elems(),
                                );
                            }
                            if let Err(err) = result {
                                proof {
                                    assert(<B as Buffer>::write_post(
                                        mid_inner,
                                        (*self).inner_buf(),
                                        mid_state,
                                        *state,
                                        e,
                                        Err(err),
                                    ));
                                    assert(Self::write_post(
                                        *old(self),
                                        *self,
                                        *old(state),
                                        *state,
                                        element,
                                        Err(err),
                                    ));
                                }
                                return Err(err);
                            }
                            proof {
                                let ghost out_before = out_acc;
                                if seq_flat(vseq) {
                                    crate::buffer::lemma_wrote_seq_snoc(
                                        inner0,
                                        state0,
                                        mid_inner,
                                        mid_state,
                                        self.inner,
                                        *state,
                                        out_acc,
                                        e,
                                        result,
                                    );
                                }
                                lemma_wrote_seq_interleaved_snoc(
                                    inner0,
                                    state0,
                                    mid_inner,
                                    mid_state,
                                    mid_state,
                                    self.inner,
                                    *state,
                                    out_before,
                                    e,
                                    result,
                                );
                                out_acc = out_acc.push(e);
                                lemma_seq_trigger_free_extend(
                                    mid_state,
                                    *state,
                                    mid_state.interns().len() as int,
                                    out_before,
                                );
                                lemma_trigger_free_widen(
                                    *state,
                                    mid_state.interns().len() as int,
                                    state.interns().len() as int,
                                    out_before,
                                );
                                lemma_trigger_free_push(
                                    *state,
                                    state.interns().len() as int,
                                    out_before,
                                    e,
                                );
                                if seq_flat(vseq) {
                                    assert(flat_canon_seq(st0, vseq).0 == out_acc
                                        + flat_canon_seq(self.stack_view(), pending).0) by {
                                        assert(out_acc + flat_canon_seq(
                                            self.stack_view(),
                                            pending,
                                        ).0 =~= out_before + (seq![e]
                                            + flat_canon_seq(self.stack_view(), pending).0));
                                    }
                                }
                            }
                        },
                    }
                }
                proof {
                    if seq_flat(vseq) {
                        assert(pending =~= Seq::<FormatElement>::empty());
                        assert(flat_canon_seq(st0, vseq).0 =~= out_acc);
                    }
                    assert(wrote_seq_interleaved(
                        old(self).inner_buf(),
                        *old(state),
                        (*self).inner_buf(),
                        *state,
                        out_acc,
                    ));
                    assert(exists|ws: Seq<FormatElement>|
                        #[trigger] wrote_seq_interleaved(
                            old(self).inner_buf(),
                            *old(state),
                            (*self).inner_buf(),
                            *state,
                            ws,
                        ) && seq_trigger_free(*state, state.interns().len() as int, ws));
                    assert(Self::write_post(
                        *old(self),
                        *self,
                        *old(state),
                        *state,
                        element,
                        Ok(()),
                    ));
                }
                Ok(())
            },
            _ => {
                let result = self.inner.write_element(state, element);
                proof {
                    lemma_cache_wf_extend(*old(state), *state, self.interned_cache@);
                    if result is Err {
                        assert(<B as Buffer>::write_post(
                            old(self).inner_buf(),
                            (*self).inner_buf(),
                            *old(state),
                            *state,
                            element,
                            result,
                        ));
                    }
                    if result is Ok {
                        crate::buffer::lemma_wrote_seq_one(
                            old(self).inner_buf(),
                            *old(state),
                            self.inner,
                            *state,
                            element,
                            result,
                        );
                        assert(flat_canon_elem(old(self).stack_view(), element).0
                            =~= seq![element]);
                        assert(wrote_seq_interleaved(
                            old(self).inner_buf(),
                            *old(state),
                            old(self).inner_buf(),
                            *old(state),
                            Seq::<FormatElement>::empty(),
                        ));
                        lemma_wrote_seq_interleaved_snoc(
                            old(self).inner_buf(),
                            *old(state),
                            old(self).inner_buf(),
                            *old(state),
                            *old(state),
                            (*self).inner_buf(),
                            *state,
                            Seq::empty(),
                            element,
                            result,
                        );
                        assert(Seq::<FormatElement>::empty().push(element) =~= seq![element]);
                        assert(seq_trigger_free(*state, state.interns().len() as int, seq![
                            element,
                        ])) by {
                            reveal_with_fuel(seq_trigger_free, 3);
                            assert(seq![element].drop_first() =~= Seq::<FormatElement>::empty());
                            assert(elem_trigger_free(
                                *state,
                                state.interns().len() as int,
                                element,
                            ));
                        }
                    }
                    assert(Self::write_post(
                        *old(self),
                        *self,
                        *old(state),
                        *state,
                        element,
                        result,
                    ));
                }
                result
            },
        }
    }

    fn elements(&self) -> (r: &Vec<FormatElement>) {
        self.inner.elements()
    }

    fn snapshot(&self) -> (s: BufferSnapshot) {
        self.inner.snapshot()
    }

    fn restore_snapshot(&mut self, snapshot: BufferSnapshot) {
        self.inner.restore_snapshot(snapshot);
    }
}

} // verus!
