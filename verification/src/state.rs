//! The run-wide formatting state: the owner of every shared (interned)
//! subtree and every best-fitting alternative list that document elements
//! reference by id. Sinks borrow it for the duration of a write but never
//! own it; it lives for the whole formatting session.

use vstd::prelude::*;

use crate::element::FormatElement;

verus! {

/// Run-wide state shared by every sink of one formatting session.
///
/// Shared subtrees are immutable once registered: both tables only ever
/// grow, so an id handed out earlier keeps referring to the same content.
/// Identity of a shared subtree is its id, not its content: two ids whose
/// sequences hold equal elements are still distinct subtrees.
#[derive(Debug)]
pub struct FormatState {
    /// The shared (interned) subtrees, by id.
    interns: Vec<Vec<FormatElement>>,
    /// The best-fitting alternative lists, by id. Each entry is a
    /// non-empty list of interned-sequence ids, most compact first.
    best_fittings: Vec<Vec<usize>>,
}

impl FormatState {
    /// The sequences of all registered shared subtrees, by id.
    pub closed spec fn interns(&self) -> Seq<Seq<FormatElement>> {
        self.interns@.map_values(|v: Vec<FormatElement>| v@)
    }

    /// The registered best-fitting alternative lists, by id.
    pub closed spec fn best_fittings(&self) -> Seq<Seq<usize>> {
        self.best_fittings@.map_values(|v: Vec<usize>| v@)
    }

    /// A single element references only registered content: interned ids
    /// below `bound`, and best-fitting lists whose alternatives are all
    /// interned ids below `bound`.
    pub open spec fn elem_wf(&self, bound: int, e: FormatElement) -> bool {
        match e {
            FormatElement::Interned(id) => 0 <= id < bound,
            FormatElement::BestFitting(b) => {
                &&& 0 <= b < self.best_fittings().len()
                &&& self.best_fittings()[b as int].len() >= 1
                &&& forall|k: int|
                    0 <= k < self.best_fittings()[b as int].len()
                        ==> 0 <= #[trigger] self.best_fittings()[b as int][k] < bound
            },
            _ => true,
        }
    }

    /// Every element of the sequence is well formed under `bound`.
    pub open spec fn seq_wf(&self, bound: int, s: Seq<FormatElement>) -> bool {
        forall|i: int| 0 <= i < s.len() ==> self.elem_wf(bound, #[trigger] s[i])
    }

    /// Well-formedness of the whole state: each interned sequence only
    /// references subtrees registered strictly before it, so the document
    /// is a DAG and id order witnesses its acyclicity.
    pub open spec fn wf(&self) -> bool {
        forall|i: int|
            0 <= i < self.interns().len() ==> self.seq_wf(i, #[trigger] self.interns()[i])
    }

    /// `other` extends `self`: both tables of `other` start with the
    /// tables of `self`, so every id registered in `self` still refers to
    /// the same content in `other`.
    pub open spec fn extended_by(&self, other: FormatState) -> bool {
        &&& self.interns().is_prefix_of(other.interns())
        &&& self.best_fittings().is_prefix_of(other.best_fittings())
    }

    /// Creates an empty state, with no shared subtrees registered.
    pub fn new() -> (r: FormatState)
        ensures
            r.interns() =~= Seq::<Seq<FormatElement>>::empty(),
            r.best_fittings() =~= Seq::<Seq<usize>>::empty(),
            r.wf(),
    {
        FormatState { interns: Vec::new(), best_fittings: Vec::new() }
    }

    /// The number of registered shared subtrees.
    pub fn interns_len(&self) -> (r: usize)
        ensures
            r == self.interns().len(),
    {
        self.interns.len()
    }

    /// Registers a new shared subtree and returns its id.
    pub fn intern(&mut self, elements: Vec<FormatElement>) -> (id: usize)
        requires
            old(self).wf(),
            old(self).seq_wf(old(self).interns().len() as int, elements@),
        ensures
            final(self).wf(),
            old(self).extended_by(*final(self)),
            id == old(self).interns().len(),
            final(self).interns() =~= old(self).interns().push(elements@),
            final(self).best_fittings() == old(self).best_fittings(),
    {
        let id = self.interns.len();
        self.interns.push(elements);
        proof {
            assert(self.interns() =~= old(self).interns().push(self.interns@[id as int]@));
            assert forall|i: int| 0 <= i < self.interns().len() implies self.seq_wf(
                i,
                #[trigger] self.interns()[i],
            ) by {
                if i < id {
                    assert(old(self).seq_wf(i, old(self).interns()[i]));
                    assert(self.interns()[i] == old(self).interns()[i]);
                    assert forall|j: int|
                        0 <= j < self.interns()[i].len() implies self.elem_wf(
                        i,
                        #[trigger] self.interns()[i][j],
                    ) by {
                        assert(old(self).elem_wf(i, old(self).interns()[i][j]));
                    }
                }
            }
        }
        id
    }

    /// The elements of the shared subtree with the given id.
    pub fn interned(&self, id: usize) -> (r: &Vec<FormatElement>)
        requires
            0 <= id < self.interns().len(),
        ensures
            r@ == self.interns()[id as int],
    {
        &self.interns[id]
    }

    /// Registers a best-fitting alternative list and returns its id. The
    /// alternatives are interned-sequence ids, most compact first.
    pub fn register_best_fitting(&mut self, variants: Vec<usize>) -> (id: usize)
        requires
            old(self).wf(),
            variants@.len() >= 1,
            forall|k: int| 0 <= k < variants@.len() ==> #[trigger] variants@[k] < old(
                self,
            ).interns().len(),
        ensures
            final(self).wf(),
            old(self).extended_by(*final(self)),
            id == old(self).best_fittings().len(),
            final(self).best_fittings() =~= old(self).best_fittings().push(variants@),
            final(self).interns() == old(self).interns(),
    {
        let id = self.best_fittings.len();
        self.best_fittings.push(variants);
        proof {
            assert(self.best_fittings() =~= old(self).best_fittings().push(
                self.best_fittings@[id as int]@,
            ));
            assert forall|i: int| 0 <= i < self.interns().len() implies self.seq_wf(
                i,
                #[trigger] self.interns()[i],
            ) by {
                assert(old(self).seq_wf(i, old(self).interns()[i]));
                assert forall|j: int|
                    0 <= j < self.interns()[i].len() implies self.elem_wf(
                    i,
                    #[trigger] self.interns()[i][j],
                ) by {
                    assert(old(self).elem_wf(i, old(self).interns()[i][j]));
                }
            }
        }
        id
    }

    /// The alternative list of the best-fitting group with the given id.
    pub fn best_fitting_variants(&self, id: usize) -> (r: &Vec<usize>)
        requires
            0 <= id < self.best_fittings().len(),
        ensures
            r@ == self.best_fittings()[id as int],
    {
        &self.best_fittings[id]
    }
}

/// Element well-formedness only loosens when the state grows: anything
/// well formed under a bound stays well formed under a larger bound in an
/// extended state.
pub proof fn lemma_elem_wf_extend(
    pre: FormatState,
    post: FormatState,
    bound: int,
    bound2: int,
    e: FormatElement,
)
    requires
        pre.extended_by(post),
        bound <= bound2,
        pre.elem_wf(bound, e),
    ensures
        post.elem_wf(bound2, e),
{
    match e {
        FormatElement::BestFitting(b) => {
            assert(pre.best_fittings()[b as int] == post.best_fittings()[b as int]);
        },
        _ => {},
    }
}

/// Sequence well-formedness survives growing the state, as
/// [`lemma_elem_wf_extend`] does for one element.
pub proof fn lemma_seq_wf_extend(
    pre: FormatState,
    post: FormatState,
    bound: int,
    bound2: int,
    s: Seq<FormatElement>,
)
    requires
        pre.extended_by(post),
        bound <= bound2,
        pre.seq_wf(bound, s),
    ensures
        post.seq_wf(bound2, s),
{
    assert forall|i: int| 0 <= i < s.len() implies post.elem_wf(bound2, #[trigger] s[i]) by {
        lemma_elem_wf_extend(pre, post, bound, bound2, s[i]);
    }
}

} // verus!
