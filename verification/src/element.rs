//! The document intermediate representation: one node of the "to be
//! printed" tree. The vocabulary is consumed as an opaque algebraic value
//! type; text runs are referenced by handle, and shared subtrees and
//! best-fitting alternative lists are referenced by id into the run-wide
//! [`crate::state::FormatState`].

use vstd::prelude::*;

verus! {

/// How strongly a line break wants to break.
#[derive(Debug, Clone, Copy, PartialEq, Eq, Structural)]
pub enum LineMode {
    /// Always breaks, even when the content would fit on one line.
    Hard,
    /// Breaks only if the enclosing group does not fit on one line.
    Soft,
    /// Breaks if needed; renders as a single space otherwise.
    SoftOrSpace,
}

/// The print mode a region of conditional content is gated to.
#[derive(Debug, Clone, Copy, PartialEq, Eq, Structural)]
pub enum PrintMode {
    /// The content appears when the group fits on one line.
    Flat,
    /// The content appears only when the group had to break.
    Expanded,
}

/// The condition attached to a start-of-conditional-content marker.
#[derive(Debug, Clone, Copy, PartialEq, Eq, Structural)]
pub struct Condition {
    /// The print mode under which the delimited content is active.
    pub mode: PrintMode,
}

/// Structural markers delimiting a region of conditional content.
#[derive(Debug, Clone, Copy, PartialEq, Eq, Structural)]
pub enum Tag {
    /// Opens a region gated to the given condition.
    StartConditionalContent(Condition),
    /// Closes the most recently opened conditional region.
    EndConditionalContent,
}

/// One element of the document intermediate representation.
///
/// Equality between elements is structural. The element type is `Copy`:
/// text runs, shared subtrees and best-fitting alternative lists are all
/// referenced by handle rather than held inline, so that distinct sites
/// can share one underlying allocation in the [`crate::state::FormatState`].
#[derive(Debug, Clone, Copy, PartialEq, Eq, Structural)]
pub enum FormatElement {
    /// A literal text run, identified by a handle; the characters
    /// themselves live with the host and are opaque to this layer.
    Text(usize),
    /// A single space.
    Space,
    /// A line break of the given strength.
    Line(LineMode),
    /// A structural marker for conditional content.
    Tag(Tag),
    /// A reference to a shared (interned) subtree, by id.
    Interned(usize),
    /// A best-fitting group: an ordered list of alternative renderings,
    /// most compact first, referenced by id.
    BestFitting(usize),
}

/// A flat element stands for itself: it references no shared subtree and
/// no best-fitting alternative list.
pub open spec fn elem_flat(e: FormatElement) -> bool {
    !(e is Interned) && !(e is BestFitting)
}

/// Every element of the sequence is flat.
pub open spec fn seq_flat(s: Seq<FormatElement>) -> bool {
    forall|i: int| 0 <= i < s.len() ==> elem_flat(#[trigger] s[i])
}

/// A flat element already in canonical (infinite print width) form: not a
/// soft line break, not a conditional-content marker, and not a
/// best-fitting group.
pub open spec fn elem_plain(e: FormatElement) -> bool {
    match e {
        FormatElement::Line(mode) => mode is Hard,
        FormatElement::Tag(_) => false,
        FormatElement::BestFitting(_) => false,
        _ => true,
    }
}

/// Every element of the sequence is already in canonical flat form.
pub open spec fn seq_plain(s: Seq<FormatElement>) -> bool {
    forall|i: int| 0 <= i < s.len() ==> elem_plain(#[trigger] s[i])
}

} // verus!
