//! Snapshots of a sink's state, used strictly for rewind: a caller takes a
//! snapshot, attempts a formatting strategy, and either keeps the writes
//! or restores the snapshot to discard them.

use vstd::prelude::*;

verus! {

/// Snapshot of a buffer state that can be restored at a later point.
///
/// A snapshot is either a plain element-count cursor, or a composite
/// payload for decorators whose state is more than a cursor. A snapshot
/// is only valid for the sink instance that produced it, restored at most
/// once and in reverse order of acquisition; unwrapping the wrong shape
/// is a programming error and is ruled out by precondition here.
#[derive(Debug)]
pub enum BufferSnapshot {
    /// An absolute position of a buffer's state: how many elements had
    /// been written when the snapshot was taken.
    Position(usize),
    /// Composite payload for buffers that need to store more complex
    /// data: the deferred-prefix decorator's state.
    Any(Box<PreambleBufferSnapshot>),
}

/// The composite state captured by the deferred-prefix decorator: the
/// wrapped sink's snapshot together with the decorator's own flag.
#[derive(Debug)]
pub struct PreambleBufferSnapshot {
    /// The wrapped sink's snapshot.
    pub inner: BufferSnapshot,
    /// Whether the decorator had written nothing (preamble included) yet.
    pub empty: bool,
}

/// The element-count cursor a snapshot records: its own for a position
/// snapshot, the wrapped sink's for a composite one.
pub open spec fn snapshot_cursor(s: BufferSnapshot) -> int
    decreases s,
{
    match s {
        BufferSnapshot::Position(index) => index as int,
        BufferSnapshot::Any(payload) => snapshot_cursor(payload.inner),
    }
}

impl BufferSnapshot {
    /// Creates a buffer snapshot that points to the specified position.
    pub fn position(index: usize) -> (r: Self)
        ensures
            r == BufferSnapshot::Position(index),
    {
        BufferSnapshot::Position(index)
    }

    /// Unwraps the position value. Asking a composite snapshot for a
    /// plain cursor is a programming error, so it is excluded here.
    pub fn unwrap_position(&self) -> (r: usize)
        requires
            self is Position,
        ensures
            *self == BufferSnapshot::Position(r),
    {
        match self {
            BufferSnapshot::Position(index) => *index,
            BufferSnapshot::Any(_) => {
                proof {
                    assert(false);
                }
                0
            },
        }
    }

    /// Unwraps the composite payload. Asking a position snapshot for a
    /// composite payload is a programming error, so it is excluded here.
    pub fn unwrap_any(self) -> (r: PreambleBufferSnapshot)
        requires
            self is Any,
        ensures
            self matches BufferSnapshot::Any(payload) && r == *payload,
    {
        match self {
            BufferSnapshot::Any(payload) => *payload,
            BufferSnapshot::Position(_) => {
                proof {
                    assert(false);
                }
                PreambleBufferSnapshot { inner: BufferSnapshot::Position(0), empty: true }
            },
        }
    }
}

} // verus!
