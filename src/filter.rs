//! Which raw change notifications can count as changes at all.

use vstd::prelude::*;

verus! {

/// The kind of a change notification, as far as filtering is concerned.
#[derive(PartialEq, Eq, Structural, Clone, Copy, Debug)]
pub enum ChangeKind {
    /// A file opened for writing was closed: its content is complete.
    WriteClosed,
    /// Anything else: opens, reads, metadata changes, partial writes.
    Other,
}

/// Only completed writes are considered; everything else is dropped before
/// the ignore cache is asked.
pub fn is_monitored(kind: ChangeKind) -> (r: bool)
    ensures
        r == (kind == ChangeKind::WriteClosed),
{
    match kind {
        ChangeKind::WriteClosed => true,
        ChangeKind::Other => false,
    }
}

} // verus!
