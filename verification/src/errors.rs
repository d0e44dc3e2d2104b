//! The error kinds a patch replay can surface.
use vstd::prelude::*;

verus! {

/// Why a single delta could not be applied.  A failing delta aborts the
/// whole replay; the base tree is handed back unchanged.
#[derive(Debug, PartialEq, Eq, Structural, Clone, Copy)]
pub enum ProcessError {
    /// A path segment addresses a shape the tree cannot satisfy there.
    StructuralMismatch,
    /// A change or delete addresses an array index beyond the current
    /// length, or an add addresses an index past the one-past-the-end slot.
    IndexOutOfBounds,
    /// An add addresses an already occupied array slot and `force` is off.
    Conflict,
}

} // verus!
