//! What can go wrong while a workload is put together.

use vstd::prelude::*;

verus! {

/// A terminal capability that workloads are made of.
#[derive(Clone, Copy, Debug, PartialEq, Eq, Structural)]
pub enum Capability {
    /// Enter the alternate screen.
    EnterCaMode,
    /// Leave the alternate screen.
    ExitCaMode,
    /// Move the cursor to a line and a column.
    CursorAddress,
    /// Set the foreground colour.
    SetAForeground,
    /// Turn all attributes off.
    ExitAttributeMode,
    /// Confine scrolling to a range of lines.
    ChangeScrollRegion,
}

/// Why a workload could not be put together.
#[derive(Debug)]
pub enum Error {
    /// The terminal description has no string for a capability that the
    /// workload needs.
    Missing(Capability),
    /// A capability could not be expanded: its string is not tame, or the
    /// terminal description library failed on it. The text says which, in
    /// the second case in the library's own words.
    Terminfo(String),
    /// The terminal is too small for the workload.
    Geometry,
    /// The scroll region does not lie inside the terminal.
    Region,
    /// A pass of the workload emitted nothing, so that no number of passes
    /// would reach the byte target.
    Stalled,
}

/// The outcome of putting a piece of a workload together.
pub type Result<T> = std::result::Result<T, Error>;

} // verus!
