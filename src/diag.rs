//! Structured diagnostics and the records handed to later stages.
use vstd::prelude::*;

verus! {

/// The kinds of violation the checker reports.
#[derive(Clone, Copy, PartialEq, Eq, Structural, Debug)]
pub enum DiagKind {
    /// Unbalanced or overlapping scope markers.
    StructureError,
    /// A place is used after its value was moved out or destroyed.
    UseAfterMove,
    /// A repeated move. A move is a use of the place, so the checker
    /// reports a move of a value already moved out as `UseAfterMove`; this
    /// kind completes the taxonomy and is not produced by the flow pass.
    DoubleMove,
    /// A value is used or moved whole after one of its fields was moved out.
    PartialMoveError,
    /// A variable is destroyed explicitly twice.
    DoubleDrop,
    /// A borrow overlaps an active borrow that excludes it.
    ConflictingBorrow,
    /// A place is moved out or destroyed while a borrow of it is active.
    MoveWhileBorrowed,
    /// A function returns a reference whose lifetime no elision rule fixes.
    ElisionAmbiguity,
    /// The "outlives" constraints of a signature form a cycle.
    RegionCycle,
    /// A reference is required to live longer than what it refers to.
    RegionTooShort,
    /// The input exceeds the configured operation ceiling.
    ResourceExhausted,
}

/// One violation: its kind, the variable it concerns (if any), the index of
/// the operation at which it was found, and the index of the earlier
/// operation (a move or a borrow) that it conflicts with, when there is one.
#[derive(Clone, Copy, PartialEq, Eq, Structural, Debug)]
pub struct Diagnostic {
    pub kind: DiagKind,
    pub var: Option<usize>,
    pub at: usize,
    pub related: Option<usize>,
}

/// A malformed input: the operation at `at` refers to a variable that is
/// unknown, not yet bound, bound twice or out of scope, or to a borrow that
/// does not exist. Analysis of the unit stops there.
#[derive(Clone, Copy, PartialEq, Eq, Structural, Debug)]
pub struct Fault {
    pub at: usize,
}

/// A variable destroyed implicitly when its scope closed at operation `at`
/// (at the length of the stream for scopes closed by its end).
#[derive(Clone, Copy, PartialEq, Eq, Structural, Debug)]
pub struct DropEvent {
    pub var: usize,
    pub at: usize,
}

/// The resolved region of an accepted borrow: from the operation that
/// created it to its last use through its handle.
#[derive(Clone, Copy, PartialEq, Eq, Structural, Debug)]
pub struct BorrowFact {
    pub at: usize,
    pub end: usize,
}

/// Everything one analysis produces.
pub struct Report {
    pub diags: Vec<Diagnostic>,
    pub drops: Vec<DropEvent>,
    pub borrows: Vec<BorrowFact>,
}

impl Report {
    /// Whether the unit is accepted: no diagnostic at all.
    pub fn is_accepted(&self) -> (r: bool)
        ensures
            r == (self.diags@.len() == 0),
    {
        self.diags.len() == 0
    }
}

} // verus!
