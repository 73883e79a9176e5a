//! The failures that grid queries and mutations report.

use vstd::prelude::*;

verus! {

/// A recoverable failure. Nothing in this crate panics on bad input; every
/// rejected request comes back as one of these values.
#[derive(Debug)]
pub enum DndError {
    /// A position outside the grid rectangle.
    InvalidPosition { x: i32, y: i32 },
    /// An occupant that the grid does not hold, named by its identifier.
    EntityNotFound(String),
    /// A malformed request parameter.
    InvalidAction(String),
    /// A placement that the rules forbid.
    RulesViolation(String),
    /// A search that was cut off before it concluded.
    Timeout,
}

/// The mathematical content of a [`DndError`]: messages as character sequences.
pub enum ErrorView {
    InvalidPosition { x: int, y: int },
    EntityNotFound(Seq<char>),
    InvalidAction(Seq<char>),
    RulesViolation(Seq<char>),
    Timeout,
}

impl View for DndError {
    type V = ErrorView;

    open spec fn view(&self) -> ErrorView {
        match self {
            DndError::InvalidPosition { x, y } => ErrorView::InvalidPosition { x: *x as int, y: *y as int },
            DndError::EntityNotFound(m) => ErrorView::EntityNotFound(m@),
            DndError::InvalidAction(m) => ErrorView::InvalidAction(m@),
            DndError::RulesViolation(m) => ErrorView::RulesViolation(m@),
            DndError::Timeout => ErrorView::Timeout,
        }
    }
}

impl DndError {
    /// An `InvalidAction` carrying `reason`.
    pub fn invalid_action(reason: &str) -> (e: Self)
        ensures
            e@ == ErrorView::InvalidAction(reason@),
    {
        DndError::InvalidAction(reason.to_owned())
    }

    /// A `RulesViolation` carrying `reason`.
    pub fn rules_violation(reason: &str) -> (e: Self)
        ensures
            e@ == ErrorView::RulesViolation(reason@),
    {
        DndError::RulesViolation(reason.to_owned())
    }
}

} // verus!
