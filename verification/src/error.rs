use vstd::prelude::*;

verus! {

/// Error kinds for ranking operations.
#[derive(Debug, Clone, PartialEq, Eq)]
pub enum Error {
    /// A comparison named a winner that is neither of the compared pair.
    InvalidWinner(String),
    /// `finalize` was called before the ranking was complete.
    NotComplete,
    /// A snapshot could not be restored: its data is inconsistent.
    CorruptSnapshot,
    /// A journal could not be replayed: its data is inconsistent.
    CorruptJournal,
    ItemNotFound(String),
    UserNotFound(String),
    SessionNotFound(String),
    StrategyNotFound(String),
    InvalidId(String),
    DuplicateItem(String),
    DuplicateUser(String),
    NoListLoaded,
    NoActiveUser,
    /// The user still owns rankings; removal needs an explicit cascade.
    UserHasRankings,
    Other(String),
}

} // verus!
