use vstd::prelude::*;

use crate::id::Id;
use crate::session::Session;
use crate::strategy::RankResult;

verus! {

/// One ranking run: who ranks, with which strategy, the session journal,
/// and the final result once the run completes.
pub struct Ranking {
    pub user_id: Id,
    pub strategy: String,
    pub session: Session,
    pub result: Option<RankResult>,
}

impl Ranking {
    /// A fresh ranking for a user with the given strategy name: a new
    /// in-progress session and no result yet.
    pub fn new(user_id: Id, strategy: String) -> (r: Ranking)
        ensures
            r.user_id@ == user_id@,
            r.strategy@ == strategy@,
            r.result is None,
            r.session.comparisons@.len() == 0,
            r.session.info.status == crate::session::SessionStatus::InProgress,
    {
        Ranking { user_id, strategy, session: Session::new(), result: None }
    }

    /// Whether this ranking has produced its final result.
    pub fn is_complete(&self) -> (r: bool)
        ensures
            r == (self.result is Some),
    {
        self.result.is_some()
    }
}

} // verus!
