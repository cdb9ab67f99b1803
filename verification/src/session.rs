use vstd::prelude::*;

use crate::clock::now_millis;
use crate::id::Id;

verus! {

/// Relies on uuid::Uuid::new_v4 and its Display impl: a fresh random
/// version-4 UUID, printed in the hyphenated form, which is 36 characters.
#[verifier::external_body]
fn new_uuid_string() -> (r: String)
    ensures
        r@.len() == 36,
{
    uuid::Uuid::new_v4().to_string()
}

/// Status of a ranking session.
#[derive(Debug, Clone, PartialEq, Eq, Structural)]
pub enum SessionStatus {
    InProgress,
    Completed,
    Abandoned,
}

/// Metadata about a ranking session: its identity, its timestamps
/// (milliseconds since the Unix epoch), and its status.
pub struct SessionInfo {
    pub id: Id,
    pub created: i64,
    pub last_updated: i64,
    pub completed: Option<i64>,
    pub status: SessionStatus,
}

impl SessionInfo {
    /// A fresh in-progress session with a random identifier, created now.
    pub fn new() -> (r: SessionInfo)
        ensures
            r.status == SessionStatus::InProgress,
            r.completed is None,
            r.created == r.last_updated,
            r.id@.len() == 36,
    {
        let now = now_millis();
        SessionInfo {
            id: Id::from_string(new_uuid_string()),
            created: now,
            last_updated: now,
            completed: None,
            status: SessionStatus::InProgress,
        }
    }

    /// Mark the session as updated now; identity, creation time, status and
    /// completion time are untouched.
    pub fn touch(&mut self)
        ensures
            final(self).id@ == old(self).id@,
            final(self).created == old(self).created,
            final(self).completed == old(self).completed,
            final(self).status == old(self).status,
    {
        self.last_updated = now_millis();
    }

    /// Mark the session as completed now: the status becomes `Completed`
    /// and the completion and last-updated timestamps are set together.
    pub fn complete(&mut self)
        ensures
            final(self).id@ == old(self).id@,
            final(self).created == old(self).created,
            final(self).status == SessionStatus::Completed,
            final(self).completed == Some(final(self).last_updated),
    {
        let now = now_millis();
        self.completed = Some(now);
        self.last_updated = now;
        self.status = SessionStatus::Completed;
    }
}

/// A single comparison made during ranking: the two identifiers as they
/// were presented, the declared winner, and when it was answered.
pub struct Comparison {
    pub a: Id,
    pub b: Id,
    pub winner: Id,
    pub timestamp: i64,
}

impl Comparison {
    /// A copy of this comparison.
    pub fn duplicate(&self) -> (r: Comparison)
        ensures
            r.a@ == self.a@,
            r.b@ == self.b@,
            r.winner@ == self.winner@,
            r.timestamp == self.timestamp,
    {
        Comparison {
            a: self.a.clone(),
            b: self.b.clone(),
            winner: self.winner.clone(),
            timestamp: self.timestamp,
        }
    }
}

/// The outcomes of a journal, in order: for each comparison the two
/// identifiers and the winner, as character sequences.
pub open spec fn journal_view(s: Seq<Comparison>) -> Seq<(Seq<char>, Seq<char>, Seq<char>)> {
    s.map_values(|c: Comparison| (c.a@, c.b@, c.winner@))
}

/// A complete ranking session: its metadata and the ordered journal of
/// comparisons made so far. The journal is the source of truth for resuming
/// an interrupted run: replaying it into a fresh engine reproduces the
/// engine's state.
pub struct Session {
    pub info: SessionInfo,
    pub comparisons: Vec<Comparison>,
}

impl Session {
    /// A fresh session with an empty journal.
    pub fn new() -> (r: Session)
        ensures
            r.comparisons@.len() == 0,
            r.info.status == SessionStatus::InProgress,
            r.info.completed is None,
    {
        Session { info: SessionInfo::new(), comparisons: Vec::new() }
    }

    /// Append one resolved comparison to the journal, stamped now, and mark
    /// the session updated. Every earlier journal entry is untouched.
    pub fn add_comparison(&mut self, a: Id, b: Id, winner: Id)
        ensures
            final(self).comparisons@.len() == old(self).comparisons@.len() + 1,
            journal_view(final(self).comparisons@) == journal_view(old(self).comparisons@).push(
                (a@, b@, winner@),
            ),
            final(self).info.id@ == old(self).info.id@,
            final(self).info.created == old(self).info.created,
            final(self).info.status == old(self).info.status,
            final(self).info.completed == old(self).info.completed,
    {
        let c = Comparison { a, b, winner, timestamp: now_millis() };
        let ghost c0 = c;
        self.comparisons.push(c);
        self.info.touch();
        proof {
            assert(journal_view(self.comparisons@) =~= journal_view(old(self).comparisons@).push(
                (c0.a@, c0.b@, c0.winner@),
            ));
        }
    }
}

} // verus!
