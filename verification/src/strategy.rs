use vstd::prelude::*;

use crate::error::Error;
use crate::id::Id;
use crate::item::Item;

verus! {

/// The uniform strategy contract every ranking engine offers: ask for the
/// next question, submit an answer, check completion, finalize, and take or
/// restore a snapshot. Each engine carries a structural-soundness predicate
/// that its constructor establishes and every operation preserves; the
/// engines' own inherent methods state the exact per-engine behavior.
pub trait RankStrategy: Sized + View {
    /// The engine's opaque snapshot type.
    type Snapshot;

    /// The structural soundness the engine maintains of itself.
    spec fn wf(&self) -> bool;

    /// Whether the ranking has completed, at the specification level.
    spec fn spec_complete(&self) -> bool;

    /// The name of this strategy.
    fn name(&self) -> &'static str;

    /// Record that `winner_id` (one of the two items' identifiers) beat the
    /// other.
    fn compare(&mut self, a: &Item, b: &Item, winner_id: &Id) -> (r: Result<(), Error>)
        requires
            old(self).wf(),
        ensures
            final(self).wf(),
            r is Ok <==> (winner_id@ == a.id@ || winner_id@ == b.id@),
            r is Err ==> final(self)@ == old(self)@,
    ;

    /// The total order, best first, once complete; `NotComplete` before.
    fn finalize(&mut self) -> (r: Result<RankResult, Error>)
        requires
            old(self).wf(),
        ensures
            final(self)@ == old(self)@,
            r is Ok <==> old(self).spec_complete(),
            r is Ok ==> (r matches Ok(res) && res.order is Some),
            !old(self).spec_complete() ==> (r matches Err(e) && e == Error::NotComplete),
    ;

    /// A snapshot of the full engine state.
    fn serialize_state(&self) -> Self::Snapshot
        requires
            self.wf(),
    ;

    /// Restore a snapshot; data that fails the engine's structural
    /// soundness is rejected as corrupt, leaving the engine untouched.
    fn deserialize_state(&mut self, state: Self::Snapshot) -> (r: Result<(), Error>)
        requires
            old(self).wf(),
        ensures
            final(self).wf(),
            r is Err ==> final(self)@ == old(self)@,
    ;

    /// The next unresolved pair the caller must ask about, if any.
    fn next_comparison(&self) -> Option<(Id, Id)>
        requires
            self.wf(),
    ;

    /// Whether the ranking is complete.
    fn is_complete(&self) -> (r: bool)
        requires
            self.wf(),
        ensures
            r == self.spec_complete(),
    ;
}

/// Result of a completed ranking: the ordered identifiers, best first.
/// (Rating-based strategies would add numeric scores; the comparison-sort
/// strategies here produce an order only.)
pub struct RankResult {
    pub order: Option<Vec<Id>>,
}

/// The views of a sequence of identifiers.
pub open spec fn ids_view(v: Seq<Id>) -> Seq<Seq<char>> {
    v.map_values(|id: Id| id@)
}

/// The names of the ranking strategies this library offers.
pub fn get_available_strategies() -> (r: Vec<&'static str>)
    ensures
        r@.len() == 2,
        r@[0]@ == "merge"@,
        r@[1]@ == "quicksort"@,
{
    let mut v: Vec<&'static str> = Vec::new();
    v.push("merge");
    v.push("quicksort");
    v
}

} // verus!
