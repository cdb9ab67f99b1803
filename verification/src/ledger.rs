use vstd::prelude::*;

use crate::id::{lex_lt, Id};

verus! {

/// One resolved pairwise outcome, keyed canonically: `first` never orders
/// after `second` in the lexicographic order over identifier text.
pub struct LedgerEntry {
    first: Id,
    second: Id,
    winner: Id,
}

impl View for LedgerEntry {
    type V = (Seq<char>, Seq<char>, Seq<char>);

    closed spec fn view(&self) -> (Seq<char>, Seq<char>, Seq<char>) {
        (self.first@, self.second@, self.winner@)
    }
}

/// The canonical key of an unordered pair: the two texts, smaller first,
/// so `(a, b)` and `(b, a)` share one key.
pub open spec fn canon_key(a: Seq<char>, b: Seq<char>) -> (Seq<char>, Seq<char>) {
    if lex_lt(a, b) {
        (a, b)
    } else {
        (b, a)
    }
}

/// The winner recorded for the unordered pair `(a, b)` in `entries`, if any:
/// the first entry whose canonical key matches.
pub open spec fn spec_lookup(
    entries: Seq<(Seq<char>, Seq<char>, Seq<char>)>,
    a: Seq<char>,
    b: Seq<char>,
) -> Option<Seq<char>>
    decreases entries.len(),
{
    if entries.len() == 0 {
        None
    } else if (entries[0].0, entries[0].1) == canon_key(a, b) {
        Some(entries[0].2)
    } else {
        spec_lookup(entries.drop_first(), a, b)
    }
}

/// What recording an outcome does: if the unordered pair already has an
/// entry the ledger is unchanged (first answer wins); otherwise one entry
/// with the canonical key and the given winner is appended.
pub open spec fn spec_record(
    entries: Seq<(Seq<char>, Seq<char>, Seq<char>)>,
    a: Seq<char>,
    b: Seq<char>,
    winner: Seq<char>,
) -> Seq<(Seq<char>, Seq<char>, Seq<char>)> {
    if spec_lookup(entries, a, b) is Some {
        entries
    } else {
        entries.push((canon_key(a, b).0, canon_key(a, b).1, winner))
    }
}

/// Well-formedness of a ledger's contents: every entry is canonically keyed
/// and no canonical pair appears twice.
pub open spec fn ledger_wf(entries: Seq<(Seq<char>, Seq<char>, Seq<char>)>) -> bool {
    &&& (forall|i: int|
        0 <= i < entries.len() ==> canon_key(#[trigger] entries[i].0, entries[i].1) == (
        entries[i].0,
        entries[i].1,
        ))
    &&& (forall|i: int, j: int|
        0 <= i < j < entries.len() ==> ((#[trigger] entries[i]).0, entries[i].1) != ((
        #[trigger] entries[j]).0, entries[j].1))
}

/// An append-only, idempotent store of resolved pairwise outcomes, keyed
/// order-independently by the canonical form of the unordered pair.
pub struct Ledger {
    entries: Vec<LedgerEntry>,
}

impl View for Ledger {
    type V = Seq<(Seq<char>, Seq<char>, Seq<char>)>;

    closed spec fn view(&self) -> Seq<(Seq<char>, Seq<char>, Seq<char>)> {
        self.entries@.map_values(|e: LedgerEntry| e@)
    }
}

impl Ledger {
    /// An empty ledger.
    pub fn new() -> (r: Ledger)
        ensures
            r@ =~= Seq::<(Seq<char>, Seq<char>, Seq<char>)>::empty(),
    {
        Ledger { entries: Vec::new() }
    }

    /// The winner recorded for the unordered pair `(a, b)`, if any.
    pub fn get(&self, a: &Id, b: &Id) -> (r: Option<&Id>)
        ensures
            match r {
                Some(w) => spec_lookup(self@, a@, b@) == Some(w@),
                None => spec_lookup(self@, a@, b@) is None,
            },
    {
        let (x, y) = if a.lt(b) {
            (a, b)
        } else {
            (b, a)
        };
        let n = self.entries.len();
        let mut i: usize = 0;
        proof {
            assert(self@.skip(0) =~= self@);
        }
        while i < n
            invariant
                n == self@.len(),
                i <= n,
                self@.len() == self.entries@.len(),
                forall|k: int| 0 <= k < self@.len() ==> self@[k] == self.entries@[k]@,
                spec_lookup(self@, a@, b@) == spec_lookup(self@.skip(i as int), a@, b@),
                (x@, y@) == canon_key(a@, b@),
            decreases n - i,
        {
            let e = &self.entries[i];
            if e.first.eq(x) && e.second.eq(y) {
                proof {
                    assert(self@.skip(i as int)[0] == self@[i as int]);
                }
                return Some(&self.entries[i].winner);
            }
            proof {
                assert(self@.skip(i as int).drop_first() =~= self@.skip(i as int + 1));
                assert(self@.skip(i as int)[0] == self@[i as int]);
            }
            i = i + 1;
        }
        proof {
            assert(self@.skip(n as int) =~= Seq::<(Seq<char>, Seq<char>, Seq<char>)>::empty());
        }
        None
    }

    /// Whether the unordered pair `(a, b)` has a recorded outcome.
    pub fn contains(&self, a: &Id, b: &Id) -> (r: bool)
        ensures
            r == (spec_lookup(self@, a@, b@) is Some),
    {
        self.get(a, b).is_some()
    }

    /// Record that `winner` beat the other of the pair. If the unordered
    /// pair already has an entry the call changes nothing: the first
    /// recorded answer stands.
    pub fn record(&mut self, a: &Id, b: &Id, winner: &Id)
        ensures
            final(self)@ == spec_record(old(self)@, a@, b@, winner@),
    {
        if self.contains(a, b) {
            return ;
        }
        let (x, y) = if a.lt(b) {
            (a.clone(), b.clone())
        } else {
            (b.clone(), a.clone())
        };
        let e = LedgerEntry { first: x, second: y, winner: winner.clone() };
        self.entries.push(e);
        proof {
            assert(final(self)@ =~= old(self)@.push(
                (canon_key(a@, b@).0, canon_key(a@, b@).1, winner@),
            ));
        }
    }

    /// Whether the stored entries satisfy the ledger's well-formedness:
    /// every key canonical, no unordered pair twice.
    pub fn check_wf(&self) -> (r: bool)
        ensures
            r == ledger_wf(self@),
    {
        let n = self.entries.len();
        let mut i: usize = 0;
        while i < n
            invariant
                n == self.entries@.len(),
                self@.len() == n,
                i <= n,
                forall|k: int| 0 <= k < n ==> self@[k] == (#[trigger] self.entries@[k])@,
                forall|k: int|
                    0 <= k < i ==> canon_key(#[trigger] self@[k].0, self@[k].1) == (
                    self@[k].0,
                    self@[k].1,
                    ),
                forall|k1: int, k2: int|
                    0 <= k1 < k2 < i ==> ((#[trigger] self@[k1]).0, self@[k1].1) != ((
                    #[trigger] self@[k2]).0, self@[k2].1),
            decreases n - i,
        {
            let e = &self.entries[i];
            let canonical = e.first.lt(&e.second) || e.first.eq(&e.second);
            if !canonical {
                proof {
                    assert(canon_key(self@[i as int].0, self@[i as int].1) != (
                        self@[i as int].0,
                        self@[i as int].1,
                    ));
                }
                return false;
            }
            let mut j: usize = 0;
            while j < i
                invariant
                    n == self.entries@.len(),
                    self@.len() == n,
                    i < n,
                    j <= i,
                    self@[i as int] == (e.first@, e.second@, e.winner@),
                    forall|k: int| 0 <= k < n ==> self@[k] == (#[trigger] self.entries@[k])@,
                    forall|k: int|
                        0 <= k < j ==> ((#[trigger] self@[k]).0, self@[k].1) != (
                        self@[i as int].0,
                        self@[i as int].1,
                        ),
                decreases i - j,
            {
                let d = &self.entries[j];
                proof {
                    assert(self@[j as int] == d@);
                    assert(d@ == (d.first@, d.second@, d.winner@));
                }
                if d.first.eq(&e.first) && d.second.eq(&e.second) {
                    proof {
                        assert(((self@[j as int]).0, self@[j as int].1) == (
                            self@[i as int].0,
                            self@[i as int].1,
                        ));
                    }
                    return false;
                }
                j = j + 1;
            }
            i = i + 1;
        }
        true
    }

    /// A copy of this ledger's entries.
    pub fn duplicate(&self) -> (r: Ledger)
        ensures
            r@ == self@,
    {
        let n = self.entries.len();
        let mut v: Vec<LedgerEntry> = Vec::new();
        let mut i: usize = 0;
        while i < n
            invariant
                n == self.entries@.len(),
                i <= n,
                v@.len() == i,
                forall|k: int| 0 <= k < i ==> v@[k]@ == self.entries@[k]@,
            decreases n - i,
        {
            let e = &self.entries[i];
            v.push(LedgerEntry { first: e.first.clone(), second: e.second.clone(), winner: e.winner.clone() });
            i = i + 1;
        }
        let r = Ledger { entries: v };
        proof {
            assert(r@ =~= self@);
        }
        r
    }
}

/// Canonicalizing is idempotent: a canonical key is its own canonical key.
pub proof fn lemma_canon_idempotent(a: Seq<char>, b: Seq<char>)
    ensures
        canon_key(canon_key(a, b).0, canon_key(a, b).1) == canon_key(a, b),
{
    crate::id::lemma_lex_lt_total(a, b);
}

/// The canonical key does not depend on the order the pair is given in.
pub proof fn lemma_canon_symmetric(a: Seq<char>, b: Seq<char>)
    ensures
        canon_key(a, b) == canon_key(b, a),
{
    crate::id::lemma_lex_lt_total(a, b);
    crate::id::lemma_lex_lt_asymmetric(a, b);
    crate::id::lemma_lex_lt_irrefl(a);
}

/// Looking up a pair does not depend on the order it is given in.
pub proof fn lemma_lookup_symmetric(
    entries: Seq<(Seq<char>, Seq<char>, Seq<char>)>,
    a: Seq<char>,
    b: Seq<char>,
)
    ensures
        spec_lookup(entries, a, b) == spec_lookup(entries, b, a),
    decreases entries.len(),
{
    lemma_canon_symmetric(a, b);
    if entries.len() > 0 {
        lemma_lookup_symmetric(entries.drop_first(), a, b);
    }
}

/// An unresolved pair matches no entry at all.
pub proof fn lemma_lookup_none_means_absent(
    entries: Seq<(Seq<char>, Seq<char>, Seq<char>)>,
    a: Seq<char>,
    b: Seq<char>,
)
    requires
        spec_lookup(entries, a, b) is None,
    ensures
        forall|i: int|
            0 <= i < entries.len() ==> ((#[trigger] entries[i]).0, entries[i].1) != canon_key(
                a,
                b,
            ),
    decreases entries.len(),
{
    if entries.len() > 0 {
        lemma_lookup_none_means_absent(entries.drop_first(), a, b);
        assert forall|i: int|
            0 <= i < entries.len() implies ((#[trigger] entries[i]).0, entries[i].1) != canon_key(
            a,
            b,
        ) by {
            if i > 0 {
                assert(entries.drop_first()[i - 1] == entries[i]);
            }
        }
    }
}

/// Recording an unresolved pair keeps the ledger well-formed.
pub proof fn lemma_record_wf(
    entries: Seq<(Seq<char>, Seq<char>, Seq<char>)>,
    a: Seq<char>,
    b: Seq<char>,
    winner: Seq<char>,
)
    requires
        ledger_wf(entries),
    ensures
        ledger_wf(spec_record(entries, a, b, winner)),
{
    if spec_lookup(entries, a, b) is Some {
    } else {
        lemma_canon_idempotent(a, b);
        lemma_lookup_none_means_absent(entries, a, b);
        let post = spec_record(entries, a, b, winner);
        assert forall|i: int|
            0 <= i < post.len() implies canon_key(#[trigger] post[i].0, post[i].1) == (
        post[i].0,
        post[i].1,
        ) by {
            if i < entries.len() {
                assert(post[i] == entries[i]);
            }
        }
    }
}

/// A recorded pair never loses its outcome: whatever `spec_record` adds,
/// every pair already resolved keeps the same winner.
pub proof fn lemma_record_preserves(
    entries: Seq<(Seq<char>, Seq<char>, Seq<char>)>,
    a: Seq<char>,
    b: Seq<char>,
    winner: Seq<char>,
    c: Seq<char>,
    d: Seq<char>,
)
    requires
        spec_lookup(entries, c, d) is Some,
    ensures
        spec_lookup(spec_record(entries, a, b, winner), c, d) == spec_lookup(entries, c, d),
    decreases entries.len(),
{
    if spec_lookup(entries, a, b) is Some {
    } else {
        lemma_lookup_push(entries, (canon_key(a, b).0, canon_key(a, b).1, winner), c, d);
    }
}

/// Looking a pair up after appending one entry: if the pair was already
/// resolved the old answer stands; otherwise the new entry answers exactly
/// the pair it is keyed by.
pub proof fn lemma_lookup_push(
    entries: Seq<(Seq<char>, Seq<char>, Seq<char>)>,
    e: (Seq<char>, Seq<char>, Seq<char>),
    c: Seq<char>,
    d: Seq<char>,
)
    ensures
        spec_lookup(entries.push(e), c, d) == (if spec_lookup(entries, c, d) is Some {
            spec_lookup(entries, c, d)
        } else if (e.0, e.1) == canon_key(c, d) {
            Some(e.2)
        } else {
            None::<Seq<char>>
        }),
    decreases entries.len(),
{
    if entries.len() == 0 {
        assert(entries.push(e).drop_first() =~= Seq::<(Seq<char>, Seq<char>, Seq<char>)>::empty());
    } else {
        assert(entries.push(e).drop_first() =~= entries.drop_first().push(e));
        lemma_lookup_push(entries.drop_first(), e, c, d);
    }
}

/// After recording, the pair is resolved: with its own winner if it was
/// new, with the previously recorded winner otherwise.
pub proof fn lemma_record_resolves(
    entries: Seq<(Seq<char>, Seq<char>, Seq<char>)>,
    a: Seq<char>,
    b: Seq<char>,
    winner: Seq<char>,
)
    ensures
        spec_lookup(spec_record(entries, a, b, winner), a, b) == (
        if spec_lookup(entries, a, b) is Some {
            spec_lookup(entries, a, b)
        } else {
            Some(winner)
        }),
{
    if spec_lookup(entries, a, b) is Some {
    } else {
        lemma_lookup_push(entries, (canon_key(a, b).0, canon_key(a, b).1, winner), a, b);
    }
}

} // verus!
