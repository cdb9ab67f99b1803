use vstd::prelude::*;

use crate::ledger::{
    lemma_lookup_symmetric, lemma_record_preserves, lemma_record_resolves, spec_lookup,
    spec_record,
};
use crate::merge::{
    singleton_runs, spec_compare, spec_new, spec_next, spec_next_from, spec_process, spec_replay,
    MergeModel, MergeOpModel,
};
use crate::quicksort::{spec_qs_compare, spec_qs_next, spec_qs_next_from, PartitionOpModel, QuickModel};

verus! {

// ---------------------------------------------------------------------------
// Laws of the merge engine, stated over the engine model. The executable
// functions promise that their effect equals the model transitions
// (`spec_new`, `spec_compare`, `spec_next`, `spec_replay`), so each law here
// holds of every live engine.
// ---------------------------------------------------------------------------

/// The update pass never changes the ledger or the item order.
pub proof fn lemma_process_keeps_ledger(m: MergeModel)
    ensures
        spec_process(m).ledger == m.ledger,
        spec_process(m).items == m.items,
{
}

/// After `compare`, the unordered pair is resolved: with the given winner
/// if it was new, with the previously recorded winner otherwise.
pub proof fn lemma_compare_resolves(m: MergeModel, a: Seq<char>, b: Seq<char>, w: Seq<char>)
    ensures
        spec_lookup(spec_compare(m, a, b, w).ledger, a, b) == (if spec_lookup(m.ledger, a, b)
            is Some {
            spec_lookup(m.ledger, a, b)
        } else {
            Some(w)
        }),
{
    if spec_lookup(m.ledger, a, b) is Some {
    } else {
        lemma_record_resolves(m.ledger, a, b, w);
    }
}

/// `compare` never erases or changes an already resolved pair: the ledger
/// grows monotonically (invariant I1's other half).
pub proof fn lemma_compare_preserves_resolved(
    m: MergeModel,
    a: Seq<char>,
    b: Seq<char>,
    w: Seq<char>,
    c: Seq<char>,
    d: Seq<char>,
)
    requires
        spec_lookup(m.ledger, c, d) is Some,
    ensures
        spec_lookup(spec_compare(m, a, b, w).ledger, c, d) == spec_lookup(m.ledger, c, d),
{
    if spec_lookup(m.ledger, a, b) is Some {
    } else {
        lemma_record_preserves(m.ledger, a, b, w, c, d);
    }
}

/// Whatever pair `next_comparison` offers has no recorded outcome yet.
pub proof fn lemma_next_is_unresolved(m: MergeModel)
    ensures
        (spec_next(m) matches Some(p) ==> spec_lookup(m.ledger, p.0, p.1) is None),
{
    lemma_next_from_unresolved(m.ops, m.ledger, 0);
}

proof fn lemma_next_from_unresolved(
    ops: Seq<MergeOpModel>,
    ledger: Seq<(Seq<char>, Seq<char>, Seq<char>)>,
    i: int,
)
    requires
        0 <= i,
    ensures
        (spec_next_from(ops, ledger, i) matches Some(p) ==> spec_lookup(ledger, p.0, p.1)
            is None),
    decreases ops.len() - i,
{
    if i < ops.len() {
        lemma_next_from_unresolved(ops, ledger, i + 1);
    }
}

/// No unordered pair is presented twice: once a pair is resolved, neither
/// it nor its swap is ever offered by `next_comparison` again — after the
/// answering `compare` itself and after any further sequence of comparisons
/// (the ledger only grows).
pub proof fn lemma_no_repeated_question(m: MergeModel, a: Seq<char>, b: Seq<char>)
    requires
        spec_lookup(m.ledger, a, b) is Some,
    ensures
        spec_next(m) != Some((a, b)),
        spec_next(m) != Some((b, a)),
{
    lemma_next_is_unresolved(m);
    lemma_lookup_symmetric(m.ledger, a, b);
}

/// The full no-repeat law: when the engine offers a pair and the caller
/// answers it, the pair is resolved from then on, and however the run
/// continues (any further journal of comparisons), the engine never offers
/// that unordered pair again.
pub proof fn lemma_question_asked_once(
    m: MergeModel,
    a: Seq<char>,
    b: Seq<char>,
    w: Seq<char>,
    rest: Seq<(Seq<char>, Seq<char>, Seq<char>)>,
)
    requires
        spec_next(m) == Some((a, b)),
    ensures
        spec_lookup(spec_compare(m, a, b, w).ledger, a, b) is Some,
        spec_next(spec_replay(spec_compare(m, a, b, w), rest)) != Some((a, b)),
        spec_next(spec_replay(spec_compare(m, a, b, w), rest)) != Some((b, a)),
{
    lemma_compare_resolves(m, a, b, w);
    lemma_replay_preserves_resolved(spec_compare(m, a, b, w), rest, a, b);
    lemma_no_repeated_question(spec_replay(spec_compare(m, a, b, w), rest), a, b);
}

/// Submitting a pair that is already resolved changes nothing at all.
pub proof fn lemma_compare_noop(m: MergeModel, a: Seq<char>, b: Seq<char>, w: Seq<char>)
    requires
        spec_lookup(m.ledger, a, b) is Some,
    ensures
        spec_compare(m, a, b, w) == m,
{
}

/// Idempotence: a second `compare` with the same pair (and any winner, in
/// particular the same one) leaves the engine exactly as the first left it,
/// so the eventual finalized order is unchanged.
pub proof fn lemma_compare_idempotent(m: MergeModel, a: Seq<char>, b: Seq<char>, w: Seq<char>)
    ensures
        spec_compare(spec_compare(m, a, b, w), a, b, w) == spec_compare(m, a, b, w),
{
    lemma_compare_resolves(m, a, b, w);
    lemma_compare_noop(spec_compare(m, a, b, w), a, b, w);
}

/// Replaying a pair never unresolves anything: every resolved pair keeps
/// its winner through a whole journal.
pub proof fn lemma_replay_preserves_resolved(
    m: MergeModel,
    j: Seq<(Seq<char>, Seq<char>, Seq<char>)>,
    c: Seq<char>,
    d: Seq<char>,
)
    requires
        spec_lookup(m.ledger, c, d) is Some,
    ensures
        spec_lookup(spec_replay(m, j).ledger, c, d) == spec_lookup(m.ledger, c, d),
    decreases j.len(),
{
    if j.len() > 0 {
        lemma_compare_preserves_resolved(m, j[0].0, j[0].1, j[0].2, c, d);
        lemma_replay_preserves_resolved(spec_compare(m, j[0].0, j[0].1, j[0].2), j.drop_first(), c, d);
    }
}

/// After a journal is replayed, every one of its pairs is resolved.
pub proof fn lemma_replay_resolves_all(m: MergeModel, j: Seq<(Seq<char>, Seq<char>, Seq<char>)>)
    ensures
        forall|k: int|
            0 <= k < j.len() ==> spec_lookup(
                spec_replay(m, j).ledger,
                (#[trigger] j[k]).0,
                j[k].1,
            ) is Some,
    decreases j.len(),
{
    if j.len() > 0 {
        let m1 = spec_compare(m, j[0].0, j[0].1, j[0].2);
        lemma_compare_resolves(m, j[0].0, j[0].1, j[0].2);
        lemma_replay_preserves_resolved(m1, j.drop_first(), j[0].0, j[0].1);
        lemma_replay_resolves_all(m1, j.drop_first());
        assert forall|k: int|
            0 <= k < j.len() implies spec_lookup(
            spec_replay(m, j).ledger,
            (#[trigger] j[k]).0,
            j[k].1,
        ) is Some by {
            if k > 0 {
                assert(j.drop_first()[k - 1] == j[k]);
            }
        }
    }
}

/// Replaying a journal whose every pair is already resolved changes
/// nothing.
pub proof fn lemma_replay_noop(m: MergeModel, j: Seq<(Seq<char>, Seq<char>, Seq<char>)>)
    requires
        forall|k: int|
            0 <= k < j.len() ==> spec_lookup(m.ledger, (#[trigger] j[k]).0, j[k].1) is Some,
    ensures
        spec_replay(m, j) == m,
    decreases j.len(),
{
    if j.len() > 0 {
        lemma_compare_noop(m, j[0].0, j[0].1, j[0].2);
        assert forall|k: int|
            0 <= k < j.drop_first().len() implies spec_lookup(
            m.ledger,
            (#[trigger] j.drop_first()[k]).0,
            j.drop_first()[k].1,
        ) is Some by {
            assert(j.drop_first()[k] == j[k + 1]);
        }
        lemma_replay_noop(m, j.drop_first());
    }
}

/// Replay idempotence: replaying the same journal twice produces the same
/// engine state as replaying it once.
pub proof fn lemma_replay_idempotent(m: MergeModel, j: Seq<(Seq<char>, Seq<char>, Seq<char>)>)
    ensures
        spec_replay(spec_replay(m, j), j) == spec_replay(m, j),
{
    lemma_replay_resolves_all(m, j);
    lemma_replay_noop(spec_replay(m, j), j);
}

/// Replaying a prefix and then the remaining suffix equals replaying the
/// whole journal in one pass.
pub proof fn lemma_replay_split(
    m: MergeModel,
    j1: Seq<(Seq<char>, Seq<char>, Seq<char>)>,
    j2: Seq<(Seq<char>, Seq<char>, Seq<char>)>,
)
    ensures
        spec_replay(m, j1 + j2) == spec_replay(spec_replay(m, j1), j2),
    decreases j1.len(),
{
    if j1.len() == 0 {
        assert(j1 + j2 =~= j2);
    } else {
        assert((j1 + j2)[0] == j1[0]);
        assert((j1 + j2).drop_first() =~= j1.drop_first() + j2);
        lemma_replay_split(spec_compare(m, j1[0].0, j1[0].1, j1[0].2), j1.drop_first(), j2);
    }
}


/// The quicksort engine's pair on offer has no recorded outcome yet.
pub proof fn lemma_qs_next_is_unresolved(m: QuickModel)
    ensures
        (spec_qs_next(m) matches Some(p) ==> spec_lookup(m.ledger, p.0, p.1) is None),
{
    if !m.completed && m.stack.len() > 0 {
        lemma_qs_next_from_unresolved(m.stack.last(), m.ledger, m.stack.last().current_idx);
    }
}

proof fn lemma_qs_next_from_unresolved(
    op: PartitionOpModel,
    ledger: Seq<(Seq<char>, Seq<char>, Seq<char>)>,
    i: int,
)
    ensures
        (spec_qs_next_from(op, ledger, i) matches Some(p) ==> spec_lookup(ledger, p.0, p.1)
            is None),
    decreases op.items.len() - i,
{
    if 0 <= i < op.items.len() {
        lemma_qs_next_from_unresolved(op, ledger, i + 1);
    }
}

/// The quicksort engine's `compare` never erases or changes an already
/// resolved pair, and it resolves the pair it was given (when a partition
/// was pending); so a pair once answered is never offered again.
pub proof fn lemma_qs_question_asked_once(
    m: QuickModel,
    a: Seq<char>,
    b: Seq<char>,
    w: Seq<char>,
)
    requires
        m.stack.len() > 0,
    ensures
        spec_lookup(spec_qs_compare(m, a, b, w).ledger, a, b) is Some,
        spec_qs_next(spec_qs_compare(m, a, b, w)) != Some((a, b)),
        spec_qs_next(spec_qs_compare(m, a, b, w)) != Some((b, a)),
{
    let m1 = spec_qs_compare(m, a, b, w);
    assert(m1.ledger == spec_record(m.ledger, a, b, w));
    lemma_record_resolves(m.ledger, a, b, w);
    lemma_qs_next_is_unresolved(m1);
    lemma_lookup_symmetric(m1.ledger, a, b);
}

/// Boundary case: zero items. The engine is complete at construction with
/// the empty order, and offers no question.
pub proof fn lemma_zero_items()
    ensures
        spec_new(Seq::<Seq<char>>::empty()).completed,
        spec_new(Seq::<Seq<char>>::empty()).sorted == Seq::<Seq<char>>::empty(),
        spec_next(spec_new(Seq::<Seq<char>>::empty())) is None,
{
}

/// Boundary case: one item. The engine is complete at construction with
/// the single-element order, and offers no question.
pub proof fn lemma_one_item(x: Seq<char>)
    ensures
        spec_new(seq![x]).completed,
        spec_new(seq![x]).sorted == seq![x],
        spec_next(spec_new(seq![x])) is None,
{
}

/// Boundary case: two items. Exactly one comparison is required: the
/// fresh engine is incomplete and offers exactly that pair; after the
/// answer it is complete, the declared winner first, and offers nothing.
pub proof fn lemma_two_items(a: Seq<char>, b: Seq<char>, w: Seq<char>)
    requires
        w == a || w == b,
    ensures
        !spec_new(seq![a, b]).completed,
        spec_next(spec_new(seq![a, b])) == Some((a, b)),
        spec_compare(spec_new(seq![a, b]), a, b, w).completed,
        spec_compare(spec_new(seq![a, b]), a, b, w).sorted == (if w == a {
            seq![a, b]
        } else {
            seq![b, a]
        }),
        spec_next(spec_compare(spec_new(seq![a, b]), a, b, w)) is None,
{
    let items = seq![a, b];
    let m0 = spec_new(items);
    let subs = singleton_runs(items);
    let srcs = Seq::new(items.len(), |i: int| None::<int>);
    let op = MergeOpModel {
        left: seq![a],
        right: seq![b],
        left_idx: 0,
        right_idx: 0,
        result: Seq::<Seq<char>>::empty(),
        left_source: None,
        right_source: None,
    };
    assert(subs.len() == 2);
    assert(subs[0] =~= seq![a]);
    assert(subs[1] =~= seq![b]);
    reveal_with_fuel(crate::merge::build_ops, 3);
    reveal_with_fuel(crate::merge::pair_level_from, 3);
    reveal_with_fuel(crate::merge::refresh_upto, 3);
    reveal_with_fuel(crate::merge::spec_next_from, 3);
    let level = crate::merge::pair_level_from(subs, srcs, 0, 0);
    assert(level.0[0] =~= op);
    assert(level.0 =~= seq![op]);
    assert(level.1.len() == 1);
    assert(m0.ops == crate::merge::build_ops(subs, srcs, Seq::<MergeOpModel>::empty()));
    assert(m0.ops =~= Seq::<MergeOpModel>::empty() + level.0);
    assert(m0.ops =~= seq![op]);

    // The fresh engine offers exactly the pair (a, b).
    assert(spec_lookup(m0.ledger, a, b) is None);
    assert(spec_next(m0) == Some((a, b)));

    // Answering it: the pair is recorded, the single unit consumes it and
    // flushes the other side, and the root unit is the unit itself.
    let m1 = spec_compare(m0, a, b, w);
    let ledger1 = spec_record(m0.ledger, a, b, w);
    lemma_record_resolves(m0.ledger, a, b, w);
    assert(spec_lookup(ledger1, a, b) == Some(w));
    let ops2 = crate::merge::refresh_upto(m0.ops, 1);
    assert(ops2 =~= m0.ops.update(0, crate::merge::refresh_one(m0.ops, op)));
    assert(crate::merge::refresh_one(m0.ops, op) == op);
    assert(ops2 =~= seq![op]);
    let adv = crate::merge::advance_op(op, ledger1);
    reveal_with_fuel(crate::merge::run_compares, 3);
    if w == a {
        let op1 = MergeOpModel { result: seq![a], left_idx: 1, ..op };
        assert(crate::merge::run_compares(op, ledger1) =~= op1);
        assert(adv.result =~= seq![a] + seq![b].skip(0));
        assert(adv.result =~= seq![a, b]);
    } else {
        let op1 = MergeOpModel { result: seq![b], right_idx: 1, ..op };
        assert(crate::merge::run_compares(op, ledger1) =~= op1);
        assert(adv.result =~= seq![b] + seq![a].skip(0));
        assert(adv.result =~= seq![b, a]);
    }
    assert(crate::merge::op_at_end(adv));
    let ops3 = Seq::new(ops2.len(), |i: int| crate::merge::advance_op(ops2[i], ledger1));
    assert(ops3.last() == adv);
    assert(m1.completed);
    assert(m1.sorted == adv.result);
    assert(m1.ops.len() == 1);
    assert(m1.ops[0] == adv);
    assert(spec_next_from(m1.ops, m1.ledger, 1) is None);
    assert(spec_next_from(m1.ops, m1.ledger, 0) is None);
}

} // verus!
