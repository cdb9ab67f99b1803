use vstd::multiset::Multiset;
use vstd::prelude::*;
use vstd::seq_lib::lemma_multiset_commutative;

use crate::merge::{
    advance_op, build_ops, flush_op, merge_wf, op_at_end, op_blocked, op_finished, op_model_wf,
    pair_level_from, refresh_one, refresh_upto, run_compares, singleton_runs, spec_compare,
    spec_new, spec_process, spec_replay, MergeModel, MergeOpModel,
};

verus! {

broadcast use vstd::seq_lib::group_to_multiset_ensures, vstd::multiset::group_multiset_axioms;

// ---------------------------------------------------------------------------
// Conservation (invariant I2): every item appears in exactly one singleton
// run at initialization, and the multiset of items across all merge units
// is conserved through every update; so when the engine completes, the
// final order contains exactly the items it was built over, each once.
// ---------------------------------------------------------------------------

/// The items a unit currently holds: its output plus the unread remainder
/// of each input run.
pub open spec fn op_contents(op: MergeOpModel) -> Multiset<Seq<char>> {
    op.result.to_multiset().add(op.left.skip(op.left_idx).to_multiset()).add(
        op.right.skip(op.right_idx).to_multiset(),
    )
}

/// The unit's whole input.
pub open spec fn op_intake(op: MergeOpModel) -> Multiset<Seq<char>> {
    op.left.to_multiset().add(op.right.to_multiset())
}

/// The conservation invariant: every unit holds exactly its input; every
/// placeholder input equals (as a multiset) the input of the unit that will
/// produce it; the root unit's input is the whole item set; and a completed
/// engine's final order is a permutation of its items.
pub open spec fn merge_conserves(m: MergeModel) -> bool {
    &&& (forall|i: int|
        0 <= i < m.ops.len() ==> op_contents(#[trigger] m.ops[i]) == op_intake(m.ops[i]))
    &&& (forall|i: int|
        0 <= i < m.ops.len() ==> ((#[trigger] m.ops[i]).left_source matches Some(s) ==> 0 <= s
            < m.ops.len() && m.ops[i].left.to_multiset() == op_intake(m.ops[s])))
    &&& (forall|i: int|
        0 <= i < m.ops.len() ==> ((#[trigger] m.ops[i]).right_source matches Some(s) ==> 0 <= s
            < m.ops.len() && m.ops[i].right.to_multiset() == op_intake(m.ops[s])))
    &&& (m.ops.len() > 0 ==> op_intake(m.ops.last()) == m.items.to_multiset())
    &&& (m.completed ==> m.sorted.to_multiset() == m.items.to_multiset())
}

/// Splitting a sequence at a valid position splits its multiset.
proof fn lemma_skip_unfold(s: Seq<Seq<char>>, i: int)
    requires
        0 <= i < s.len(),
    ensures
        s.skip(i).to_multiset() == s.skip(i + 1).to_multiset().insert(s[i]),
    decreases s.len() - i,
{
    assert(s.skip(i) =~= seq![s[i]] + s.skip(i + 1));
    lemma_multiset_commutative(seq![s[i]], s.skip(i + 1));
    assert(seq![s[i]].to_multiset() =~= Multiset::<Seq<char>>::empty().insert(s[i]));
    assert(s.skip(i).to_multiset() =~= s.skip(i + 1).to_multiset().insert(s[i]));
}

/// An exhausted cursor leaves nothing unread.
proof fn lemma_skip_all(s: Seq<Seq<char>>)
    ensures
        s.skip(s.len() as int).to_multiset() == Multiset::<Seq<char>>::empty(),
{
    assert(s.skip(s.len() as int) =~= Seq::<Seq<char>>::empty());
    assert(Seq::<Seq<char>>::empty().to_multiset() =~= Multiset::<Seq<char>>::empty());
}

/// Consuming answers moves items from the inputs to the output one at a
/// time: contents, intake, sources and bounds are all preserved.
proof fn lemma_run_compares_conserves(
    op: MergeOpModel,
    ledger: Seq<(Seq<char>, Seq<char>, Seq<char>)>,
)
    requires
        0 <= op.left_idx <= op.left.len(),
        0 <= op.right_idx <= op.right.len(),
    ensures
        op_contents(run_compares(op, ledger)) == op_contents(op),
        op_intake(run_compares(op, ledger)) == op_intake(op),
        run_compares(op, ledger).left == op.left,
        run_compares(op, ledger).right == op.right,
        run_compares(op, ledger).left_source == op.left_source,
        run_compares(op, ledger).right_source == op.right_source,
        0 <= run_compares(op, ledger).left_idx <= op.left.len(),
        0 <= run_compares(op, ledger).right_idx <= op.right.len(),
    decreases op.left.len() + op.right.len() - op.left_idx - op.right_idx,
{
    if 0 <= op.left_idx < op.left.len() && 0 <= op.right_idx < op.right.len() {
        let a = op.left[op.left_idx];
        let b = op.right[op.right_idx];
        match crate::ledger::spec_lookup(ledger, a, b) {
            None => {},
            Some(w) => {
                if w == a {
                    let next = MergeOpModel {
                        result: op.result.push(a),
                        left_idx: op.left_idx + 1,
                        ..op
                    };
                    lemma_skip_unfold(op.left, op.left_idx);
                    lemma_run_compares_conserves(next, ledger);
                    assert(op_contents(next) =~= op_contents(op));
                } else {
                    let next = MergeOpModel {
                        result: op.result.push(b),
                        right_idx: op.right_idx + 1,
                        ..op
                    };
                    lemma_skip_unfold(op.right, op.right_idx);
                    lemma_run_compares_conserves(next, ledger);
                    assert(op_contents(next) =~= op_contents(op));
                }
            },
        }
    }
}

/// The tail flush moves the unread remainder to the output in one step.
proof fn lemma_flush_conserves(op: MergeOpModel)
    requires
        0 <= op.left_idx <= op.left.len(),
        0 <= op.right_idx <= op.right.len(),
    ensures
        op_contents(flush_op(op)) == op_contents(op),
        op_intake(flush_op(op)) == op_intake(op),
        flush_op(op).left == op.left,
        flush_op(op).right == op.right,
        flush_op(op).left_source == op.left_source,
        flush_op(op).right_source == op.right_source,
        0 <= flush_op(op).left_idx <= op.left.len(),
        0 <= flush_op(op).right_idx <= op.right.len(),
{
    if op.left_idx == op.left.len() {
        lemma_multiset_commutative(op.result, op.right.skip(op.right_idx));
        lemma_skip_all(op.right);
        lemma_skip_all(op.left);
        assert(op_contents(flush_op(op)) =~= op_contents(op));
    } else if op.right_idx == op.right.len() {
        lemma_multiset_commutative(op.result, op.left.skip(op.left_idx));
        lemma_skip_all(op.left);
        lemma_skip_all(op.right);
        assert(op_contents(flush_op(op)) =~= op_contents(op));
    }
}

/// One unit's whole share of an update pass conserves its contents.
proof fn lemma_advance_conserves(
    op: MergeOpModel,
    ledger: Seq<(Seq<char>, Seq<char>, Seq<char>)>,
)
    requires
        0 <= op.left_idx <= op.left.len(),
        0 <= op.right_idx <= op.right.len(),
    ensures
        op_contents(advance_op(op, ledger)) == op_contents(op),
        op_intake(advance_op(op, ledger)) == op_intake(op),
        advance_op(op, ledger).left == op.left,
        advance_op(op, ledger).right == op.right,
        advance_op(op, ledger).left_source == op.left_source,
        advance_op(op, ledger).right_source == op.right_source,
        0 <= advance_op(op, ledger).left_idx <= op.left.len(),
        0 <= advance_op(op, ledger).right_idx <= op.right.len(),
{
    if !op_blocked(op) {
        lemma_run_compares_conserves(op, ledger);
        lemma_flush_conserves(run_compares(op, ledger));
    }
}

/// A finished unit's output is exactly its input.
proof fn lemma_finished_output(op: MergeOpModel)
    requires
        op_finished(op),
        op_contents(op) == op_intake(op),
    ensures
        op.result.to_multiset() == op_intake(op),
{
    lemma_skip_all(op.left);
    lemma_skip_all(op.right);
    assert(op.result.to_multiset() =~= op_contents(op));
}

/// The whole-state pieces of the invariant over a unit sequence.
pub open spec fn ops_conserve(ops: Seq<MergeOpModel>) -> bool {
    &&& (forall|i: int| 0 <= i < ops.len() ==> op_contents(#[trigger] ops[i]) == op_intake(ops[i]))
    &&& (forall|i: int|
        0 <= i < ops.len() ==> ((#[trigger] ops[i]).left_source matches Some(s) ==> 0 <= s
            < ops.len() && ops[i].left.to_multiset() == op_intake(ops[s])))
    &&& (forall|i: int|
        0 <= i < ops.len() ==> ((#[trigger] ops[i]).right_source matches Some(s) ==> 0 <= s
            < ops.len() && ops[i].right.to_multiset() == op_intake(ops[s])))
}

/// Substituting finished inputs preserves every unit's intake and the whole
/// invariant.
proof fn lemma_refresh_upto_conserves(ops: Seq<MergeOpModel>, n: int)
    requires
        0 <= n <= ops.len(),
        forall|i: int| 0 <= i < ops.len() ==> op_model_wf(#[trigger] ops[i], i),
        ops_conserve(ops),
    ensures
        refresh_upto(ops, n).len() == ops.len(),
        forall|i: int|
            0 <= i < ops.len() ==> op_intake(#[trigger] refresh_upto(ops, n)[i]) == op_intake(
                ops[i],
            ),
        forall|i: int| 0 <= i < ops.len() ==> op_model_wf(#[trigger] refresh_upto(ops, n)[i], i),
        ops_conserve(refresh_upto(ops, n)),
    decreases n,
{
    if n > 0 {
        lemma_refresh_upto_conserves(ops, n - 1);
        let prev = refresh_upto(ops, n - 1);
        let o = prev[n - 1];
        let o2 = refresh_one(prev, o);
        // The left substitution, if it fires, swaps a placeholder for the
        // finished source's output, which carries the same items.
        let o1 = if o.left_source matches Some(s) && 0 <= s < prev.len() && op_finished(prev[s])
            && o.left_idx == 0 && o.result.len() == 0 {
            MergeOpModel { left: prev[o.left_source.unwrap()].result, left_source: None, ..o }
        } else {
            o
        };
        if o.left_source matches Some(s) && 0 <= s < prev.len() && op_finished(prev[s])
            && o.left_idx == 0 && o.result.len() == 0 {
            let s = o.left_source.unwrap();
            lemma_finished_output(prev[s]);
            assert(o1.left.to_multiset() == o.left.to_multiset());
            assert(op_intake(o1) =~= op_intake(o));
            // Contents: nothing is consumed yet, so contents track intake.
            assert(o.left.skip(0) =~= o.left);
            assert(o1.left.skip(0) =~= o1.left);
            assert(Seq::<Seq<char>>::empty().to_multiset() =~= Multiset::<Seq<char>>::empty());
            assert(o.result.to_multiset() =~= Multiset::<Seq<char>>::empty());
            assert(op_contents(o1) =~= op_contents(o));
        }
        if o1.right_source matches Some(s) && 0 <= s < prev.len() && op_finished(prev[s])
            && o1.right_idx == 0 && o1.result.len() == 0 {
            let s = o1.right_source.unwrap();
            lemma_finished_output(prev[s]);
            assert(o2.right.to_multiset() == o1.right.to_multiset());
            assert(op_intake(o2) =~= op_intake(o1));
            assert(o1.right.skip(0) =~= o1.right);
            assert(o2.right.skip(0) =~= o2.right);
            assert(Seq::<Seq<char>>::empty().to_multiset() =~= Multiset::<Seq<char>>::empty());
            assert(o1.result.to_multiset() =~= Multiset::<Seq<char>>::empty());
            assert(op_contents(o2) =~= op_contents(o1));
        } else {
            assert(o2 == o1);
        }
        assert(op_intake(o2) == op_intake(o));
        assert(op_contents(o2) == op_intake(o2));
        let res = prev.update(n - 1, o2);
        assert forall|i: int|
            0 <= i < ops.len() implies op_intake(#[trigger] res[i]) == op_intake(ops[i]) by {
            if i != n - 1 {
                assert(res[i] == prev[i]);
            }
        }
        assert forall|i: int|
            0 <= i < res.len() implies ((#[trigger] res[i]).left_source matches Some(s) ==> 0 <= s
            < res.len() && res[i].left.to_multiset() == op_intake(res[s])) by {
            match res[i].left_source {
                Some(s) => {
                    if i == n - 1 {
                        assert(o2.left_source == o1.left_source);
                        assert(o1.left_source == o.left_source);
                        assert(o1.left == o.left);
                        assert(o2.left == o1.left);
                        assert(op_intake(res[s]) == op_intake(prev[s]));
                    } else {
                        assert(res[i] == prev[i]);
                        assert(op_intake(res[s]) == op_intake(prev[s]));
                    }
                },
                None => {},
            }
        }
        assert forall|i: int|
            0 <= i < res.len() implies ((#[trigger] res[i]).right_source matches Some(s) ==> 0 <= s
            < res.len() && res[i].right.to_multiset() == op_intake(res[s])) by {
            match res[i].right_source {
                Some(s) => {
                    if i == n - 1 {
                        assert(o2.right == o1.right && o2.right_source == o1.right_source);
                        assert(o1.right == o.right && o1.right_source == o.right_source);
                        assert(op_intake(res[s]) == op_intake(prev[s]));
                    } else {
                        assert(res[i] == prev[i]);
                        assert(op_intake(res[s]) == op_intake(prev[s]));
                    }
                },
                None => {},
            }
        }
        assert forall|i: int|
            0 <= i < ops.len() implies op_model_wf(#[trigger] res[i], i) by {
            if i != n - 1 {
                assert(res[i] == prev[i]);
            }
        }
    }
}

/// The update pass conserves the invariant.
pub proof fn lemma_process_conserves(m: MergeModel)
    requires
        merge_wf(m),
        merge_conserves(m),
    ensures
        merge_conserves(spec_process(m)),
        merge_wf(spec_process(m)),
{
    let n = m.ops.len() as int;
    lemma_refresh_upto_conserves(m.ops, n);
    let ops2 = refresh_upto(m.ops, n);
    let ops3 = Seq::new(ops2.len(), |i: int| advance_op(ops2[i], m.ledger));
    assert forall|i: int| 0 <= i < ops3.len() implies op_contents(#[trigger] ops3[i]) == op_intake(
        ops3[i],
    ) && op_intake(ops3[i]) == op_intake(ops2[i]) && ops3[i].left_source == ops2[i].left_source
        && ops3[i].right_source == ops2[i].right_source && ops3[i].left == ops2[i].left
        && ops3[i].right == ops2[i].right && op_model_wf(ops3[i], i) by {
        assert(op_model_wf(ops2[i], i));
        lemma_advance_conserves(ops2[i], m.ledger);
    }
    assert forall|i: int|
        0 <= i < ops3.len() implies ((#[trigger] ops3[i]).left_source matches Some(s) ==> 0 <= s
        < ops3.len() && ops3[i].left.to_multiset() == op_intake(ops3[s])) by {
        if ops3[i].left_source matches Some(s) {
            assert(ops2[i].left_source == ops3[i].left_source);
        }
    }
    assert forall|i: int|
        0 <= i < ops3.len() implies ((#[trigger] ops3[i]).right_source matches Some(s) ==> 0 <= s
        < ops3.len() && ops3[i].right.to_multiset() == op_intake(ops3[s])) by {
        if ops3[i].right_source matches Some(s) {
            assert(ops2[i].right_source == ops3[i].right_source);
        }
    }
    let mp = spec_process(m);
    if mp.completed {
        if m.ops.len() > 0 && !op_blocked(ops3.last()) && op_at_end(ops3.last()) {
            let root = ops3.last();
            if op_at_end(root) {
                lemma_skip_all(root.left);
                lemma_skip_all(root.right);
                assert(root.result.to_multiset() =~= op_contents(root));
                assert(op_intake(root) == op_intake(m.ops[n - 1]));
                if mp.sorted == root.result {
                    assert(mp.sorted.to_multiset() == m.items.to_multiset());
                }
            }
        }
    }
}

/// `compare` conserves the invariant: answers move items around, never
/// create or drop them.
pub proof fn lemma_compare_conserves(m: MergeModel, a: Seq<char>, b: Seq<char>, w: Seq<char>)
    requires
        merge_wf(m),
        merge_conserves(m),
    ensures
        merge_conserves(spec_compare(m, a, b, w)),
        merge_wf(spec_compare(m, a, b, w)),
{
    if crate::ledger::spec_lookup(m.ledger, a, b) is Some {
    } else {
        let m1 = MergeModel { ledger: crate::ledger::spec_record(m.ledger, a, b, w), ..m };
        crate::ledger::lemma_record_wf(m.ledger, a, b, w);
        lemma_process_conserves(m1);
    }
}


// ---------------------------------------------------------------------------
// Establishment: the invariant holds of a freshly built engine. Singleton
// runs carry every item once; each pairing level conserves the level's
// items and wires each placeholder to the unit that produces it; the last
// unit built takes in the whole item set.
// ---------------------------------------------------------------------------

/// The items of a level's runs, from position `i` on.
pub open spec fn runs_total(runs: Seq<Seq<Seq<char>>>, i: int) -> Multiset<Seq<char>>
    decreases runs.len() - i,
{
    if i < 0 || i >= runs.len() {
        Multiset::empty()
    } else {
        runs[i].to_multiset().add(runs_total(runs, i + 1))
    }
}

proof fn lemma_singleton_total(items: Seq<Seq<char>>, i: int)
    requires
        0 <= i <= items.len(),
    ensures
        runs_total(singleton_runs(items), i) == items.skip(i).to_multiset(),
    decreases items.len() - i,
{
    if i == items.len() {
        lemma_skip_all(items);
    } else {
        lemma_singleton_total(items, i + 1);
        lemma_skip_unfold(items, i);
        assert(singleton_runs(items)[i] =~= seq![items[i]]);
        assert(seq![items[i]].to_multiset() =~= Multiset::<Seq<char>>::empty().insert(items[i]));
        assert(runs_total(singleton_runs(items), i) =~= items.skip(i).to_multiset());
    }
}

/// Every run's back-reference names a unit already built whose input is
/// exactly the run's items.
pub open spec fn srcs_ok(
    subs: Seq<Seq<Seq<char>>>,
    srcs: Seq<Option<int>>,
    acc: Seq<MergeOpModel>,
    i: int,
) -> bool {
    forall|k: int|
        i <= k < subs.len() ==> ((#[trigger] srcs[k]) matches Some(s) ==> 0 <= s < acc.len()
            && subs[k].to_multiset() == op_intake(acc[s]))
}

/// The per-unit invariant over everything built so far.
pub open spec fn acc_ok(acc: Seq<MergeOpModel>) -> bool {
    &&& (forall|k: int| 0 <= k < acc.len() ==> op_contents(#[trigger] acc[k]) == op_intake(acc[k]))
    &&& (forall|k: int|
        0 <= k < acc.len() ==> ((#[trigger] acc[k]).left_source matches Some(s) ==> 0 <= s < k
            && acc[k].left.to_multiset() == op_intake(acc[s])))
    &&& (forall|k: int|
        0 <= k < acc.len() ==> ((#[trigger] acc[k]).right_source matches Some(s) ==> 0 <= s < k
            && acc[k].right.to_multiset() == op_intake(acc[s])))
    &&& (forall|k: int| 0 <= k < acc.len() ==> op_model_wf(#[trigger] acc[k], k))
}

/// One pairing pass conserves the level's items and produces well-wired
/// units.
proof fn lemma_pair_level_conserves(
    subs: Seq<Seq<Seq<char>>>,
    srcs: Seq<Option<int>>,
    i: int,
    acc: Seq<MergeOpModel>,
)
    requires
        0 <= i <= subs.len(),
        srcs.len() == subs.len(),
        srcs_ok(subs, srcs, acc, i),
    ensures
        ({
            let l = pair_level_from(subs, srcs, i, acc.len() as int);
            let all = acc + l.0;
            &&& l.1.len() == l.2.len()
            &&& srcs_ok(l.1, l.2, all, 0)
            &&& runs_total(l.1, 0) == runs_total(subs, i)
            &&& (acc_ok(acc) ==> acc_ok(all))
            &&& (subs.len() - i == 2 ==> l.2 =~= seq![Some(acc.len() as int)])
            &&& (subs.len() - i >= 2 ==> l.0.len() >= 1)
        }),
    decreases subs.len() - i,
{
    reveal_with_fuel(runs_total, 3);
    let l = pair_level_from(subs, srcs, i, acc.len() as int);
    let all = acc + l.0;
    if i >= subs.len() {
        assert(all =~= acc);
        assert(runs_total(l.1, 0) =~= runs_total(subs, i));
    } else if i + 1 >= subs.len() {
        assert(all =~= acc);
        assert(l.1[0] == subs[i]);
        assert(l.2[0] == srcs[i]);
        assert(runs_total(l.1, 1) =~= Multiset::<Seq<char>>::empty());
        assert(runs_total(subs, i + 1) =~= Multiset::<Seq<char>>::empty());
        assert(runs_total(l.1, 0) =~= runs_total(subs, i));
    } else {
        let op = MergeOpModel {
            left: subs[i],
            right: subs[i + 1],
            left_idx: 0,
            right_idx: 0,
            result: Seq::<Seq<char>>::empty(),
            left_source: srcs[i],
            right_source: srcs[i + 1],
        };
        let acc2 = acc.push(op);
        assert forall|k: int|
            i + 2 <= k < subs.len() implies ((#[trigger] srcs[k]) matches Some(s) ==> 0 <= s
            < acc2.len() && subs[k].to_multiset() == op_intake(acc2[s])) by {
            match srcs[k] {
                Some(sx) => {
                    assert(acc2[sx] == acc[sx]);
                },
                None => {},
            }
        }
        lemma_pair_level_conserves(subs, srcs, i + 2, acc2);
        let rest = pair_level_from(subs, srcs, i + 2, acc2.len() as int);
        assert(l.0 == seq![op] + rest.0);
        assert(l.1 == seq![subs[i] + subs[i + 1]] + rest.1);
        assert(l.2 == seq![Some(acc.len() as int)] + rest.2);
        assert(all =~= acc2 + rest.0);
        let all2 = acc2 + rest.0;

        // The new unit holds exactly its input and is well formed.
        assert(op.left.skip(0) =~= op.left);
        assert(op.right.skip(0) =~= op.right);
        assert(Seq::<Seq<char>>::empty().to_multiset() =~= Multiset::<Seq<char>>::empty());
        assert(op_contents(op) =~= op_intake(op));

        // The produced run is wired to the new unit, carrying its input.
        lemma_multiset_commutative(subs[i], subs[i + 1]);
        assert(all[acc.len() as int] == op);
        assert forall|k: int|
            0 <= k < l.1.len() implies ((#[trigger] l.2[k]) matches Some(s) ==> 0 <= s < all.len()
            && l.1[k].to_multiset() == op_intake(all[s])) by {
            if k == 0 {
                assert(l.2[0] == Some(acc.len() as int));
                assert(l.1[0] == subs[i] + subs[i + 1]);
            } else {
                assert(l.2[k] == rest.2[k - 1]);
                assert(l.1[k] == rest.1[k - 1]);
                match rest.2[k - 1] {
                    Some(sx) => {
                        assert(all[sx] == all2[sx]);
                    },
                    None => {},
                }
            }
        }

        // The level's items are conserved.
        assert(runs_total(l.1, 0) == l.1[0].to_multiset().add(runs_total(l.1, 1)));
        assert forall|k: int| 0 <= k < rest.1.len() implies l.1[k + 1] == #[trigger] rest.1[k] by {
        }
        lemma_runs_total_shift(l.1, rest.1);
        assert(runs_total(subs, i) == subs[i].to_multiset().add(
            subs[i + 1].to_multiset().add(runs_total(subs, i + 2)),
        ));
        assert(runs_total(l.1, 0) =~= runs_total(subs, i));
        if subs.len() - i == 2 {
            assert(rest.2 =~= Seq::<Option<int>>::empty());
            assert(l.2 =~= seq![Some(acc.len() as int)]);
        }

        // Accumulated units stay well formed when the new unit is appended.
        if acc_ok(acc) {
            assert forall|k: int|
                0 <= k < all.len() implies op_contents(#[trigger] all[k]) == op_intake(all[k])
                && op_model_wf(all[k], k) by {
                if k < acc.len() {
                    assert(all[k] == acc[k]);
                } else if k == acc.len() {
                    assert(all[k] == op);
                } else {
                    assert(all[k] == all2[k]);
                    assert(all2[k] == rest.0[k - acc2.len()]);
                }
            }
            assert forall|k: int|
                0 <= k < all.len() implies ((#[trigger] all[k]).left_source matches Some(s) ==> 0
                <= s < k && all[k].left.to_multiset() == op_intake(all[s])) by {
                match all[k].left_source {
                    Some(sx) => {
                        if k < acc.len() {
                            assert(all[k] == acc[k]);
                            assert(all[sx] == acc[sx]);
                        } else if k == acc.len() {
                            assert(all[k] == op);
                            assert(all[sx] == acc[sx]);
                        } else {
                            assert(all[k] == all2[k]);
                            assert(all[sx] == all2[sx]);
                        }
                    },
                    None => {},
                }
            }
            assert forall|k: int|
                0 <= k < all.len() implies ((#[trigger] all[k]).right_source matches Some(s) ==> 0
                <= s < k && all[k].right.to_multiset() == op_intake(all[s])) by {
                match all[k].right_source {
                    Some(sx) => {
                        if k < acc.len() {
                            assert(all[k] == acc[k]);
                            assert(all[sx] == acc[sx]);
                        } else if k == acc.len() {
                            assert(all[k] == op);
                            assert(all[sx] == acc[sx]);
                        } else {
                            assert(all[k] == all2[k]);
                            assert(all[sx] == all2[sx]);
                        }
                    },
                    None => {},
                }
            }
        }
    }
}

/// Prepending one run shifts a level total by that run.
proof fn lemma_runs_total_shift(full: Seq<Seq<Seq<char>>>, rest: Seq<Seq<Seq<char>>>)
    requires
        full.len() == rest.len() + 1,
        forall|k: int| 0 <= k < rest.len() ==> full[k + 1] == #[trigger] rest[k],
    ensures
        runs_total(full, 1) == runs_total(rest, 0),
{
    lemma_runs_total_shift_from(full, rest, 0);
}

proof fn lemma_runs_total_shift_from(
    full: Seq<Seq<Seq<char>>>,
    rest: Seq<Seq<Seq<char>>>,
    k: int,
)
    requires
        0 <= k <= rest.len(),
        full.len() == rest.len() + 1,
        forall|t: int| 0 <= t < rest.len() ==> full[t + 1] == #[trigger] rest[t],
    ensures
        runs_total(full, k + 1) == runs_total(rest, k),
    decreases rest.len() - k,
{
    if k < rest.len() {
        lemma_runs_total_shift_from(full, rest, k + 1);
    }
}


/// Building the whole unit stack level by level keeps every unit well
/// wired, and the last unit built — the root — takes in the whole level
/// total.
proof fn lemma_build_ops_conserves(
    subs: Seq<Seq<Seq<char>>>,
    srcs: Seq<Option<int>>,
    acc: Seq<MergeOpModel>,
)
    requires
        srcs.len() == subs.len(),
        subs.len() >= 1,
        srcs_ok(subs, srcs, acc, 0),
        acc_ok(acc),
    ensures
        ({
            let res = build_ops(subs, srcs, acc);
            &&& acc_ok(res)
            &&& res.len() >= acc.len()
            &&& (subs.len() >= 2 ==> res.len() > acc.len() && op_intake(res.last())
                == runs_total(subs, 0))
            &&& (subs.len() < 2 ==> res == acc)
        }),
    decreases subs.len(),
{
    if subs.len() >= 2 {
        lemma_pair_level_conserves(subs, srcs, 0, acc);
        crate::merge::lemma_pair_level_len(subs, srcs, 0, acc.len() as int);
        let l = pair_level_from(subs, srcs, 0, acc.len() as int);
        let all = acc + l.0;
        assert(build_ops(subs, srcs, acc) == build_ops(l.1, l.2, all));
        lemma_build_ops_conserves(l.1, l.2, all);
        let res = build_ops(l.1, l.2, all);
        if l.1.len() >= 2 {
        } else {
            // Exactly two runs were paired: the single run produced is the
            // root's placeholder output, wired to the last unit built.
            assert(subs.len() == 2);
            assert(res == all);
            assert(l.0.len() == 1);
            assert(all.len() == acc.len() + 1);
            assert(all.last() == all[acc.len() as int]);
            assert(l.2 =~= seq![Some(acc.len() as int)]);
            assert(l.2[0] == Some(acc.len() as int));
            assert(l.1[0].to_multiset() == op_intake(all[acc.len() as int]));
            reveal_with_fuel(runs_total, 3);
            assert(runs_total(l.1, 1) =~= Multiset::<Seq<char>>::empty());
            assert(runs_total(l.1, 0) =~= l.1[0].to_multiset());
            assert(op_intake(res.last()) == runs_total(subs, 0));
        }
    }
}

/// A freshly built engine satisfies the conservation invariant.
pub proof fn lemma_new_conserves(items: Seq<Seq<char>>)
    ensures
        merge_conserves(spec_new(items)),
        merge_wf(spec_new(items)),
{
    let m = spec_new(items);
    if items.len() == 0 {
        assert(Seq::<Seq<char>>::empty().to_multiset() =~= Multiset::<Seq<char>>::empty());
        assert(m.sorted.to_multiset() =~= m.items.to_multiset());
    } else if items.len() == 1 {
    } else {
        let subs = singleton_runs(items);
        let srcs = Seq::new(items.len(), |i: int| None::<int>);
        assert forall|k: int|
            0 <= k < subs.len() implies !((#[trigger] srcs[k]) matches Some(s)) by {
            assert(srcs[k] == None::<int>);
        }
        assert(srcs_ok(subs, srcs, Seq::<MergeOpModel>::empty(), 0));
        assert(acc_ok(Seq::<MergeOpModel>::empty()));
        lemma_build_ops_conserves(subs, srcs, Seq::<MergeOpModel>::empty());
        lemma_singleton_total(items, 0);
        assert(items.skip(0) =~= items);
    }
}

proof fn lemma_replay_conserves_from(m: MergeModel, j: Seq<(Seq<char>, Seq<char>, Seq<char>)>)
    requires
        merge_wf(m),
        merge_conserves(m),
    ensures
        merge_conserves(spec_replay(m, j)),
        merge_wf(spec_replay(m, j)),
        spec_replay(m, j).items == m.items,
    decreases j.len(),
{
    if j.len() > 0 {
        lemma_compare_conserves(m, j[0].0, j[0].1, j[0].2);
        lemma_replay_conserves_from(spec_compare(m, j[0].0, j[0].1, j[0].2), j.drop_first());
    }
}

/// Conservation, end to end (invariant I2): however a run's questions are
/// answered — any journal of comparisons applied to a fresh engine — a
/// completed engine's final order holds exactly the items it was built
/// over, each one exactly once.
pub proof fn lemma_completed_order_permutes(
    items: Seq<Seq<char>>,
    j: Seq<(Seq<char>, Seq<char>, Seq<char>)>,
)
    requires
        spec_replay(spec_new(items), j).completed,
    ensures
        spec_replay(spec_new(items), j).sorted.to_multiset() == items.to_multiset(),
{
    lemma_new_conserves(items);
    lemma_replay_conserves_from(spec_new(items), j);
}

} // verus!
