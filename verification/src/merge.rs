use vstd::prelude::*;

use crate::error::Error;
use crate::id::Id;
use crate::item::Item;
use crate::ledger::{ledger_wf, spec_lookup, spec_record, Ledger};
use crate::session::{journal_view, Comparison};
use crate::strategy::{ids_view, RankResult, RankStrategy};

verus! {

// ---------------------------------------------------------------------------
// The mathematical model.
//
// Every operation of the engine is specified as a pure transition on this
// model; the executable functions promise that their effect equals the
// transition applied to the old state. The journal of answers is therefore
// the source of truth: two engines built from the same item order that have
// consumed the same answers are in the same model state.
// ---------------------------------------------------------------------------

/// The state of one merge unit: two sorted input runs, read cursors, the
/// accumulating output, and back-references to the units (by index) that
/// still have to produce the real inputs.
#[verifier::ext_equal]
pub ghost struct MergeOpModel {
    pub left: Seq<Seq<char>>,
    pub right: Seq<Seq<char>>,
    pub left_idx: int,
    pub right_idx: int,
    pub result: Seq<Seq<char>>,
    pub left_source: Option<int>,
    pub right_source: Option<int>,
}

/// The whole engine state: the item order it was built from, the ledger of
/// resolved outcomes, the merge units in creation order (bottom level first,
/// the root unit last), the final order once complete, and the completion
/// flag.
#[verifier::ext_equal]
pub ghost struct MergeModel {
    pub items: Seq<Seq<char>>,
    pub ledger: Seq<(Seq<char>, Seq<char>, Seq<char>)>,
    pub ops: Seq<MergeOpModel>,
    pub sorted: Seq<Seq<char>>,
    pub completed: bool,
}

/// A unit still waits for a predecessor to produce one of its inputs.
pub open spec fn op_blocked(op: MergeOpModel) -> bool {
    op.left_source is Some || op.right_source is Some
}

/// Both cursors have reached the end of their runs.
pub open spec fn op_at_end(op: MergeOpModel) -> bool {
    op.left_idx == op.left.len() && op.right_idx == op.right.len()
}

/// A unit has finished and produced output, so its result may be
/// substituted into the units that reference it.
pub open spec fn op_finished(op: MergeOpModel) -> bool {
    op_at_end(op) && op.result.len() > 0
}

/// Substitute finished predecessors' outputs for this unit's placeholder
/// inputs, provided the unit has not started consuming them; each satisfied
/// back-reference is then cleared.
pub open spec fn refresh_one(ops: Seq<MergeOpModel>, op: MergeOpModel) -> MergeOpModel {
    let op1 = if op.left_source matches Some(s) && 0 <= s < ops.len() && op_finished(ops[s])
        && op.left_idx == 0 && op.result.len() == 0 {
        MergeOpModel { left: ops[op.left_source.unwrap()].result, left_source: None, ..op }
    } else {
        op
    };
    if op1.right_source matches Some(s) && 0 <= s < ops.len() && op_finished(ops[s])
        && op1.right_idx == 0 && op1.result.len() == 0 {
        MergeOpModel { right: ops[op1.right_source.unwrap()].result, right_source: None, ..op1 }
    } else {
        op1
    }
}

/// Apply `refresh_one` to the first `n` units in order. Units are refreshed
/// left to right, each seeing the already-refreshed earlier units.
pub open spec fn refresh_upto(ops: Seq<MergeOpModel>, n: int) -> Seq<MergeOpModel>
    decreases n,
{
    if n <= 0 {
        ops
    } else {
        let prev = refresh_upto(ops, n - 1);
        if n - 1 < prev.len() {
            prev.update(n - 1, refresh_one(prev, prev[n - 1]))
        } else {
            prev
        }
    }
}

/// Consume ledger answers at the unit's front pair for as long as answers
/// exist and neither run is exhausted: the winner moves to the output and
/// that side's cursor advances.
pub open spec fn run_compares(
    op: MergeOpModel,
    ledger: Seq<(Seq<char>, Seq<char>, Seq<char>)>,
) -> MergeOpModel
    decreases op.left.len() + op.right.len() - op.left_idx - op.right_idx,
{
    if !(0 <= op.left_idx < op.left.len() && 0 <= op.right_idx < op.right.len()) {
        op
    } else {
        let a = op.left[op.left_idx];
        let b = op.right[op.right_idx];
        match spec_lookup(ledger, a, b) {
            None => op,
            Some(w) => {
                if w == a {
                    run_compares(
                        MergeOpModel {
                            result: op.result.push(a),
                            left_idx: op.left_idx + 1,
                            ..op
                        },
                        ledger,
                    )
                } else {
                    run_compares(
                        MergeOpModel {
                            result: op.result.push(b),
                            right_idx: op.right_idx + 1,
                            ..op
                        },
                        ledger,
                    )
                }
            },
        }
    }
}

/// Classic merge tail-flush: once one run is exhausted, the remainder of
/// the other is appended in order, no further comparisons required.
pub open spec fn flush_op(op: MergeOpModel) -> MergeOpModel {
    if op.left_idx == op.left.len() {
        MergeOpModel {
            result: op.result + op.right.skip(op.right_idx),
            right_idx: op.right.len() as int,
            ..op
        }
    } else if op.right_idx == op.right.len() {
        MergeOpModel {
            result: op.result + op.left.skip(op.left_idx),
            left_idx: op.left.len() as int,
            ..op
        }
    } else {
        op
    }
}

/// One unit's whole share of an update pass: blocked units stall; the rest
/// consume every available answer and then flush an exhausted side.
pub open spec fn advance_op(
    op: MergeOpModel,
    ledger: Seq<(Seq<char>, Seq<char>, Seq<char>)>,
) -> MergeOpModel {
    if op_blocked(op) {
        op
    } else {
        flush_op(run_compares(op, ledger))
    }
}

/// The update pass run by `compare` after recording an answer: substitute
/// finished inputs, then advance every unblocked unit as far as the ledger
/// allows. The engine completes when the root unit (the last one) has both
/// cursors at the end; its output is the final order.
pub open spec fn spec_process(m: MergeModel) -> MergeModel {
    let ops2 = refresh_upto(m.ops, m.ops.len() as int);
    let ops3 = Seq::new(ops2.len(), |i: int| advance_op(ops2[i], m.ledger));
    let root_done = ops3.len() > 0 && !op_blocked(ops3.last()) && op_at_end(ops3.last());
    MergeModel {
        items: m.items,
        ledger: m.ledger,
        ops: ops3,
        sorted: if root_done {
            ops3.last().result
        } else {
            m.sorted
        },
        completed: m.completed || root_done,
    }
}

/// What `compare` does to the model: an unordered pair that already has a
/// recorded outcome changes nothing (the first answer stands); a new pair
/// is recorded under its canonical key and an update pass runs.
pub open spec fn spec_compare(
    m: MergeModel,
    a: Seq<char>,
    b: Seq<char>,
    w: Seq<char>,
) -> MergeModel {
    if spec_lookup(m.ledger, a, b) is Some {
        m
    } else {
        spec_process(
            MergeModel { ledger: spec_record(m.ledger, a, b, w), ..m },
        )
    }
}

/// The pair `next_comparison` offers, scanning units in creation order from
/// position `i`: the first front pair of a unit with both cursors short of
/// the end and no recorded outcome.
pub open spec fn spec_next_from(
    ops: Seq<MergeOpModel>,
    ledger: Seq<(Seq<char>, Seq<char>, Seq<char>)>,
    i: int,
) -> Option<(Seq<char>, Seq<char>)>
    decreases ops.len() - i,
{
    if i < 0 || i >= ops.len() {
        None
    } else {
        let op = ops[i];
        if 0 <= op.left_idx < op.left.len() && 0 <= op.right_idx < op.right.len()
            && spec_lookup(ledger, op.left[op.left_idx], op.right[op.right_idx]) is None {
            Some((op.left[op.left_idx], op.right[op.right_idx]))
        } else {
            spec_next_from(ops, ledger, i + 1)
        }
    }
}

/// The pair the engine asks about next, if any.
pub open spec fn spec_next(m: MergeModel) -> Option<(Seq<char>, Seq<char>)> {
    spec_next_from(m.ops, m.ledger, 0)
}

/// Replaying a journal: apply `spec_compare` for each outcome in order.
pub open spec fn spec_replay(
    m: MergeModel,
    j: Seq<(Seq<char>, Seq<char>, Seq<char>)>,
) -> MergeModel
    decreases j.len(),
{
    if j.len() == 0 {
        m
    } else {
        spec_replay(spec_compare(m, j[0].0, j[0].1, j[0].2), j.drop_first())
    }
}

/// A journal is valid when every recorded winner is one of its own pair.
pub open spec fn journal_valid(j: Seq<(Seq<char>, Seq<char>, Seq<char>)>) -> bool {
    forall|k: int| 0 <= k < j.len() ==> ((#[trigger] j[k]).2 == j[k].0 || j[k].2 == j[k].1)
}

// ---------------------------------------------------------------------------
// Initialization: items become singleton runs; runs are paired left to
// right into merge units bottom-up, level by level; an unpaired trailing
// run carries forward untouched. Each new unit's placeholder output is the
// concatenation of its inputs, consumed positionally only.
// ---------------------------------------------------------------------------

/// Pair the runs of one level from position `i` on, numbering new units
/// from `c`. Returns the new units, the next level's runs (placeholder
/// concatenations), and for each next-level run the unit that produces it.
pub open spec fn pair_level_from(
    subs: Seq<Seq<Seq<char>>>,
    srcs: Seq<Option<int>>,
    i: int,
    c: int,
) -> (Seq<MergeOpModel>, Seq<Seq<Seq<char>>>, Seq<Option<int>>)
    decreases subs.len() - i,
{
    if i < 0 || i >= subs.len() {
        (
            Seq::<MergeOpModel>::empty(),
            Seq::<Seq<Seq<char>>>::empty(),
            Seq::<Option<int>>::empty(),
        )
    } else if i + 1 >= subs.len() {
        (Seq::<MergeOpModel>::empty(), seq![subs[i]], seq![srcs[i]])
    } else {
        let op = MergeOpModel {
            left: subs[i],
            right: subs[i + 1],
            left_idx: 0,
            right_idx: 0,
            result: Seq::<Seq<char>>::empty(),
            left_source: srcs[i],
            right_source: srcs[i + 1],
        };
        let rest = pair_level_from(subs, srcs, i + 2, c + 1);
        (
            seq![op] + rest.0,
            seq![subs[i] + subs[i + 1]] + rest.1,
            seq![Some(c)] + rest.2,
        )
    }
}

/// How many runs one pairing pass leaves, counting from position `i`.
pub proof fn lemma_pair_level_len(
    subs: Seq<Seq<Seq<char>>>,
    srcs: Seq<Option<int>>,
    i: int,
    c: int,
)
    requires
        0 <= i <= subs.len(),
    ensures
        pair_level_from(subs, srcs, i, c).1.len() == (subs.len() - i + 1) / 2,
        pair_level_from(subs, srcs, i, c).2.len() == (subs.len() - i + 1) / 2,
        pair_level_from(subs, srcs, i, c).0.len() == (subs.len() - i) / 2,
    decreases subs.len() - i,
{
    if i >= subs.len() {
    } else if i + 1 >= subs.len() {
    } else {
        lemma_pair_level_len(subs, srcs, i + 2, c + 1);
    }
}

/// Build the whole stack of merge units level by level, bottom-up, having
/// already built `acc`.
pub open spec fn build_ops(
    subs: Seq<Seq<Seq<char>>>,
    srcs: Seq<Option<int>>,
    acc: Seq<MergeOpModel>,
) -> Seq<MergeOpModel>
    decreases subs.len(),
    via build_ops_decreases
{
    if subs.len() <= 1 {
        acc
    } else {
        let l = pair_level_from(subs, srcs, 0, acc.len() as int);
        build_ops(l.1, l.2, acc + l.0)
    }
}

#[via_fn]
proof fn build_ops_decreases(
    subs: Seq<Seq<Seq<char>>>,
    srcs: Seq<Option<int>>,
    acc: Seq<MergeOpModel>,
) {
    if subs.len() > 1 {
        lemma_pair_level_len(subs, srcs, 0, acc.len() as int);
    }
}

/// Each item wrapped as a singleton run.
pub open spec fn singleton_runs(items: Seq<Seq<char>>) -> Seq<Seq<Seq<char>>> {
    Seq::new(items.len(), |i: int| seq![items[i]])
}

/// The model of a freshly constructed engine: zero or one item is complete
/// at once; otherwise the merge-unit stack is built and no answer is known.
pub open spec fn spec_new(items: Seq<Seq<char>>) -> MergeModel {
    if items.len() == 0 {
        MergeModel {
            items,
            ledger: Seq::empty(),
            ops: Seq::empty(),
            sorted: Seq::empty(),
            completed: true,
        }
    } else if items.len() == 1 {
        MergeModel {
            items,
            ledger: Seq::empty(),
            ops: Seq::empty(),
            sorted: items,
            completed: true,
        }
    } else {
        MergeModel {
            items,
            ledger: Seq::empty(),
            ops: build_ops(
                singleton_runs(items),
                Seq::new(items.len(), |i: int| None),
                Seq::empty(),
            ),
            sorted: Seq::empty(),
            completed: false,
        }
    }
}

// ---------------------------------------------------------------------------
// Well-formedness: back-references point strictly backwards (the stack is
// in creation order), cursors stay within their runs, and the ledger is
// canonically keyed with no pair twice.
// ---------------------------------------------------------------------------

/// Structural soundness of the unit at position `idx`.
pub open spec fn op_model_wf(op: MergeOpModel, idx: int) -> bool {
    &&& 0 <= op.left_idx <= op.left.len()
    &&& 0 <= op.right_idx <= op.right.len()
    &&& (op.left_source matches Some(s) ==> 0 <= s < idx)
    &&& (op.right_source matches Some(s) ==> 0 <= s < idx)
}

/// Structural soundness of a whole engine state.
pub open spec fn merge_wf(m: MergeModel) -> bool {
    &&& ledger_wf(m.ledger)
    &&& (forall|i: int| 0 <= i < m.ops.len() ==> op_model_wf(#[trigger] m.ops[i], i))
}

// ---------------------------------------------------------------------------
// The executable engine.
// ---------------------------------------------------------------------------

/// One merge unit of the executable engine.
struct MergeOp {
    left: Vec<Id>,
    right: Vec<Id>,
    left_idx: usize,
    right_idx: usize,
    result: Vec<Id>,
    left_source: Option<usize>,
    right_source: Option<usize>,
}

impl View for MergeOp {
    type V = MergeOpModel;

    closed spec fn view(&self) -> MergeOpModel {
        MergeOpModel {
            left: ids_view(self.left@),
            right: ids_view(self.right@),
            left_idx: self.left_idx as int,
            right_idx: self.right_idx as int,
            result: ids_view(self.result@),
            left_source: match self.left_source {
                Some(s) => Some(s as int),
                None => None,
            },
            right_source: match self.right_source {
                Some(s) => Some(s as int),
                None => None,
            },
        }
    }
}

/// The views of a sequence of merge units.
spec fn ops_view(v: Seq<MergeOp>) -> Seq<MergeOpModel> {
    v.map_values(|op: MergeOp| op@)
}

/// The views of a sequence of runs.
spec fn runs_view(v: Seq<Vec<Id>>) -> Seq<Seq<Seq<char>>> {
    v.map_values(|r: Vec<Id>| ids_view(r@))
}

/// The views of a sequence of optional unit indices.
spec fn srcs_view(v: Seq<Option<usize>>) -> Seq<Option<int>> {
    v.map_values(
        |o: Option<usize>|
            match o {
                Some(s) => Some(s as int),
                None => None,
            },
    )
}

/// `refresh_upto` keeps the number of units and leaves units at or past
/// `n` untouched.
proof fn lemma_refresh_upto_props(ops: Seq<MergeOpModel>, n: int)
    ensures
        refresh_upto(ops, n).len() == ops.len(),
        forall|j: int| n <= j < ops.len() ==> refresh_upto(ops, n)[j] == ops[j],
    decreases n,
{
    if n > 0 {
        lemma_refresh_upto_props(ops, n - 1);
    }
}

proof fn lemma_ids_view_push(s: Seq<Id>, x: Id)
    ensures
        ids_view(s.push(x)) == ids_view(s).push(x@),
{
    assert(ids_view(s.push(x)) =~= ids_view(s).push(x@));
}

proof fn lemma_ops_view_index(s: Seq<MergeOp>, i: int)
    requires
        0 <= i < s.len(),
    ensures
        ops_view(s)[i] == s[i]@,
{
}

proof fn lemma_runs_view_index(s: Seq<Vec<Id>>, i: int)
    requires
        0 <= i < s.len(),
    ensures
        runs_view(s)[i] == ids_view(s[i]@),
{
}

proof fn lemma_srcs_view_index(s: Seq<Option<usize>>, i: int)
    requires
        0 <= i < s.len(),
    ensures
        srcs_view(s)[i] == (match s[i] {
            Some(v) => Some(v as int),
            None => None,
        }),
{
}

proof fn lemma_ops_view_len(s: Seq<MergeOp>)
    ensures
        ops_view(s).len() == s.len(),
{
}

proof fn lemma_runs_view_len(s: Seq<Vec<Id>>)
    ensures
        runs_view(s).len() == s.len(),
{
}

proof fn lemma_srcs_view_len(s: Seq<Option<usize>>)
    ensures
        srcs_view(s).len() == s.len(),
{
}


/// Merge-sort ranking strategy: an iterative merge sort whose every
/// comparison is an explicit question to the caller, able to pause between
/// any two steps.
pub struct MergeStrategy {
    items: Vec<Id>,
    ledger: Ledger,
    ops: Vec<MergeOp>,
    sorted: Vec<Id>,
    completed: bool,
}

impl View for MergeStrategy {
    type V = MergeModel;

    closed spec fn view(&self) -> MergeModel {
        MergeModel {
            items: ids_view(self.items@),
            ledger: self.ledger@,
            ops: ops_view(self.ops@),
            sorted: ids_view(self.sorted@),
            completed: self.completed,
        }
    }
}

/// The contents of a snapshot: the full engine state, ledger included, so
/// a snapshot is self-describing.
#[verifier::ext_equal]
pub ghost struct MergeSnapshotModel {
    pub ledger: Seq<(Seq<char>, Seq<char>, Seq<char>)>,
    pub ops: Seq<MergeOpModel>,
    pub sorted: Seq<Seq<char>>,
    pub completed: bool,
}

/// An opaque snapshot of the engine, sufficient to resume without replay:
/// the merge units, the final order, the completion flag, and the ledger.
pub struct MergeSnapshot {
    ledger: Ledger,
    ops: Vec<MergeOp>,
    sorted: Vec<Id>,
    completed: bool,
}

impl View for MergeSnapshot {
    type V = MergeSnapshotModel;

    closed spec fn view(&self) -> MergeSnapshotModel {
        MergeSnapshotModel {
            ledger: self.ledger@,
            ops: ops_view(self.ops@),
            sorted: ids_view(self.sorted@),
            completed: self.completed,
        }
    }
}

/// The snapshot of an engine state.
pub open spec fn snapshot_of(m: MergeModel) -> MergeSnapshotModel {
    MergeSnapshotModel { ledger: m.ledger, ops: m.ops, sorted: m.sorted, completed: m.completed }
}

/// What restoring a snapshot requires of its data: the same structural
/// soundness the engine maintains of itself (canonical, duplicate-free
/// ledger; cursors within their runs; back-references pointing strictly
/// backwards).
pub open spec fn snapshot_wf(s: MergeSnapshotModel) -> bool {
    &&& ledger_wf(s.ledger)
    &&& (forall|i: int| 0 <= i < s.ops.len() ==> op_model_wf(#[trigger] s.ops[i], i))
}

/// Copy a vector of identifiers.
fn clone_ids(v: &Vec<Id>) -> (r: Vec<Id>)
    ensures
        ids_view(r@) == ids_view(v@),
        r@.len() == v@.len(),
{
    let n = v.len();
    let mut r: Vec<Id> = Vec::new();
    let mut i: usize = 0;
    while i < n
        invariant
            n == v@.len(),
            i <= n,
            r@.len() == i,
            forall|k: int| 0 <= k < i ==> r@[k]@ == v@[k]@,
        decreases n - i,
    {
        r.push(v[i].clone());
        i = i + 1;
    }
    proof {
        assert(ids_view(r@) =~= ids_view(v@));
    }
    r
}

/// Copy one merge unit.
fn clone_op(op: &MergeOp) -> (r: MergeOp)
    ensures
        r@ == op@,
{
    let r = MergeOp {
        left: clone_ids(&op.left),
        right: clone_ids(&op.right),
        left_idx: op.left_idx,
        right_idx: op.right_idx,
        result: clone_ids(&op.result),
        left_source: op.left_source,
        right_source: op.right_source,
    };
    proof {
        assert(r@ =~= op@);
    }
    r
}

/// Copy a vector of merge units.
fn clone_ops(v: &Vec<MergeOp>) -> (r: Vec<MergeOp>)
    ensures
        ops_view(r@) == ops_view(v@),
{
    let n = v.len();
    let mut r: Vec<MergeOp> = Vec::new();
    let mut i: usize = 0;
    while i < n
        invariant
            n == v@.len(),
            i <= n,
            r@.len() == i,
            forall|k: int| 0 <= k < i ==> r@[k]@ == v@[k]@,
        decreases n - i,
    {
        r.push(clone_op(&v[i]));
        i = i + 1;
    }
    proof {
        assert forall|k: int| 0 <= k < n implies ops_view(r@)[k] == ops_view(v@)[k] by {
            lemma_ops_view_index(r@, k);
            lemma_ops_view_index(v@, k);
        }
        lemma_ops_view_len(r@);
        lemma_ops_view_len(v@);
        assert(ops_view(r@) =~= ops_view(v@));
    }
    r
}

impl MergeStrategy {
    /// Construct an engine over the given item order. Zero or one item is
    /// complete immediately; otherwise the merge-unit stack is built
    /// bottom-up from singleton runs and no answer is known yet.
    pub fn new(items: Vec<Id>) -> (s: MergeStrategy)
        ensures
            s@ == spec_new(ids_view(items@)),
            merge_wf(s@),
    {
        let n = items.len();
        let mut s = MergeStrategy {
            items,
            ledger: Ledger::new(),
            ops: Vec::new(),
            sorted: Vec::new(),
            completed: false,
        };
        if n == 0 {
            s.completed = true;
            proof {
                assert(s@ =~= spec_new(ids_view(s.items@)));
            }
        } else if n == 1 {
            s.sorted = clone_ids(&s.items);
            s.completed = true;
            proof {
                assert(s@ =~= spec_new(ids_view(s.items@)));
            }
        } else {
            s.initialize_merge_sort();
            proof {
                assert(s@ =~= spec_new(ids_view(s.items@)));
            }
        }
        s
    }

    /// Build the merge-unit stack: singleton runs paired left to right into
    /// units level by level, an odd trailing run carried forward untouched,
    /// each unit's placeholder output the concatenation of its inputs.
    fn initialize_merge_sort(&mut self)
        requires
            old(self)@.ops.len() == 0,
            old(self)@.items.len() >= 2,
        ensures
            final(self)@ == (MergeModel {
                ops: build_ops(
                    singleton_runs(old(self)@.items),
                    Seq::new(old(self)@.items.len(), |i: int| None),
                    Seq::<MergeOpModel>::empty(),
                ),
                ..old(self)@
            }),
            forall|i: int|
                0 <= i < final(self)@.ops.len() ==> op_model_wf(#[trigger] final(self)@.ops[i], i),
    {
        let ghost itemsv = ids_view(self.items@);
        let n = self.items.len();

        // Singleton runs, one per item, in item order.
        let mut sublists: Vec<Vec<Id>> = Vec::new();
        let mut i: usize = 0;
        while i < n
            invariant
                n == self.items@.len(),
                i <= n,
                itemsv == ids_view(self.items@),
                sublists@.len() == i,
                forall|k: int|
                    0 <= k < i ==> ids_view((#[trigger] sublists@[k])@) == seq![itemsv[k]],
            decreases n - i,
        {
            let mut run: Vec<Id> = Vec::new();
            run.push(self.items[i].clone());
            proof {
                assert(itemsv[i as int] == self.items@[i as int]@);
                assert(ids_view(run@) =~= seq![itemsv[i as int]]);
            }
            sublists.push(run);
            i = i + 1;
        }
        let mut sources: Vec<Option<usize>> = vec![None; n];
        proof {
            assert forall|k: int| 0 <= k < sublists@.len() implies runs_view(sublists@)[k]
                == singleton_runs(itemsv)[k] by {
                lemma_runs_view_index(sublists@, k);
            }
            lemma_runs_view_len(sublists@);
            assert(runs_view(sublists@) =~= singleton_runs(itemsv));
            assert forall|k: int| 0 <= k < sources@.len() implies srcs_view(sources@)[k]
                == Seq::new(itemsv.len(), |i: int| None::<int>)[k] by {
                lemma_srcs_view_index(sources@, k);
            }
            lemma_srcs_view_len(sources@);
            assert(srcs_view(sources@) =~= Seq::new(itemsv.len(), |i: int| None));
        }

        let ghost target = build_ops(
            singleton_runs(itemsv),
            Seq::new(itemsv.len(), |i: int| None),
            Seq::<MergeOpModel>::empty(),
        );
        let mut ops: Vec<MergeOp> = Vec::new();
        proof {
            lemma_ops_view_len(ops@);
        }

        while sublists.len() > 1
            invariant
                sources@.len() == sublists@.len(),
                sublists@.len() >= 1,
                build_ops(runs_view(sublists@), srcs_view(sources@), ops_view(ops@)) == target,
                ops_view(ops@).len() == ops@.len(),
                forall|k: int|
                    0 <= k < sources@.len() ==> ((#[trigger] sources@[k]) matches Some(s) ==> (
                    s as int) < ops@.len()),
                forall|j: int| 0 <= j < ops@.len() ==> op_model_wf((#[trigger] ops@[j])@, j),
            decreases sublists@.len(),
        {
            let ghost subsv = runs_view(sublists@);
            let ghost srcsv = srcs_view(sources@);
            let ghost c0 = ops@.len() as int;
            let ghost ops0 = ops_view(ops@);
            let ghost full = pair_level_from(subsv, srcsv, 0, c0);
            let ghost mut delta = Seq::<MergeOpModel>::empty();

            let m = sublists.len();
            let mut next_level: Vec<Vec<Id>> = Vec::new();
            let mut next_sources: Vec<Option<usize>> = Vec::new();
            let mut i: usize = 0;
            proof {
                lemma_runs_view_len(sublists@);
                lemma_srcs_view_len(sources@);
                lemma_runs_view_len(next_level@);
                lemma_srcs_view_len(next_sources@);
                assert(ops_view(ops@) =~= ops0 + delta);
                assert(full.0 =~= delta + full.0);
                assert(full.1 =~= runs_view(next_level@) + full.1);
                assert(full.2 =~= srcs_view(next_sources@) + full.2);
            }
            while i < m
                invariant
                    m == sublists@.len(),
                    sources@.len() == m,
                    i <= m,
                    subsv == runs_view(sublists@),
                    srcsv == srcs_view(sources@),
                    subsv.len() == m,
                    srcsv.len() == m,
                    full == pair_level_from(subsv, srcsv, 0, c0),
                    c0 <= ops@.len(),
                    ops_view(ops@).len() == ops@.len(),
                    ops_view(ops@) == ops0 + delta,
                    delta.len() == ops@.len() - c0,
                    full.0 == delta + pair_level_from(
                        subsv,
                        srcsv,
                        i as int,
                        ops@.len() as int,
                    ).0,
                    full.1 == runs_view(next_level@) + pair_level_from(
                        subsv,
                        srcsv,
                        i as int,
                        ops@.len() as int,
                    ).1,
                    full.2 == srcs_view(next_sources@) + pair_level_from(
                        subsv,
                        srcsv,
                        i as int,
                        ops@.len() as int,
                    ).2,
                    forall|k: int|
                        0 <= k < sources@.len() ==> ((#[trigger] sources@[k]) matches Some(s)
                            ==> (s as int) < c0),
                    forall|j: int| 0 <= j < ops@.len() ==> op_model_wf((#[trigger] ops@[j])@, j),
                    forall|k: int|
                        0 <= k < next_sources@.len() ==> ((#[trigger] next_sources@[k]) matches
                            Some(s) ==> (s as int) < ops@.len()),
                decreases m - i,
            {
                let ghost cnt = ops@.len() as int;
                let ghost pre_ops = ops@;
                let ghost pre_next = next_level@;
                let ghost pre_nsrcs = next_sources@;
                let ghost step = pair_level_from(subsv, srcsv, i as int, cnt);
                if i + 1 < m {
                    let left = clone_ids(&sublists[i]);
                    let right = clone_ids(&sublists[i + 1]);
                    let mut merged = clone_ids(&sublists[i]);
                    let mut tail = clone_ids(&sublists[i + 1]);
                    merged.append(&mut tail);
                    let ghost mergedv = ids_view(merged@);
                    let op_idx = ops.len();
                    let op = MergeOp {
                        left,
                        right,
                        left_idx: 0,
                        right_idx: 0,
                        result: Vec::new(),
                        left_source: sources[i],
                        right_source: sources[i + 1],
                    };
                    let ghost opm = op@;
                    let ghost rest2 = pair_level_from(subsv, srcsv, i + 2, cnt + 1);
                    proof {
                        lemma_runs_view_index(sublists@, i as int);
                        lemma_runs_view_index(sublists@, i + 1);
                        lemma_srcs_view_index(sources@, i as int);
                        lemma_srcs_view_index(sources@, i + 1);
                        assert(mergedv =~= subsv[i as int] + subsv[i + 1]);
                        assert(opm =~= MergeOpModel {
                            left: subsv[i as int],
                            right: subsv[i + 1],
                            left_idx: 0,
                            right_idx: 0,
                            result: Seq::<Seq<char>>::empty(),
                            left_source: srcsv[i as int],
                            right_source: srcsv[i + 1],
                        });
                        assert(step.0 == seq![opm] + rest2.0);
                        assert(step.1 == seq![mergedv] + rest2.1);
                        assert(step.2 == seq![Some(cnt)] + rest2.2);
                    }
                    ops.push(op);
                    next_level.push(merged);
                    next_sources.push(Some(op_idx));
                    proof {
                        assert forall|k: int| 0 <= k < ops@.len() implies ops_view(ops@)[k]
                            == ops_view(pre_ops).push(opm)[k] by {
                            lemma_ops_view_index(ops@, k);
                            if k < pre_ops.len() {
                                lemma_ops_view_index(pre_ops, k);
                            }
                        }
                        lemma_ops_view_len(ops@);
                        lemma_ops_view_len(pre_ops);
                        assert(ops_view(ops@) =~= ops_view(pre_ops).push(opm));
                        delta = delta.push(opm);
                        assert(ops_view(ops@) =~= ops0 + delta);
                        assert(delta.drop_last() + (seq![opm] + rest2.0) =~= delta + rest2.0);

                        assert forall|k: int| 0 <= k < next_level@.len() implies runs_view(
                            next_level@,
                        )[k] == runs_view(pre_next).push(mergedv)[k] by {
                            lemma_runs_view_index(next_level@, k);
                            if k < pre_next.len() {
                                lemma_runs_view_index(pre_next, k);
                            }
                        }
                        lemma_runs_view_len(next_level@);
                        lemma_runs_view_len(pre_next);
                        assert(runs_view(next_level@) =~= runs_view(pre_next).push(mergedv));
                        assert(runs_view(pre_next) + (seq![mergedv] + rest2.1) =~= runs_view(
                            next_level@,
                        ) + rest2.1);

                        assert forall|k: int| 0 <= k < next_sources@.len() implies srcs_view(
                            next_sources@,
                        )[k] == srcs_view(pre_nsrcs).push(Some(cnt))[k] by {
                            lemma_srcs_view_index(next_sources@, k);
                            if k < pre_nsrcs.len() {
                                lemma_srcs_view_index(pre_nsrcs, k);
                            }
                        }
                        lemma_srcs_view_len(next_sources@);
                        lemma_srcs_view_len(pre_nsrcs);
                        assert(srcs_view(next_sources@) =~= srcs_view(pre_nsrcs).push(Some(cnt)));
                        assert(srcs_view(pre_nsrcs) + (seq![Some(cnt)] + rest2.2) =~= srcs_view(
                            next_sources@,
                        ) + rest2.2);

                        assert(op_model_wf(opm, cnt));
                        assert forall|j: int| 0 <= j < ops@.len() implies op_model_wf(
                            (#[trigger] ops@[j])@,
                            j,
                        ) by {
                            if j < cnt {
                                assert(ops@[j] == pre_ops[j]);
                            } else {
                                assert(ops@[j]@ == opm);
                            }
                        }
                    }
                    i = i + 2;
                } else {
                    let carried = clone_ids(&sublists[i]);
                    let ghost carriedv = ids_view(carried@);
                    next_level.push(carried);
                    next_sources.push(sources[i]);
                    proof {
                        lemma_runs_view_index(sublists@, i as int);
                        lemma_srcs_view_index(sources@, i as int);
                        assert(carriedv == subsv[i as int]);
                        assert(step.1 == seq![subsv[i as int]]);
                        assert(step.2 == seq![srcsv[i as int]]);
                        let ghost rest1 = pair_level_from(subsv, srcsv, i + 1, cnt);
                        assert(rest1.0 =~= Seq::<MergeOpModel>::empty());
                        assert(rest1.1 =~= Seq::<Seq<Seq<char>>>::empty());
                        assert(rest1.2 =~= Seq::<Option<int>>::empty());
                        assert(step.0 =~= rest1.0);

                        assert forall|k: int| 0 <= k < next_level@.len() implies runs_view(
                            next_level@,
                        )[k] == runs_view(pre_next).push(carriedv)[k] by {
                            lemma_runs_view_index(next_level@, k);
                            if k < pre_next.len() {
                                lemma_runs_view_index(pre_next, k);
                            }
                        }
                        lemma_runs_view_len(next_level@);
                        lemma_runs_view_len(pre_next);
                        assert(runs_view(next_level@) =~= runs_view(pre_next).push(carriedv));
                        assert(runs_view(pre_next) + (seq![carriedv] + rest1.1) =~= runs_view(
                            next_level@,
                        ) + rest1.1);

                        let ghost sv = srcs_view(sources@)[i as int];
                        assert forall|k: int| 0 <= k < next_sources@.len() implies srcs_view(
                            next_sources@,
                        )[k] == srcs_view(pre_nsrcs).push(sv)[k] by {
                            lemma_srcs_view_index(next_sources@, k);
                            if k < pre_nsrcs.len() {
                                lemma_srcs_view_index(pre_nsrcs, k);
                            }
                        }
                        lemma_srcs_view_len(next_sources@);
                        lemma_srcs_view_len(pre_nsrcs);
                        assert(srcs_view(next_sources@) =~= srcs_view(pre_nsrcs).push(sv));
                        assert(srcs_view(pre_nsrcs) + (seq![sv] + rest1.2) =~= srcs_view(
                            next_sources@,
                        ) + rest1.2);
                    }
                    i = i + 1;
                }
            }
            proof {
                lemma_pair_level_len(subsv, srcsv, 0, c0);
                assert(pair_level_from(subsv, srcsv, m as int, ops@.len() as int).0
                    =~= Seq::<MergeOpModel>::empty());
                assert(pair_level_from(subsv, srcsv, m as int, ops@.len() as int).1
                    =~= Seq::<Seq<Seq<char>>>::empty());
                assert(pair_level_from(subsv, srcsv, m as int, ops@.len() as int).2
                    =~= Seq::<Option<int>>::empty());
                assert(full.0 =~= delta);
                assert(full.1 =~= runs_view(next_level@));
                assert(full.2 =~= srcs_view(next_sources@));
                assert(ops_view(ops@) =~= ops0 + full.0);
                assert(build_ops(subsv, srcsv, ops0) == build_ops(full.1, full.2, ops0 + full.0));
                lemma_runs_view_len(next_level@);
                assert(runs_view(next_level@).len() >= 1);
                assert(runs_view(next_level@).len() < m);
            }
            sublists = next_level;
            sources = next_sources;
        }
        self.ops = ops;
        proof {
            assert(runs_view(sublists@).len() == sublists@.len()) by {
                lemma_runs_view_len(sublists@);
            }
            assert(ops_view(self.ops@) == target);
            assert(final(self)@ =~= (MergeModel {
                ops: build_ops(
                    singleton_runs(old(self)@.items),
                    Seq::new(old(self)@.items.len(), |i: int| None),
                    Seq::<MergeOpModel>::empty(),
                ),
                ..old(self)@
            }));
            assert forall|j: int| 0 <= j < final(self)@.ops.len() implies op_model_wf(
                #[trigger] final(self)@.ops[j],
                j,
            ) by {
                lemma_ops_view_index(self.ops@, j);
            }
        }
    }



    /// One update pass over the merge units, run after every newly recorded
    /// answer: substitute finished predecessors' outputs for placeholder
    /// inputs, advance every unblocked unit as far as the ledger allows,
    /// and complete the engine when the root unit finishes.
    fn process_merges(&mut self)
        requires
            merge_wf(old(self)@),
        ensures
            final(self)@ == spec_process(old(self)@),
            merge_wf(final(self)@),
    {
        let ghost m0 = self@;
        let ghost ledgerv = self@.ledger;
        let ghost orig = self@.ops;
        let n = self.ops.len();
        proof {
            lemma_ops_view_len(self.ops@);
            assert(ops_view(self.ops@) =~= refresh_upto(orig, 0));
            assert forall|j: int| 0 <= j < n implies op_model_wf(
                (#[trigger] self.ops@[j])@,
                j,
            ) by {
                lemma_ops_view_index(self.ops@, j);
            }
        }

        // First pass: substitute inputs produced by finished units.
        let mut idx: usize = 0;
        while idx < n
            invariant
                n == self.ops@.len(),
                idx <= n,
                orig.len() == n,
                merge_wf(m0),
                ops_view(self.ops@) == refresh_upto(orig, idx as int),
                forall|j: int| 0 <= j < n ==> op_model_wf((#[trigger] self.ops@[j])@, j),
                ids_view(self.items@) == m0.items,
                self.ledger@ == ledgerv,
                ids_view(self.sorted@) == m0.sorted,
                self.completed == m0.completed,
            decreases n - idx,
        {
            let ghost prev = ops_view(self.ops@);
            proof {
                lemma_ops_view_len(self.ops@);
                lemma_ops_view_index(self.ops@, idx as int);
            }
            let ls = self.ops[idx].left_source;
            if let Some(s) = ls {
                proof {
                    assert(self.ops@[idx as int]@.left_source == Some(s as int));
                }
                let src_done = self.ops[s].left_idx == self.ops[s].left.len()
                    && self.ops[s].right_idx == self.ops[s].right.len() && self.ops[s].result.len()
                    > 0;
                if src_done && self.ops[idx].left_idx == 0 && self.ops[idx].result.len() == 0 {
                    let newleft = clone_ids(&self.ops[s].result);
                    proof {
                        lemma_ops_view_index(self.ops@, s as int);
                    }
                    let op = &mut self.ops[idx];
                    op.left = newleft;
                    op.left_source = None;
                }
            }
            let rs = self.ops[idx].right_source;
            if let Some(s) = rs {
                proof {
                    lemma_ops_view_index(self.ops@, idx as int);
                    assert(self.ops@[idx as int]@.right_source == Some(s as int));
                }
                let src_done = self.ops[s].left_idx == self.ops[s].left.len()
                    && self.ops[s].right_idx == self.ops[s].right.len() && self.ops[s].result.len()
                    > 0;
                if src_done && self.ops[idx].right_idx == 0 && self.ops[idx].result.len() == 0 {
                    let newright = clone_ids(&self.ops[s].result);
                    proof {
                        lemma_ops_view_index(self.ops@, s as int);
                    }
                    let op = &mut self.ops[idx];
                    op.right = newright;
                    op.right_source = None;
                }
            }
            proof {
                assert forall|k: int| 0 <= k < n implies ops_view(self.ops@)[k] == prev.update(
                    idx as int,
                    refresh_one(prev, prev[idx as int]),
                )[k] by {
                    lemma_ops_view_index(self.ops@, k);
                    if k != idx {
                        assert(self.ops@[k]@ == prev[k]);
                    }
                }
                lemma_ops_view_len(self.ops@);
                assert(ops_view(self.ops@) =~= prev.update(
                    idx as int,
                    refresh_one(prev, prev[idx as int]),
                ));
                lemma_refresh_upto_props(orig, idx as int);
                assert(refresh_upto(orig, idx + 1) == prev.update(
                    idx as int,
                    refresh_one(prev, prev[idx as int]),
                ));
            }
            idx = idx + 1;
        }

        // Second pass: every unit not waiting on a predecessor consumes the
        // answers available at its front pair, then flushes an exhausted
        // side.
        let ghost ops2 = ops_view(self.ops@);
        proof {
            lemma_ops_view_len(self.ops@);
        }
        let mut idx: usize = 0;
        while idx < n
            invariant
                n == self.ops@.len(),
                idx <= n,
                ops2.len() == n,
                forall|j: int| idx <= j < n ==> (#[trigger] self.ops@[j])@ == ops2[j],
                forall|j: int|
                    0 <= j < idx ==> (#[trigger] self.ops@[j])@ == advance_op(ops2[j], ledgerv),
                forall|j: int| 0 <= j < n ==> op_model_wf((#[trigger] self.ops@[j])@, j),
                ids_view(self.items@) == m0.items,
                self.ledger@ == ledgerv,
                ids_view(self.sorted@) == m0.sorted,
                self.completed == m0.completed,
            decreases n - idx,
        {
            proof {
                lemma_ops_view_index(self.ops@, idx as int);
            }
            let blocked = self.ops[idx].left_source.is_some()
                || self.ops[idx].right_source.is_some();
            let ghost start = self.ops@[idx as int]@;
            let ghost pre_pass = self.ops@;
            if !blocked {
                let mut made_progress = true;
                while made_progress && self.ops[idx].left_idx < self.ops[idx].left.len()
                    && self.ops[idx].right_idx < self.ops[idx].right.len()
                    invariant
                        n == self.ops@.len(),
                        idx < n,
                        pre_pass.len() == n,
                        forall|j: int| 0 <= j < n && j != idx ==> self.ops@[j] == pre_pass[j],
                        self.ledger@ == ledgerv,
                        ids_view(self.items@) == m0.items,
                        ids_view(self.sorted@) == m0.sorted,
                        self.completed == m0.completed,
                        op_model_wf(self.ops@[idx as int]@, idx as int),
                        !op_blocked(self.ops@[idx as int]@),
                        run_compares(start, ledgerv) == run_compares(
                            self.ops@[idx as int]@,
                            ledgerv,
                        ),
                        !made_progress ==> run_compares(self.ops@[idx as int]@, ledgerv)
                            == self.ops@[idx as int]@,
                    decreases (if made_progress {
                        1int
                    } else {
                        0int
                    }), self.ops@[idx as int]@.left.len() + self.ops@[idx as int]@.right.len()
                        - self.ops@[idx as int]@.left_idx - self.ops@[idx as int]@.right_idx,
                {
                    let ghost cur = self.ops@[idx as int]@;
                    let li = self.ops[idx].left_idx;
                    let ri = self.ops[idx].right_idx;
                    let a = self.ops[idx].left[li].clone();
                    let b = self.ops[idx].right[ri].clone();
                    proof {
                        assert(a@ == cur.left[li as int]);
                        assert(b@ == cur.right[ri as int]);
                    }
                    let dec: Option<bool> = match self.ledger.get(&a, &b) {
                        Some(w) => Some(w.eq(&a)),
                        None => None,
                    };
                    match dec {
                        Some(true) => {
                            let op = &mut self.ops[idx];
                            op.result.push(a);
                            op.left_idx = li + 1;
                            proof {
                                assert(self.ops@[idx as int]@ =~= MergeOpModel {
                                    result: cur.result.push(cur.left[li as int]),
                                    left_idx: cur.left_idx + 1,
                                    ..cur
                                });
                            }
                        },
                        Some(false) => {
                            let op = &mut self.ops[idx];
                            op.result.push(b);
                            op.right_idx = ri + 1;
                            proof {
                                assert(self.ops@[idx as int]@ =~= MergeOpModel {
                                    result: cur.result.push(cur.right[ri as int]),
                                    right_idx: cur.right_idx + 1,
                                    ..cur
                                });
                            }
                        },
                        None => {
                            made_progress = false;
                        },
                    }
                }
                let ghost rc = self.ops@[idx as int]@;
                proof {
                    assert(rc == run_compares(start, ledgerv));
                }
                if self.ops[idx].left_idx == self.ops[idx].left.len() {
                    while self.ops[idx].right_idx < self.ops[idx].right.len()
                        invariant
                            n == self.ops@.len(),
                            idx < n,
                            pre_pass.len() == n,
                            forall|j: int| 0 <= j < n && j != idx ==> self.ops@[j] == pre_pass[j],
                            self.ledger@ == ledgerv,
                        ids_view(self.items@) == m0.items,
                        ids_view(self.sorted@) == m0.sorted,
                        self.completed == m0.completed,
                            self.ops@[idx as int]@.left == rc.left,
                            self.ops@[idx as int]@.right == rc.right,
                            self.ops@[idx as int]@.left_idx == rc.left_idx,
                            self.ops@[idx as int]@.left_source == rc.left_source,
                            self.ops@[idx as int]@.right_source == rc.right_source,
                            rc.left_idx == rc.left.len(),
                            rc.right_idx <= self.ops@[idx as int]@.right_idx <= rc.right.len(),
                            0 <= rc.right_idx,
                            self.ops@[idx as int]@.result == rc.result + rc.right.subrange(
                                rc.right_idx,
                                self.ops@[idx as int]@.right_idx,
                            ),
                        decreases rc.right.len() - self.ops@[idx as int]@.right_idx,
                    {
                        let ghost cur = self.ops@[idx as int]@;
                        let ghost pre_vec = self.ops@[idx as int].result@;
                        let ri = self.ops[idx].right_idx;
                        let item = self.ops[idx].right[ri].clone();
                        let ghost item0 = item;
                        proof {
                            assert(item0@ == rc.right[ri as int]);
                        }
                        let op = &mut self.ops[idx];
                        op.result.push(item);
                        op.right_idx = ri + 1;
                        proof {
                            lemma_ids_view_push(pre_vec, item0);
                            assert(self.ops@[idx as int]@.result == cur.result.push(item0@));
                            assert(self.ops@[idx as int]@.result =~= rc.result + rc.right.subrange(
                                rc.right_idx,
                                ri + 1,
                            ));
                        }
                    }
                    proof {
                        assert(self.ops@[idx as int]@.result =~= rc.result + rc.right.skip(
                            rc.right_idx,
                        ));
                        assert(self.ops@[idx as int]@ =~= flush_op(rc));
                    }
                } else if self.ops[idx].right_idx == self.ops[idx].right.len() {
                    while self.ops[idx].left_idx < self.ops[idx].left.len()
                        invariant
                            n == self.ops@.len(),
                            idx < n,
                            pre_pass.len() == n,
                            forall|j: int| 0 <= j < n && j != idx ==> self.ops@[j] == pre_pass[j],
                            self.ledger@ == ledgerv,
                        ids_view(self.items@) == m0.items,
                        ids_view(self.sorted@) == m0.sorted,
                        self.completed == m0.completed,
                            self.ops@[idx as int]@.left == rc.left,
                            self.ops@[idx as int]@.right == rc.right,
                            self.ops@[idx as int]@.right_idx == rc.right_idx,
                            self.ops@[idx as int]@.left_source == rc.left_source,
                            self.ops@[idx as int]@.right_source == rc.right_source,
                            rc.right_idx == rc.right.len(),
                            rc.left_idx != rc.left.len(),
                            rc.left_idx <= self.ops@[idx as int]@.left_idx <= rc.left.len(),
                            0 <= rc.left_idx,
                            self.ops@[idx as int]@.result == rc.result + rc.left.subrange(
                                rc.left_idx,
                                self.ops@[idx as int]@.left_idx,
                            ),
                        decreases rc.left.len() - self.ops@[idx as int]@.left_idx,
                    {
                        let ghost cur = self.ops@[idx as int]@;
                        let ghost pre_vec = self.ops@[idx as int].result@;
                        let li = self.ops[idx].left_idx;
                        let item = self.ops[idx].left[li].clone();
                        let ghost item0 = item;
                        proof {
                            assert(item0@ == rc.left[li as int]);
                        }
                        let op = &mut self.ops[idx];
                        op.result.push(item);
                        op.left_idx = li + 1;
                        proof {
                            lemma_ids_view_push(pre_vec, item0);
                            assert(self.ops@[idx as int]@.result == cur.result.push(item0@));
                            assert(self.ops@[idx as int]@.result =~= rc.result + rc.left.subrange(
                                rc.left_idx,
                                li + 1,
                            ));
                        }
                    }
                    proof {
                        assert(self.ops@[idx as int]@.result =~= rc.result + rc.left.skip(
                            rc.left_idx,
                        ));
                        assert(self.ops@[idx as int]@ =~= flush_op(rc));
                    }
                }
                proof {
                    assert(self.ops@[idx as int]@ == advance_op(ops2[idx as int], ledgerv));
                }
            }
            proof {
                assert(self.ops@[idx as int]@ == advance_op(ops2[idx as int], ledgerv));
                assert forall|j: int| 0 <= j < n && j != idx implies (#[trigger] self.ops@[j])
                    == pre_pass[j] by {
                }
                assert forall|j: int| idx + 1 <= j < n implies (#[trigger] self.ops@[j])@
                    == ops2[j] by {
                    assert(self.ops@[j] == pre_pass[j]);
                }
                assert forall|j: int| 0 <= j < idx implies (#[trigger] self.ops@[j])@
                    == advance_op(ops2[j], ledgerv) by {
                    assert(self.ops@[j] == pre_pass[j]);
                }
            }
            idx = idx + 1;
        }

        // Completion: the root unit is the last one; when it has consumed
        // both runs entirely, its output is the final order.
        let ghost ops3 = ops_view(self.ops@);
        proof {
            lemma_ops_view_len(self.ops@);
            assert forall|k: int| 0 <= k < n implies ops3[k] == advance_op(ops2[k], ledgerv) by {
                lemma_ops_view_index(self.ops@, k);
            }
            assert(ops3 =~= Seq::new(ops2.len(), |i: int| advance_op(ops2[i], ledgerv)));
        }
        if n > 0 {
            let last = n - 1;
            proof {
                lemma_ops_view_index(self.ops@, last as int);
            }
            let blocked = self.ops[last].left_source.is_some()
                || self.ops[last].right_source.is_some();
            if !blocked && self.ops[last].left_idx == self.ops[last].left.len()
                && self.ops[last].right_idx == self.ops[last].right.len() {
                let order = clone_ids(&self.ops[last].result);
                self.sorted = order;
                self.completed = true;
            }
        }
        proof {
            assert(self@ =~= spec_process(m0));
        }
    }

    /// Record a resolved comparison by identifier and run the update pass.
    /// The winner must be one of the two identifiers; a pair that already
    /// has a recorded outcome is left as it was (the first answer stands),
    /// and the call changes nothing.
    fn compare_ids(&mut self, a: &Id, b: &Id, winner_id: &Id) -> (r: Result<(), Error>)
        requires
            merge_wf(old(self)@),
        ensures
            merge_wf(final(self)@),
            r is Ok <==> (winner_id@ == a@ || winner_id@ == b@),
            r is Ok ==> final(self)@ == spec_compare(old(self)@, a@, b@, winner_id@),
            r is Err ==> final(self)@ == old(self)@ && (r matches Err(e) && e matches
                Error::InvalidWinner(t) && t@ == winner_id@),
    {
        if !(winner_id.eq(a) || winner_id.eq(b)) {
            return Err(Error::InvalidWinner(winner_id.to_text()));
        }
        if self.ledger.contains(a, b) {
            return Ok(());
        }
        self.ledger.record(a, b, winner_id);
        proof {
            crate::ledger::lemma_record_wf(old(self)@.ledger, a@, b@, winner_id@);
            assert(self@ =~= (MergeModel {
                ledger: spec_record(old(self)@.ledger, a@, b@, winner_id@),
                ..old(self)@
            }));
        }
        self.process_merges();
        Ok(())
    }

    /// Record that `winner_id` (one of the two items' identifiers) beat the
    /// other, and advance every merge unit the new answer unblocks.
    pub fn compare(&mut self, a: &Item, b: &Item, winner_id: &Id) -> (r: Result<(), Error>)
        requires
            merge_wf(old(self)@),
        ensures
            merge_wf(final(self)@),
            r is Ok <==> (winner_id@ == a.id@ || winner_id@ == b.id@),
            r is Ok ==> final(self)@ == spec_compare(old(self)@, a.id@, b.id@, winner_id@),
            r is Err ==> final(self)@ == old(self)@ && (r matches Err(e) && e matches
                Error::InvalidWinner(t) && t@ == winner_id@),
    {
        self.compare_ids(&a.id, &b.id, winner_id)
    }

    /// Produce a snapshot of the full engine state, which
    /// `deserialize_state` restores: the merge units, the final order, the
    /// completion flag, and the ledger, so the snapshot is self-describing.
    pub fn serialize_state(&self) -> (snap: MergeSnapshot)
        ensures
            snap@ == snapshot_of(self@),
    {
        let snap = MergeSnapshot {
            ledger: self.ledger.duplicate(),
            ops: clone_ops(&self.ops),
            sorted: clone_ids(&self.sorted),
            completed: self.completed,
        };
        proof {
            assert(snap@ =~= snapshot_of(self@));
        }
        snap
    }

    /// Restore a snapshot, replacing everything but the item order. A
    /// snapshot whose data fails the engine's own structural soundness
    /// (canonical, duplicate-free ledger; cursors within runs;
    /// back-references pointing strictly backwards) is rejected as corrupt
    /// and the engine is left untouched.
    pub fn deserialize_state(&mut self, snap: MergeSnapshot) -> (r: Result<(), Error>)
        requires
            merge_wf(old(self)@),
        ensures
            merge_wf(final(self)@),
            r is Ok <==> snapshot_wf(snap@),
            r is Ok ==> final(self)@ == (MergeModel {
                items: old(self)@.items,
                ledger: snap@.ledger,
                ops: snap@.ops,
                sorted: snap@.sorted,
                completed: snap@.completed,
            }),
            r is Err ==> final(self)@ == old(self)@ && (r matches Err(e) && e is CorruptSnapshot),
    {
        if !snap.ledger.check_wf() {
            return Err(Error::CorruptSnapshot);
        }
        let n = snap.ops.len();
        let mut i: usize = 0;
        while i < n
            invariant
                n == snap.ops@.len(),
                i <= n,
                self@ == old(self)@,
                merge_wf(self@),
                forall|k: int| 0 <= k < i ==> op_model_wf((#[trigger] snap.ops@[k])@, k),
            decreases n - i,
        {
            let op = &snap.ops[i];
            let sources_ok = (match op.left_source {
                Some(s) => s < i,
                None => true,
            }) && (match op.right_source {
                Some(s) => s < i,
                None => true,
            });
            let ok = sources_ok && op.left_idx <= op.left.len() && op.right_idx <= op.right.len();
            if !ok {
                proof {
                    assert(!op_model_wf(snap@.ops[i as int], i as int));
                }
                return Err(Error::CorruptSnapshot);
            }
            i = i + 1;
        }
        proof {
            assert forall|k: int| 0 <= k < snap@.ops.len() implies op_model_wf(
                #[trigger] snap@.ops[k],
                k,
            ) by {
                lemma_ops_view_index(snap.ops@, k);
            }
        }
        self.ledger = snap.ledger;
        self.ops = snap.ops;
        self.sorted = snap.sorted;
        self.completed = snap.completed;
        Ok(())
    }

    /// Replay resume: construct a fresh engine from the original item order
    /// and apply every journaled comparison, in journal order. A journal
    /// entry whose winner is neither of its own pair is corrupt; the whole
    /// resume attempt then fails. A valid journal reproduces exactly the
    /// state of an engine that consumed those answers live.
    pub fn replay(items: Vec<Id>, journal: &Vec<Comparison>) -> (r: Result<
        MergeStrategy,
        Error,
    >)
        ensures
            journal_valid(journal_view(journal@)) ==> (r matches Ok(s) && s@ == spec_replay(
                spec_new(ids_view(items@)),
                journal_view(journal@),
            ) && merge_wf(s@)),
            !journal_valid(journal_view(journal@)) ==> (r matches Err(e) && e is CorruptJournal),
    {
        let ghost itemsv = ids_view(items@);
        let ghost jv = journal_view(journal@);
        let ghost m0 = spec_new(itemsv);
        let mut s = MergeStrategy::new(items);
        let n = journal.len();
        let mut k: usize = 0;
        proof {
            assert(jv.skip(0) =~= jv);
        }
        while k < n
            invariant
                n == journal@.len(),
                jv == journal_view(journal@),
                jv.len() == n,
                k <= n,
                merge_wf(s@),
                forall|t: int| 0 <= t < k ==> ((#[trigger] jv[t]).2 == jv[t].0 || jv[t].2 == jv[t].1),
                spec_replay(m0, jv) == spec_replay(s@, jv.skip(k as int)),
            decreases n - k,
        {
            let c = &journal[k];
            proof {
                assert(jv[k as int] == (c.a@, c.b@, c.winner@));
                assert(jv.skip(k as int)[0] == jv[k as int]);
                assert(jv.skip(k as int).drop_first() =~= jv.skip(k as int + 1));
            }
            match s.compare_ids(&c.a, &c.b, &c.winner) {
                Ok(()) => {},
                Err(_) => {
                    proof {
                        assert(!journal_valid(jv));
                    }
                    return Err(Error::CorruptJournal);
                },
            }
            k = k + 1;
        }
        proof {
            assert(jv.skip(n as int) =~= Seq::<(Seq<char>, Seq<char>, Seq<char>)>::empty());
        }
        Ok(s)
    }

    /// Whether the ranking is complete.
    pub fn is_complete(&self) -> (r: bool)
        ensures
            r == self@.completed,
    {
        self.completed
    }

    /// The name of this strategy.
    pub fn name(&self) -> (r: &'static str)
        ensures
            r@ == "merge"@,
    {
        "merge"
    }

    /// The item order this engine was constructed from.
    pub fn item_count(&self) -> (r: usize)
        ensures
            r == self@.items.len(),
    {
        self.items.len()
    }

    /// Complete the ranking: the total order, best first, once every needed
    /// answer has been consumed; `NotComplete` before that.
    pub fn finalize(&mut self) -> (r: Result<RankResult, Error>)
        ensures
            final(self)@ == old(self)@,
            old(self)@.completed ==> (r matches Ok(res) && (res.order matches Some(v)
                && ids_view(v@) == old(self)@.sorted)),
            !old(self)@.completed ==> (r matches Err(e) && e == Error::NotComplete),
    {
        if !self.completed {
            return Err(Error::NotComplete);
        }
        let order = clone_ids(&self.sorted);
        Ok(RankResult { order: Some(order) })
    }

    /// The winner already recorded for the unordered pair, if any.
    fn get_winner(&self, a: &Id, b: &Id) -> (r: Option<&Id>)
        ensures
            match r {
                Some(w) => spec_lookup(self@.ledger, a@, b@) == Some(w@),
                None => spec_lookup(self@.ledger, a@, b@) is None,
            },
    {
        self.ledger.get(a, b)
    }

    /// The next unresolved pair the caller must ask about, or `None` when
    /// no unit is waiting on a fresh question (in particular when the
    /// ranking is complete).
    pub fn next_comparison(&self) -> (r: Option<(Id, Id)>)
        ensures
            match r {
                Some(p) => spec_next(self@) == Some((p.0@, p.1@)),
                None => spec_next(self@) is None,
            },
    {
        let n = self.ops.len();
        let mut i: usize = 0;
        while i < n
            invariant
                n == self.ops@.len(),
                i <= n,
                spec_next(self@) == spec_next_from(self@.ops, self@.ledger, i as int),
                self@.ops.len() == n,
            decreases n - i,
        {
            proof {
                assert(self@.ops[i as int] == self.ops@[i as int]@);
            }
            let op = &self.ops[i];
            if op.left_idx < op.left.len() && op.right_idx < op.right.len() {
                let a = &op.left[op.left_idx];
                let b = &op.right[op.right_idx];
                proof {
                    assert(self@.ops[i as int].left[op.left_idx as int] == a@);
                    assert(self@.ops[i as int].right[op.right_idx as int] == b@);
                }
                if self.get_winner(a, b).is_none() {
                    return Some((a.clone(), b.clone()));
                }
            }
            i = i + 1;
        }
        None
    }
}


impl RankStrategy for MergeStrategy {
    type Snapshot = MergeSnapshot;

    open spec fn wf(&self) -> bool {
        merge_wf(self@)
    }

    open spec fn spec_complete(&self) -> bool {
        self@.completed
    }

    fn name(&self) -> &'static str {
        MergeStrategy::name(self)
    }

    fn compare(&mut self, a: &Item, b: &Item, winner_id: &Id) -> (r: Result<(), Error>) {
        MergeStrategy::compare(self, a, b, winner_id)
    }

    fn finalize(&mut self) -> (r: Result<RankResult, Error>) {
        MergeStrategy::finalize(self)
    }

    fn serialize_state(&self) -> Self::Snapshot {
        MergeStrategy::serialize_state(self)
    }

    fn deserialize_state(&mut self, state: Self::Snapshot) -> (r: Result<(), Error>) {
        MergeStrategy::deserialize_state(self, state)
    }

    fn next_comparison(&self) -> Option<(Id, Id)> {
        MergeStrategy::next_comparison(self)
    }

    fn is_complete(&self) -> (r: bool) {
        MergeStrategy::is_complete(self)
    }
}

} // verus!
