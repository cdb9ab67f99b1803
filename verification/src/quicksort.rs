use vstd::prelude::*;

use crate::error::Error;
use crate::id::Id;
use crate::item::Item;
use crate::ledger::{spec_lookup, spec_record, Ledger};
use crate::strategy::{ids_view, RankResult, RankStrategy};

verus! {

// ---------------------------------------------------------------------------
// The mathematical model. As with the merge engine, every operation is
// specified as a pure transition on this model and the executable functions
// promise their effect equals the transition.
// ---------------------------------------------------------------------------

/// The state of one partition step: the items to split around the pivot,
/// the two sides being built, the scan cursor, and where this partition's
/// stretch begins in the final order.
#[verifier::ext_equal]
pub ghost struct PartitionOpModel {
    pub items: Seq<Seq<char>>,
    pub pivot_idx: int,
    pub less: Seq<Seq<char>>,
    pub greater: Seq<Seq<char>>,
    pub current_idx: int,
    pub start_pos: int,
}

/// The whole engine state: item order, ledger of outcomes, the stack of
/// pending partitions (top last), the order being assembled in place, and
/// the completion flag.
#[verifier::ext_equal]
pub ghost struct QuickModel {
    pub items: Seq<Seq<char>>,
    pub ledger: Seq<(Seq<char>, Seq<char>, Seq<char>)>,
    pub stack: Seq<PartitionOpModel>,
    pub sorted: Seq<Seq<char>>,
    pub completed: bool,
}

/// Consume ledger answers at the scan cursor for as long as answers exist:
/// the pivot position is skipped; an item that beat the pivot joins `less`,
/// one the pivot beat joins `greater`.
pub open spec fn spec_qs_consume(
    op: PartitionOpModel,
    ledger: Seq<(Seq<char>, Seq<char>, Seq<char>)>,
) -> PartitionOpModel
    decreases op.items.len() - op.current_idx,
{
    if !(0 <= op.current_idx < op.items.len()) {
        op
    } else if op.current_idx == op.pivot_idx {
        spec_qs_consume(
            PartitionOpModel { current_idx: op.current_idx + 1, ..op },
            ledger,
        )
    } else {
        let cur = op.items[op.current_idx];
        let piv = op.items[op.pivot_idx];
        match spec_lookup(ledger, cur, piv) {
            None => op,
            Some(w) => {
                if w == cur {
                    spec_qs_consume(
                        PartitionOpModel {
                            less: op.less.push(cur),
                            current_idx: op.current_idx + 1,
                            ..op
                        },
                        ledger,
                    )
                } else {
                    spec_qs_consume(
                        PartitionOpModel {
                            greater: op.greater.push(cur),
                            current_idx: op.current_idx + 1,
                            ..op
                        },
                        ledger,
                    )
                }
            },
        }
    }
}

/// Write a sequence into `dst` starting at `pos`, one position at a time.
pub open spec fn seq_write(
    dst: Seq<Seq<char>>,
    pos: int,
    src: Seq<Seq<char>>,
) -> Seq<Seq<char>>
    decreases src.len(),
{
    if src.len() == 0 {
        dst
    } else {
        seq_write(dst.update(pos, src[0]), pos + 1, src.drop_first())
    }
}

/// A finished partition placed into the order: grow the order if needed,
/// lay out `less`, the pivot, then `greater`, and push sub-partitions for
/// the two sides that still hold more than one item (`greater` first, so
/// `less` is processed first). The engine completes when no partition is
/// left pending.
pub open spec fn spec_qs_partition(m: QuickModel, op: PartitionOpModel) -> QuickModel {
    let total = op.less.len() + 1 + op.greater.len();
    let sorted1 = if m.sorted.len() < op.start_pos + total {
        m.sorted + Seq::new((op.start_pos + total - m.sorted.len()) as nat, |i: int| Seq::<char>::empty())
    } else {
        m.sorted
    };
    let sorted2 = seq_write(sorted1, op.start_pos, op.less);
    let pivot_pos = op.start_pos + op.less.len();
    let sorted3 = sorted2.update(pivot_pos, op.items[op.pivot_idx]);
    let sorted4 = seq_write(sorted3, pivot_pos + 1, op.greater);
    let stack1 = if op.greater.len() > 1 {
        m.stack.push(
            PartitionOpModel {
                items: op.greater,
                pivot_idx: op.greater.len() as int / 2,
                less: Seq::empty(),
                greater: Seq::empty(),
                current_idx: 0,
                start_pos: pivot_pos + 1,
            },
        )
    } else {
        m.stack
    };
    let stack2 = if op.less.len() > 1 {
        stack1.push(
            PartitionOpModel {
                items: op.less,
                pivot_idx: op.less.len() as int / 2,
                less: Seq::empty(),
                greater: Seq::empty(),
                current_idx: 0,
                start_pos: op.start_pos,
            },
        )
    } else {
        stack1
    };
    QuickModel {
        items: m.items,
        ledger: m.ledger,
        stack: stack2,
        sorted: sorted4,
        completed: m.completed || stack2.len() == 0,
    }
}

/// What `compare` does to the model: with no partition pending the call
/// changes nothing; otherwise the outcome is recorded (first answer
/// stands), the top partition consumes every answer available at its
/// cursor, and a fully scanned partition is placed into the order.
pub open spec fn spec_qs_compare(
    m: QuickModel,
    a: Seq<char>,
    b: Seq<char>,
    w: Seq<char>,
) -> QuickModel {
    if m.stack.len() == 0 {
        m
    } else {
        let m1 = QuickModel { ledger: spec_record(m.ledger, a, b, w), ..m };
        let top = spec_qs_consume(m1.stack.last(), m1.ledger);
        let m2 = QuickModel { stack: m1.stack.drop_last(), ..m1 };
        if top.current_idx >= top.items.len() {
            spec_qs_partition(m2, top)
        } else {
            QuickModel { stack: m2.stack.push(top), ..m2 }
        }
    }
}

/// The pair `next_comparison` offers: scanning the top partition from `i`,
/// the first non-pivot item with no recorded outcome against the pivot.
pub open spec fn spec_qs_next_from(
    op: PartitionOpModel,
    ledger: Seq<(Seq<char>, Seq<char>, Seq<char>)>,
    i: int,
) -> Option<(Seq<char>, Seq<char>)>
    decreases op.items.len() - i,
{
    if i < 0 || i >= op.items.len() {
        None
    } else if i == op.pivot_idx {
        spec_qs_next_from(op, ledger, i + 1)
    } else if spec_lookup(ledger, op.items[i], op.items[op.pivot_idx]) is None {
        Some((op.items[i], op.items[op.pivot_idx]))
    } else {
        spec_qs_next_from(op, ledger, i + 1)
    }
}

/// The pair the engine asks about next, if any: a completed engine or an
/// empty stack offers nothing; otherwise the top partition is scanned from
/// its cursor.
pub open spec fn spec_qs_next(m: QuickModel) -> Option<(Seq<char>, Seq<char>)> {
    if m.completed || m.stack.len() == 0 {
        None
    } else {
        spec_qs_next_from(m.stack.last(), m.ledger, m.stack.last().current_idx)
    }
}

/// The model of a freshly constructed engine.
pub open spec fn spec_qs_new(items: Seq<Seq<char>>) -> QuickModel {
    if items.len() == 0 {
        QuickModel {
            items,
            ledger: Seq::empty(),
            stack: Seq::empty(),
            sorted: Seq::empty(),
            completed: true,
        }
    } else if items.len() == 1 {
        QuickModel {
            items,
            ledger: Seq::empty(),
            stack: Seq::empty(),
            sorted: items,
            completed: true,
        }
    } else {
        QuickModel {
            items,
            ledger: Seq::empty(),
            stack: seq![
                PartitionOpModel {
                    items: items,
                    pivot_idx: items.len() as int / 2,
                    less: Seq::empty(),
                    greater: Seq::empty(),
                    current_idx: 0,
                    start_pos: 0,
                },
            ],
            sorted: Seq::empty(),
            completed: false,
        }
    }
}

/// Structural soundness of one pending partition within an engine whose
/// item set has `n` items: the pivot is a real position, the cursor stays
/// within the items, each side holds only items the cursor has passed, and
/// the partition's stretch of the final order fits under `n`.
pub open spec fn qs_op_wf(op: PartitionOpModel, n: int) -> bool {
    &&& 2 <= op.items.len()
    &&& 0 <= op.pivot_idx < op.items.len()
    &&& 0 <= op.current_idx <= op.items.len()
    &&& op.less.len() + op.greater.len() <= op.current_idx - (if op.pivot_idx < op.current_idx {
        1int
    } else {
        0int
    })
    &&& 0 <= op.start_pos
    &&& op.start_pos + op.items.len() <= n
}

/// Structural soundness of a whole engine state.
pub open spec fn quick_wf(m: QuickModel) -> bool {
    &&& crate::ledger::ledger_wf(m.ledger)
    &&& (forall|i: int| 0 <= i < m.stack.len() ==> qs_op_wf(#[trigger] m.stack[i], m.items.len() as int))
    &&& m.sorted.len() <= m.items.len()
}

// ---------------------------------------------------------------------------
// The executable engine.
// ---------------------------------------------------------------------------

/// One pending partition of the executable engine.
struct PartitionOp {
    items: Vec<Id>,
    pivot_idx: usize,
    less: Vec<Id>,
    greater: Vec<Id>,
    current_idx: usize,
    start_pos: usize,
}

impl View for PartitionOp {
    type V = PartitionOpModel;

    closed spec fn view(&self) -> PartitionOpModel {
        PartitionOpModel {
            items: ids_view(self.items@),
            pivot_idx: self.pivot_idx as int,
            less: ids_view(self.less@),
            greater: ids_view(self.greater@),
            current_idx: self.current_idx as int,
            start_pos: self.start_pos as int,
        }
    }
}

spec fn qs_ops_view(v: Seq<PartitionOp>) -> Seq<PartitionOpModel> {
    v.map_values(|op: PartitionOp| op@)
}

proof fn lemma_qs_ops_view_index(s: Seq<PartitionOp>, i: int)
    requires
        0 <= i < s.len(),
    ensures
        qs_ops_view(s)[i] == s[i]@,
{
}

proof fn lemma_qs_ops_view_len(s: Seq<PartitionOp>)
    ensures
        qs_ops_view(s).len() == s.len(),
{
}

/// QuickSort ranking strategy: pivot-based partitioning whose every
/// comparison is an explicit question to the caller, able to pause between
/// any two steps.
pub struct QuickSortStrategy {
    items: Vec<Id>,
    ledger: Ledger,
    stack: Vec<PartitionOp>,
    sorted: Vec<Id>,
    completed: bool,
}

impl View for QuickSortStrategy {
    type V = QuickModel;

    closed spec fn view(&self) -> QuickModel {
        QuickModel {
            items: ids_view(self.items@),
            ledger: self.ledger@,
            stack: qs_ops_view(self.stack@),
            sorted: ids_view(self.sorted@),
            completed: self.completed,
        }
    }
}

/// The contents of a quicksort snapshot: the full engine state, ledger
/// included, so a snapshot is self-describing.
#[verifier::ext_equal]
pub ghost struct QuickSnapshotModel {
    pub ledger: Seq<(Seq<char>, Seq<char>, Seq<char>)>,
    pub stack: Seq<PartitionOpModel>,
    pub sorted: Seq<Seq<char>>,
    pub completed: bool,
}

/// An opaque snapshot of the quicksort engine, sufficient to resume
/// without replay.
pub struct QuickSnapshot {
    ledger: Ledger,
    stack: Vec<PartitionOp>,
    sorted: Vec<Id>,
    completed: bool,
}

impl View for QuickSnapshot {
    type V = QuickSnapshotModel;

    closed spec fn view(&self) -> QuickSnapshotModel {
        QuickSnapshotModel {
            ledger: self.ledger@,
            stack: qs_ops_view(self.stack@),
            sorted: ids_view(self.sorted@),
            completed: self.completed,
        }
    }
}

/// The snapshot of an engine state.
pub open spec fn qs_snapshot_of(m: QuickModel) -> QuickSnapshotModel {
    QuickSnapshotModel { ledger: m.ledger, stack: m.stack, sorted: m.sorted, completed: m.completed }
}

/// What restoring a snapshot requires of its data, against an engine over
/// `n` items: the same structural soundness the engine maintains of itself.
pub open spec fn qs_snapshot_wf(s: QuickSnapshotModel, n: int) -> bool {
    &&& crate::ledger::ledger_wf(s.ledger)
    &&& (forall|i: int| 0 <= i < s.stack.len() ==> qs_op_wf(#[trigger] s.stack[i], n))
    &&& s.sorted.len() <= n
}

/// Writing preserves length when the stretch fits.
proof fn lemma_seq_write_len(dst: Seq<Seq<char>>, pos: int, src: Seq<Seq<char>>)
    requires
        0 <= pos,
        pos + src.len() <= dst.len(),
    ensures
        seq_write(dst, pos, src).len() == dst.len(),
    decreases src.len(),
{
    if src.len() > 0 {
        lemma_seq_write_len(dst.update(pos, src[0]), pos + 1, src.drop_first());
    }
}

/// Writing one more element is one more in-place update.
proof fn lemma_seq_write_snoc(dst: Seq<Seq<char>>, pos: int, src: Seq<Seq<char>>, v: Seq<char>)
    ensures
        seq_write(dst, pos, src.push(v)) == seq_write(dst, pos, src).update(
            pos + src.len(),
            v,
        ),
    decreases src.len(),
{
    reveal_with_fuel(seq_write, 3);
    if src.len() == 0 {
        assert(src.push(v)[0] == v);
        assert(src.push(v).drop_first() =~= Seq::<Seq<char>>::empty());
    } else {
        assert(src.push(v)[0] == src[0]);
        assert(src.push(v).drop_first() =~= src.drop_first().push(v));
        lemma_seq_write_snoc(dst.update(pos, src[0]), pos + 1, src.drop_first(), v);
    }
}

proof fn lemma_qs_ids_view_update(s: Seq<Id>, i: int, v: Id)
    requires
        0 <= i < s.len(),
    ensures
        ids_view(s.update(i, v)) == ids_view(s).update(i, v@),
{
    assert(ids_view(s.update(i, v)) =~= ids_view(s).update(i, v@));
}

proof fn lemma_qs_ids_view_push(s: Seq<Id>, v: Id)
    ensures
        ids_view(s.push(v)) == ids_view(s).push(v@),
{
    assert(ids_view(s.push(v)) =~= ids_view(s).push(v@));
}

/// Copy a vector of identifiers.
fn qs_clone_ids(v: &Vec<Id>) -> (r: Vec<Id>)
    ensures
        ids_view(r@) == ids_view(v@),
        r@.len() == v@.len(),
{
    let n = v.len();
    let mut r: Vec<Id> = Vec::new();
    let mut i: usize = 0;
    while i < n
        invariant
            n == v@.len(),
            i <= n,
            r@.len() == i,
            forall|k: int| 0 <= k < i ==> r@[k]@ == v@[k]@,
        decreases n - i,
    {
        r.push(v[i].clone());
        i = i + 1;
    }
    proof {
        assert(ids_view(r@) =~= ids_view(v@));
    }
    r
}

impl QuickSortStrategy {
    /// Construct an engine over the given item order. Zero or one item is
    /// complete immediately; otherwise one partition over the whole item
    /// set is pending, its pivot the middle element.
    pub fn new(items: Vec<Id>) -> (s: QuickSortStrategy)
        ensures
            s@ == spec_qs_new(ids_view(items@)),
            quick_wf(s@),
    {
        let n = items.len();
        let mut s = QuickSortStrategy {
            items,
            ledger: Ledger::new(),
            stack: Vec::new(),
            sorted: Vec::new(),
            completed: false,
        };
        if n == 0 {
            s.completed = true;
            proof {
                assert(s@ =~= spec_qs_new(ids_view(s.items@)));
            }
        } else if n == 1 {
            s.sorted = qs_clone_ids(&s.items);
            s.completed = true;
            proof {
                assert(s@ =~= spec_qs_new(ids_view(s.items@)));
            }
        } else {
            s.initialize_quicksort();
            proof {
                assert(s@ =~= spec_qs_new(ids_view(s.items@)));
            }
        }
        s
    }

    /// Push the initial partition: all items, the middle element as pivot.
    fn initialize_quicksort(&mut self)
        requires
            old(self)@.stack.len() == 0,
            old(self)@.items.len() >= 2,
        ensures
            final(self)@ == (QuickModel {
                stack: seq![
                    PartitionOpModel {
                        items: old(self)@.items,
                        pivot_idx: old(self)@.items.len() as int / 2,
                        less: Seq::<Seq<char>>::empty(),
                        greater: Seq::<Seq<char>>::empty(),
                        current_idx: 0,
                        start_pos: 0,
                    },
                ],
                ..old(self)@
            }),
    {
        let op = PartitionOp {
            items: qs_clone_ids(&self.items),
            pivot_idx: self.items.len() / 2,
            less: Vec::new(),
            greater: Vec::new(),
            current_idx: 0,
            start_pos: 0,
        };
        self.stack.push(op);
        proof {
            lemma_qs_ops_view_len(self.stack@);
            lemma_qs_ops_view_index(self.stack@, 0);
            assert(ids_view(self.items@).len() == self.items@.len());
            assert(qs_ops_view(self.stack@) =~~= seq![
                PartitionOpModel {
                    items: old(self)@.items,
                    pivot_idx: old(self)@.items.len() as int / 2,
                    less: Seq::<Seq<char>>::empty(),
                    greater: Seq::<Seq<char>>::empty(),
                    current_idx: 0,
                    start_pos: 0,
                },
            ]);
            assert(final(self)@ =~~= (QuickModel {
                stack: seq![
                    PartitionOpModel {
                        items: old(self)@.items,
                        pivot_idx: old(self)@.items.len() as int / 2,
                        less: Seq::<Seq<char>>::empty(),
                        greater: Seq::<Seq<char>>::empty(),
                        current_idx: 0,
                        start_pos: 0,
                    },
                ],
                ..old(self)@
            }));
        }
    }

    /// The name of this strategy.
    pub fn name(&self) -> (r: &'static str)
        ensures
            r@ == "quicksort"@,
    {
        "quicksort"
    }

    /// Place a fully scanned partition into the order: grow the order if
    /// needed, lay out `less`, the pivot, then `greater`, and push the two
    /// sides that still need sorting (`greater` first). The engine
    /// completes when nothing is left pending.
    fn process_partition(&mut self, op: PartitionOp)
        requires
            quick_wf(old(self)@),
            qs_op_wf(op@, old(self)@.items.len() as int),
            op@.current_idx >= op@.items.len(),
        ensures
            final(self)@ == spec_qs_partition(old(self)@, op@),
            quick_wf(final(self)@),
    {
        let ghost m0 = self@;
        let ghost opv = op@;
        let ghost n = self@.items.len() as int;
        proof {
            assert(ids_view(self.items@).len() == self.items@.len());
            assert(ids_view(op.less@).len() == op.less@.len());
            assert(ids_view(op.greater@).len() == op.greater@.len());
            assert(ids_view(op.items@).len() == op.items@.len());
            assert(ids_view(self.sorted@).len() == self.sorted@.len());
        }
        let nn = self.items.len();
        let il = op.items.len();
        proof {
            assert(opv.pivot_idx < opv.current_idx);
            assert(opv.less.len() + opv.greater.len() + 1 <= opv.items.len());
            assert(opv.start_pos + opv.less.len() + 1 + opv.greater.len() <= n);
            assert(nn == n);
            assert(il == opv.items.len());
        }
        let total = op.less.len() + 1 + op.greater.len();
        let target = op.start_pos + total;

        // Grow the order so the partition's stretch exists.
        let ghost sorted0 = m0.sorted;
        while self.sorted.len() < target
            invariant
                target <= n,
                n == ids_view(self.items@).len(),
                self.items@.len() == ids_view(self.items@).len(),
                ids_view(self.items@) == m0.items,
                self.ledger@ == m0.ledger,
                qs_ops_view(self.stack@) == m0.stack,
                self.completed == m0.completed,
                sorted0.len() <= ids_view(self.sorted@).len(),
                ids_view(self.sorted@).len() == self.sorted@.len(),
                ids_view(self.sorted@).len() == sorted0.len() || (sorted0.len() < ids_view(
                    self.sorted@,
                ).len() <= target),
                ids_view(self.sorted@) == (if sorted0.len() < ids_view(self.sorted@).len() {
                    sorted0 + Seq::new((ids_view(self.sorted@).len() - sorted0.len()) as nat, |i: int| Seq::<char>::empty())
                } else {
                    sorted0
                }),
            decreases target - self.sorted@.len(),
        {
            let ghost pre = self.sorted@;
            let filler = Id::from_string(String::new());
            proof {
                assert(filler@ =~= Seq::<char>::empty());
            }
            self.sorted.push(filler);
            proof {
                lemma_qs_ids_view_push(pre, self.sorted@[pre.len() as int]);
                assert(ids_view(self.sorted@) =~= sorted0 + Seq::new(
                    (ids_view(self.sorted@).len() - sorted0.len()) as nat,
                    |i: int| Seq::<char>::empty(),
                ));
            }
        }
        let ghost sorted1 = ids_view(self.sorted@);
        proof {
            if sorted0.len() < target {
                assert(sorted1.len() == target);
            } else {
                assert(sorted1 == sorted0);
            }
            assert(sorted1 == (if m0.sorted.len() < opv.start_pos + (opv.less.len() + 1
                + opv.greater.len()) {
                m0.sorted + Seq::new(
                    (opv.start_pos + (opv.less.len() + 1 + opv.greater.len())
                        - m0.sorted.len()) as nat,
                    |i: int| Seq::<char>::empty(),
                )
            } else {
                m0.sorted
            }));
        }

        // Lay out the side that beat the pivot.
        let less_len = op.less.len();
        let mut i: usize = 0;
        proof {
            assert(seq_write(sorted1, opv.start_pos, opv.less.take(0)) =~= sorted1);
        }
        while i < less_len
            invariant
                less_len == op.less@.len(),
                i <= less_len,
                opv == op@,
                target <= n,
                opv.start_pos + total == target,
                total == opv.less.len() + 1 + opv.greater.len(),
                n == ids_view(self.items@).len(),
                self.items@.len() == ids_view(self.items@).len(),
                ids_view(self.items@) == m0.items,
                self.ledger@ == m0.ledger,
                qs_ops_view(self.stack@) == m0.stack,
                self.completed == m0.completed,
                self.sorted@.len() == sorted1.len(),
                target <= sorted1.len(),
                ids_view(self.sorted@) == seq_write(sorted1, opv.start_pos, opv.less.take(i as int)),
            decreases less_len - i,
        {
            let ghost pre = ids_view(self.sorted@);
            let ghost pre_raw = self.sorted@;
            let v = op.less[i].clone();
            let ghost vv = v@;
            let pos = op.start_pos + i;
            proof {
                assert(vv == opv.less[i as int]);
                lemma_seq_write_len(sorted1, opv.start_pos, opv.less.take(i as int));
            }
            let slot = &mut self.sorted[pos];
            *slot = v;
            proof {
                lemma_qs_ids_view_update(pre_raw, pos as int, self.sorted@[pos as int]);
            }
            proof {
                lemma_seq_write_snoc(sorted1, opv.start_pos, opv.less.take(i as int), vv);
                assert(opv.less.take(i as int).push(vv) =~= opv.less.take(i + 1));
                assert(ids_view(self.sorted@) == pre.update(pos as int, vv));
            }
            i = i + 1;
        }
        let ghost sorted2 = ids_view(self.sorted@);
        proof {
            assert(opv.less.take(less_len as int) =~= opv.less);
            assert(sorted2 == seq_write(sorted1, opv.start_pos, opv.less));
            lemma_seq_write_len(sorted1, opv.start_pos, opv.less);
        }

        // The pivot sits between the two sides.
        let pivot_pos = op.start_pos + less_len;
        let ghost pre_raw = self.sorted@;
        let pv = op.items[op.pivot_idx].clone();
        let ghost pvv = pv@;
        let slot = &mut self.sorted[pivot_pos];
        *slot = pv;
        proof {
            assert(pvv == opv.items[opv.pivot_idx]);
            lemma_qs_ids_view_update(pre_raw, pivot_pos as int, self.sorted@[pivot_pos as int]);
            assert(ids_view(self.sorted@) == sorted2.update(pivot_pos as int, pvv));
        }
        let ghost sorted3 = ids_view(self.sorted@);

        // Lay out the side the pivot beat.
        let greater_len = op.greater.len();
        let mut i: usize = 0;
        proof {
            assert(seq_write(sorted3, pivot_pos + 1, opv.greater.take(0)) =~= sorted3);
        }
        while i < greater_len
            invariant
                greater_len == op.greater@.len(),
                i <= greater_len,
                opv == op@,
                target <= n,
                pivot_pos == opv.start_pos + opv.less.len(),
                opv.start_pos + total == target,
                total == opv.less.len() + 1 + opv.greater.len(),
                n == ids_view(self.items@).len(),
                self.items@.len() == ids_view(self.items@).len(),
                ids_view(self.items@) == m0.items,
                self.ledger@ == m0.ledger,
                qs_ops_view(self.stack@) == m0.stack,
                self.completed == m0.completed,
                self.sorted@.len() == sorted3.len(),
                sorted3.len() == sorted1.len(),
                target <= sorted1.len(),
                ids_view(self.sorted@) == seq_write(sorted3, pivot_pos + 1, opv.greater.take(i as int)),
            decreases greater_len - i,
        {
            let ghost pre = ids_view(self.sorted@);
            let ghost pre_raw = self.sorted@;
            let v = op.greater[i].clone();
            let ghost vv = v@;
            let pos = pivot_pos + 1 + i;
            proof {
                assert(vv == opv.greater[i as int]);
                lemma_seq_write_len(sorted3, pivot_pos + 1, opv.greater.take(i as int));
            }
            let slot = &mut self.sorted[pos];
            *slot = v;
            proof {
                lemma_qs_ids_view_update(pre_raw, pos as int, self.sorted@[pos as int]);
            }
            proof {
                lemma_seq_write_snoc(sorted3, pivot_pos + 1, opv.greater.take(i as int), vv);
                assert(opv.greater.take(i as int).push(vv) =~= opv.greater.take(i + 1));
                assert(ids_view(self.sorted@) == pre.update(pos as int, vv));
            }
            i = i + 1;
        }
        proof {
            assert(opv.greater.take(greater_len as int) =~= opv.greater);
            lemma_seq_write_len(sorted3, pivot_pos + 1, opv.greater);
        }

        // Sub-partitions for the sides that still hold more than one item.
        let ghost stack0 = qs_ops_view(self.stack@);
        if greater_len > 1 {
            let ghost pre = self.stack@;
            let sub = PartitionOp {
                items: qs_clone_ids(&op.greater),
                pivot_idx: greater_len / 2,
                less: Vec::new(),
                greater: Vec::new(),
                current_idx: 0,
                start_pos: pivot_pos + 1,
            };
            let ghost subv = sub@;
            self.stack.push(sub);
            proof {
                assert forall|k: int| 0 <= k < self.stack@.len() implies qs_ops_view(
                    self.stack@,
                )[k] == stack0.push(subv)[k] by {
                    lemma_qs_ops_view_index(self.stack@, k);
                    if k < pre.len() {
                        lemma_qs_ops_view_index(pre, k);
                    }
                }
                lemma_qs_ops_view_len(self.stack@);
                lemma_qs_ops_view_len(pre);
                assert(qs_ops_view(self.stack@) =~= stack0.push(subv));
                assert(subv =~= PartitionOpModel {
                    items: opv.greater,
                    pivot_idx: opv.greater.len() as int / 2,
                    less: Seq::<Seq<char>>::empty(),
                    greater: Seq::<Seq<char>>::empty(),
                    current_idx: 0,
                    start_pos: pivot_pos + 1,
                });
            }
        }
        let ghost stack1 = qs_ops_view(self.stack@);
        if less_len > 1 {
            let ghost pre = self.stack@;
            let sub = PartitionOp {
                items: qs_clone_ids(&op.less),
                pivot_idx: less_len / 2,
                less: Vec::new(),
                greater: Vec::new(),
                current_idx: 0,
                start_pos: op.start_pos,
            };
            let ghost subv = sub@;
            self.stack.push(sub);
            proof {
                assert forall|k: int| 0 <= k < self.stack@.len() implies qs_ops_view(
                    self.stack@,
                )[k] == stack1.push(subv)[k] by {
                    lemma_qs_ops_view_index(self.stack@, k);
                    if k < pre.len() {
                        lemma_qs_ops_view_index(pre, k);
                    }
                }
                lemma_qs_ops_view_len(self.stack@);
                lemma_qs_ops_view_len(pre);
                assert(qs_ops_view(self.stack@) =~= stack1.push(subv));
                assert(subv =~= PartitionOpModel {
                    items: opv.less,
                    pivot_idx: opv.less.len() as int / 2,
                    less: Seq::<Seq<char>>::empty(),
                    greater: Seq::<Seq<char>>::empty(),
                    current_idx: 0,
                    start_pos: opv.start_pos,
                });
            }
        }
        if self.stack.len() == 0 {
            self.completed = true;
        }
        proof {
            lemma_qs_ops_view_len(self.stack@);
            assert(self@ =~= spec_qs_partition(m0, opv));
            assert forall|k: int| 0 <= k < self@.stack.len() implies qs_op_wf(
                #[trigger] self@.stack[k],
                self@.items.len() as int,
            ) by {
                if k < m0.stack.len() {
                    assert(self@.stack[k] == m0.stack[k]);
                }
            }
        }
    }

    /// Record that `winner_id` (one of the two items' identifiers) beat the
    /// other, and let the pending partition consume every answer available
    /// at its cursor. A pair that already has a recorded outcome keeps its
    /// first answer.
    pub fn compare(&mut self, a: &Item, b: &Item, winner_id: &Id) -> (r: Result<(), Error>)
        requires
            quick_wf(old(self)@),
        ensures
            quick_wf(final(self)@),
            r is Ok <==> (winner_id@ == a.id@ || winner_id@ == b.id@),
            r is Ok ==> final(self)@ == spec_qs_compare(old(self)@, a.id@, b.id@, winner_id@),
            r is Err ==> final(self)@ == old(self)@ && (r matches Err(e) && e matches
                Error::InvalidWinner(t) && t@ == winner_id@),
    {
        if !(winner_id.eq(&a.id) || winner_id.eq(&b.id)) {
            return Err(Error::InvalidWinner(winner_id.to_text()));
        }
        if self.stack.len() == 0 {
            return Ok(());
        }
        let ghost m0 = self@;
        self.ledger.record(&a.id, &b.id, winner_id);
        proof {
            crate::ledger::lemma_record_wf(m0.ledger, a.id@, b.id@, winner_id@);
        }
        let ghost ledgerv = self@.ledger;
        let ghost pre_stack = self.stack@;
        let mut op = match self.stack.pop() {
            Some(o) => o,
            None => {
                proof {
                    assert(false);
                }
                return Ok(());
            },
        };
        proof {
            lemma_qs_ops_view_len(pre_stack);
            lemma_qs_ops_view_index(pre_stack, pre_stack.len() - 1);
            assert forall|k: int| 0 <= k < self.stack@.len() implies qs_ops_view(
                self.stack@,
            )[k] == m0.stack.drop_last()[k] by {
                lemma_qs_ops_view_index(self.stack@, k);
                lemma_qs_ops_view_index(pre_stack, k);
            }
            lemma_qs_ops_view_len(self.stack@);
            assert(qs_ops_view(self.stack@) =~= m0.stack.drop_last());
            assert(op@ == m0.stack.last());
            assert(qs_op_wf(op@, m0.items.len() as int));
        }
        let ghost start_op = op@;
        let ghost n = m0.items.len() as int;

        // Consume every answer available at the cursor; the pivot position
        // is skipped.
        let mut cont = true;
        while cont && op.current_idx < op.items.len()
            invariant
                self.ledger@ == ledgerv,
                ids_view(self.items@) == m0.items,
                ids_view(self.sorted@) == m0.sorted,
                self.completed == m0.completed,
                qs_ops_view(self.stack@) == m0.stack.drop_last(),
                qs_op_wf(op@, n),
                spec_qs_consume(start_op, ledgerv) == spec_qs_consume(op@, ledgerv),
                !cont ==> spec_qs_consume(op@, ledgerv) == op@,
            decreases (if cont {
                1int
            } else {
                0int
            }), op@.items.len() - op@.current_idx,
        {
            let ghost cur_op = op@;
            if op.current_idx == op.pivot_idx {
                op.current_idx = op.current_idx + 1;
                proof {
                    assert(op@ =~= PartitionOpModel {
                        current_idx: cur_op.current_idx + 1,
                        ..cur_op
                    });
                }
            } else {
                let ci = op.current_idx;
                let cur = op.items[ci].clone();
                let piv = op.items[op.pivot_idx].clone();
                proof {
                    assert(cur@ == cur_op.items[ci as int]);
                    assert(piv@ == cur_op.items[cur_op.pivot_idx]);
                }
                let dec: Option<bool> = match self.ledger.get(&cur, &piv) {
                    Some(w) => Some(w.eq(&cur)),
                    None => None,
                };
                match dec {
                    Some(true) => {
                        let ghost pre_less = op.less@;
                        op.less.push(cur);
                        op.current_idx = ci + 1;
                        proof {
                            lemma_qs_ids_view_push(pre_less, op.less@[pre_less.len() as int]);
                            assert(op@ =~= PartitionOpModel {
                                less: cur_op.less.push(cur_op.items[ci as int]),
                                current_idx: cur_op.current_idx + 1,
                                ..cur_op
                            });
                        }
                    },
                    Some(false) => {
                        let ghost pre_gr = op.greater@;
                        op.greater.push(cur);
                        op.current_idx = ci + 1;
                        proof {
                            lemma_qs_ids_view_push(pre_gr, op.greater@[pre_gr.len() as int]);
                            assert(op@ =~= PartitionOpModel {
                                greater: cur_op.greater.push(cur_op.items[ci as int]),
                                current_idx: cur_op.current_idx + 1,
                                ..cur_op
                            });
                        }
                    },
                    None => {
                        cont = false;
                    },
                }
            }
        }
        proof {
            assert(op@ == spec_qs_consume(start_op, ledgerv));
        }
        if op.current_idx >= op.items.len() {
            self.process_partition(op);
        } else {
            let ghost pre = self.stack@;
            let ghost opv = op@;
            self.stack.push(op);
            proof {
                assert forall|k: int| 0 <= k < self.stack@.len() implies qs_ops_view(
                    self.stack@,
                )[k] == m0.stack.drop_last().push(opv)[k] by {
                    lemma_qs_ops_view_index(self.stack@, k);
                    if k < pre.len() {
                        lemma_qs_ops_view_index(pre, k);
                    }
                }
                lemma_qs_ops_view_len(self.stack@);
                lemma_qs_ops_view_len(pre);
                assert(qs_ops_view(self.stack@) =~= m0.stack.drop_last().push(opv));
                assert(self@ =~= spec_qs_compare(m0, a.id@, b.id@, winner_id@));
                assert forall|k: int| 0 <= k < self@.stack.len() implies qs_op_wf(
                    #[trigger] self@.stack[k],
                    self@.items.len() as int,
                ) by {
                    if k < m0.stack.len() - 1 {
                        assert(self@.stack[k] == m0.stack[k]);
                    }
                }
            }
        }
        Ok(())
    }

    /// Whether the ranking is complete.
    pub fn is_complete(&self) -> (r: bool)
        ensures
            r == self@.completed,
    {
        self.completed
    }

    /// Produce a snapshot of the full engine state: the pending
    /// partitions, the order so far, the completion flag, and the ledger.
    pub fn serialize_state(&self) -> (snap: QuickSnapshot)
        ensures
            snap@ == qs_snapshot_of(self@),
    {
        let n = self.stack.len();
        let mut stack: Vec<PartitionOp> = Vec::new();
        let mut i: usize = 0;
        while i < n
            invariant
                n == self.stack@.len(),
                i <= n,
                stack@.len() == i,
                forall|k: int| 0 <= k < i ==> stack@[k]@ == self.stack@[k]@,
            decreases n - i,
        {
            let op = &self.stack[i];
            let copy = PartitionOp {
                items: qs_clone_ids(&op.items),
                pivot_idx: op.pivot_idx,
                less: qs_clone_ids(&op.less),
                greater: qs_clone_ids(&op.greater),
                current_idx: op.current_idx,
                start_pos: op.start_pos,
            };
            proof {
                assert(copy@ =~= op@);
            }
            stack.push(copy);
            i = i + 1;
        }
        proof {
            assert forall|k: int| 0 <= k < n implies qs_ops_view(stack@)[k] == qs_ops_view(
                self.stack@,
            )[k] by {
                lemma_qs_ops_view_index(stack@, k);
                lemma_qs_ops_view_index(self.stack@, k);
            }
            lemma_qs_ops_view_len(stack@);
            lemma_qs_ops_view_len(self.stack@);
            assert(qs_ops_view(stack@) =~= qs_ops_view(self.stack@));
        }
        let snap = QuickSnapshot {
            ledger: self.ledger.duplicate(),
            stack,
            sorted: qs_clone_ids(&self.sorted),
            completed: self.completed,
        };
        proof {
            assert(snap@ =~= qs_snapshot_of(self@));
        }
        snap
    }

    /// Restore a snapshot, replacing everything but the item order. A
    /// snapshot whose data fails the engine's own structural soundness is
    /// rejected as corrupt and the engine is left untouched.
    pub fn deserialize_state(&mut self, snap: QuickSnapshot) -> (r: Result<(), Error>)
        requires
            quick_wf(old(self)@),
        ensures
            quick_wf(final(self)@),
            r is Ok <==> qs_snapshot_wf(snap@, old(self)@.items.len() as int),
            r is Ok ==> final(self)@ == (QuickModel {
                items: old(self)@.items,
                ledger: snap@.ledger,
                stack: snap@.stack,
                sorted: snap@.sorted,
                completed: snap@.completed,
            }),
            r is Err ==> final(self)@ == old(self)@ && (r matches Err(e) && e is CorruptSnapshot),
    {
        if !snap.ledger.check_wf() {
            return Err(Error::CorruptSnapshot);
        }
        let nn = self.items.len();
        proof {
            assert(nn == self@.items.len());
            assert(ids_view(snap.sorted@).len() == snap.sorted@.len());
        }
        if snap.sorted.len() > nn {
            return Err(Error::CorruptSnapshot);
        }
        let n = snap.stack.len();
        let mut i: usize = 0;
        while i < n
            invariant
                n == snap.stack@.len(),
                i <= n,
                nn == self@.items.len(),
                self@ == old(self)@,
                quick_wf(self@),
                forall|k: int|
                    0 <= k < i ==> qs_op_wf((#[trigger] snap.stack@[k])@, nn as int),
            decreases n - i,
        {
            let op = &snap.stack[i];
            let adj: usize = if op.pivot_idx < op.current_idx {
                1
            } else {
                0
            };
            let ok = op.items.len() >= 2 && op.pivot_idx < op.items.len() && op.current_idx
                <= op.items.len() && op.less.len() <= op.current_idx && op.greater.len()
                <= op.current_idx - op.less.len() && adj <= op.current_idx - op.less.len()
                - op.greater.len() && op.items.len() <= nn && op.start_pos <= nn
                - op.items.len();
            proof {
                assert(ids_view(op.items@).len() == op.items@.len());
                assert(ids_view(op.less@).len() == op.less@.len());
                assert(ids_view(op.greater@).len() == op.greater@.len());
            }
            if !ok {
                proof {
                    assert(!qs_op_wf(snap.stack@[i as int]@, nn as int));
                    lemma_qs_ops_view_index(snap.stack@, i as int);
                }
                return Err(Error::CorruptSnapshot);
            }
            i = i + 1;
        }
        proof {
            assert forall|k: int| 0 <= k < snap@.stack.len() implies qs_op_wf(
                #[trigger] snap@.stack[k],
                nn as int,
            ) by {
                lemma_qs_ops_view_index(snap.stack@, k);
            }
            lemma_qs_ops_view_len(snap.stack@);
        }
        self.ledger = snap.ledger;
        self.stack = snap.stack;
        self.sorted = snap.sorted;
        self.completed = snap.completed;
        Ok(())
    }

    /// The winner already recorded for the unordered pair, if any.
    fn get_comparison(&self, a: &Id, b: &Id) -> (r: Option<Id>)
        ensures
            match r {
                Some(w) => spec_lookup(self@.ledger, a@, b@) == Some(w@),
                None => spec_lookup(self@.ledger, a@, b@) is None,
            },
    {
        match self.ledger.get(a, b) {
            Some(w) => Some(w.clone()),
            None => None,
        }
    }

    /// Complete the ranking: the total order, best first, once every needed
    /// answer has been consumed; `NotComplete` before that.
    pub fn finalize(&mut self) -> (r: Result<RankResult, Error>)
        ensures
            final(self)@ == old(self)@,
            old(self)@.completed ==> (r matches Ok(res) && (res.order matches Some(v)
                && ids_view(v@) == old(self)@.sorted)),
            !old(self)@.completed ==> (r matches Err(e) && e == Error::NotComplete),
    {
        if !self.completed {
            return Err(Error::NotComplete);
        }
        let order = qs_clone_ids(&self.sorted);
        Ok(RankResult { order: Some(order) })
    }

    /// The next unresolved pair the caller must ask about: the first
    /// unresolved (item, pivot) pair of the top partition, or `None` when
    /// the ranking is complete.
    pub fn next_comparison(&self) -> (r: Option<(Id, Id)>)
        requires
            quick_wf(self@),
        ensures
            match r {
                Some(p) => spec_qs_next(self@) == Some((p.0@, p.1@)),
                None => spec_qs_next(self@) is None,
            },
    {
        if self.completed || self.stack.len() == 0 {
            return None;
        }
        let top = self.stack.len() - 1;
        proof {
            lemma_qs_ops_view_len(self.stack@);
            lemma_qs_ops_view_index(self.stack@, top as int);
            assert(self@.stack.last() == self.stack@[top as int]@);
            assert(qs_op_wf(self@.stack.last(), self@.items.len() as int));
        }
        let op = &self.stack[top];
        let n = op.items.len();
        let mut i: usize = op.current_idx;
        while i < n
            invariant
                n == op.items@.len(),
                op@ == self@.stack.last(),
                op@.pivot_idx < n,
                spec_qs_next(self@) == spec_qs_next_from(op@, self@.ledger, i as int),
                !self@.completed,
                self@.stack.len() > 0,
            decreases n - i,
        {
            if i != op.pivot_idx {
                let cur = &op.items[i];
                let piv = &op.items[op.pivot_idx];
                proof {
                    assert(op@.items[i as int] == cur@);
                    assert(op@.items[op.pivot_idx as int] == piv@);
                }
                if self.get_comparison(cur, piv).is_none() {
                    return Some((cur.clone(), piv.clone()));
                }
            }
            i = i + 1;
        }
        None
    }
}


impl RankStrategy for QuickSortStrategy {
    type Snapshot = QuickSnapshot;

    open spec fn wf(&self) -> bool {
        quick_wf(self@)
    }

    open spec fn spec_complete(&self) -> bool {
        self@.completed
    }

    fn name(&self) -> &'static str {
        QuickSortStrategy::name(self)
    }

    fn compare(&mut self, a: &Item, b: &Item, winner_id: &Id) -> (r: Result<(), Error>) {
        QuickSortStrategy::compare(self, a, b, winner_id)
    }

    fn finalize(&mut self) -> (r: Result<RankResult, Error>) {
        QuickSortStrategy::finalize(self)
    }

    fn serialize_state(&self) -> Self::Snapshot {
        QuickSortStrategy::serialize_state(self)
    }

    fn deserialize_state(&mut self, state: Self::Snapshot) -> (r: Result<(), Error>) {
        QuickSortStrategy::deserialize_state(self, state)
    }

    fn next_comparison(&self) -> Option<(Id, Id)> {
        QuickSortStrategy::next_comparison(self)
    }

    fn is_complete(&self) -> (r: bool) {
        QuickSortStrategy::is_complete(self)
    }
}

} // verus!
