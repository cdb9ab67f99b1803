use rankhaus::id::Id;
use rankhaus::item::Item;
use rankhaus::merge::MergeStrategy;
use rankhaus::session::Comparison;

fn create_test_items(count: usize) -> Vec<Item> {
    (0..count).map(|i| Item::new(format!("item{}", i))).collect()
}

#[test]
fn test_merge_strategy_creation() {
    let items = create_test_items(3);
    let ids: Vec<Id> = items.iter().map(|item| item.id.clone()).collect();

    let strategy = MergeStrategy::new(ids.clone());
    assert_eq!(strategy.name(), "merge");
    assert!(!strategy.is_complete());
    assert_eq!(strategy.item_count(), 3);
}

#[test]
fn merge_test_empty_list() {
    let strategy = MergeStrategy::new(vec![]);
    assert!(strategy.is_complete());
    assert!(strategy.next_comparison().is_none());
}

#[test]
fn merge_test_single_item() {
    let items = create_test_items(1);
    let ids: Vec<Id> = items.iter().map(|item| item.id.clone()).collect();

    let strategy = MergeStrategy::new(ids);
    assert!(strategy.is_complete());
    assert!(strategy.next_comparison().is_none());
}

#[test]
fn merge_test_two_items() {
    let items = create_test_items(2);
    let ids: Vec<Id> = items.iter().map(|item| item.id.clone()).collect();

    let mut strategy = MergeStrategy::new(ids.clone());
    assert!(!strategy.is_complete());

    // Should need one comparison
    let (a, b) = strategy.next_comparison().unwrap();
    assert!(a == ids[0] || a == ids[1]);
    assert!(b == ids[0] || b == ids[1]);
    assert_ne!(a, b);

    // Make the comparison
    strategy.compare(&items[0], &items[1], &items[0].id).unwrap();

    assert!(strategy.is_complete());
    let result = strategy.finalize().unwrap();
    assert_eq!(result.order.unwrap(), vec![items[0].id.clone(), items[1].id.clone()]);
}

#[test]
fn merge_test_three_items() {
    let items = create_test_items(3);
    let ids: Vec<Id> = items.iter().map(|item| item.id.clone()).collect();

    let mut strategy = MergeStrategy::new(ids.clone());
    assert!(!strategy.is_complete());

    // Perform comparisons until complete
    let mut comparison_count = 0;
    while let Some((a_id, b_id)) = strategy.next_comparison() {
        let a = items.iter().find(|item| item.id == a_id).unwrap();
        let b = items.iter().find(|item| item.id == b_id).unwrap();

        // Always prefer item0 > item1 > item2
        let winner = if a.value < b.value { a } else { b };
        strategy.compare(a, b, &winner.id).unwrap();

        comparison_count += 1;
        if comparison_count > 10 {
            panic!("Too many comparisons");
        }
    }

    assert!(strategy.is_complete());
    assert!(comparison_count <= 3); // Merge sort should need at most 3 comparisons for 3 items

    let result = strategy.finalize().unwrap();
    let order = result.order.unwrap();
    assert_eq!(order.len(), 3);

    // Verify order is correct (item0 < item1 < item2)
    assert_eq!(order[0], items[0].id);
    assert_eq!(order[1], items[1].id);
    assert_eq!(order[2], items[2].id);
}

#[test]
fn test_four_items() {
    let items = create_test_items(4);
    let ids: Vec<Id> = items.iter().map(|item| item.id.clone()).collect();

    let mut strategy = MergeStrategy::new(ids.clone());

    let mut comparison_count = 0;
    while let Some((a_id, b_id)) = strategy.next_comparison() {
        let a = items.iter().find(|item| item.id == a_id).unwrap();
        let b = items.iter().find(|item| item.id == b_id).unwrap();

        let winner = if a.value < b.value { a } else { b };
        strategy.compare(a, b, &winner.id).unwrap();

        comparison_count += 1;
        if comparison_count > 20 {
            panic!("Too many comparisons");
        }
    }

    assert!(strategy.is_complete());
    assert!(comparison_count <= 5); // Merge sort needs at most 5 comparisons for 4 items

    let result = strategy.finalize().unwrap();
    let order = result.order.unwrap();
    assert_eq!(order.len(), 4);

    // Verify order is correct (item0 < item1 < item2 < item3)
    assert_eq!(order[0], items[0].id);
    assert_eq!(order[1], items[1].id);
    assert_eq!(order[2], items[2].id);
    assert_eq!(order[3], items[3].id);
}

#[test]
fn merge_test_finalize_before_complete() {
    let items = create_test_items(2);
    let ids: Vec<Id> = items.iter().map(|item| item.id.clone()).collect();

    let mut strategy = MergeStrategy::new(ids);
    let result = strategy.finalize();
    assert!(result.is_err());
}

#[test]
fn test_six_items() {
    let items = create_test_items(6);
    let ids: Vec<Id> = items.iter().map(|item| item.id.clone()).collect();

    let mut strategy = MergeStrategy::new(ids.clone());

    let mut comparison_count = 0;
    while let Some((a_id, b_id)) = strategy.next_comparison() {
        let a = items.iter().find(|item| item.id == a_id).unwrap();
        let b = items.iter().find(|item| item.id == b_id).unwrap();

        let winner = if a.value < b.value { a } else { b };
        strategy.compare(a, b, &winner.id).unwrap();

        comparison_count += 1;
        if comparison_count > 30 {
            panic!("Too many comparisons");
        }
    }

    assert!(strategy.is_complete());
    assert!(comparison_count >= 8); // Should need at least 8 comparisons for 6 items
    assert!(comparison_count <= 15); // But not more than 15

    let result = strategy.finalize().unwrap();
    let order = result.order.unwrap();
    assert_eq!(order.len(), 6);

    // Verify order is correct
    for i in 0..6 {
        assert_eq!(order[i], items[i].id);
    }
}

#[test]
fn merge_test_serialize_deserialize() {
    let items = create_test_items(3);
    let ids: Vec<Id> = items.iter().map(|item| item.id.clone()).collect();

    let mut strategy = MergeStrategy::new(ids.clone());

    // Make one comparison
    if let Some((a_id, b_id)) = strategy.next_comparison() {
        let a = items.iter().find(|item| item.id == a_id).unwrap();
        let b = items.iter().find(|item| item.id == b_id).unwrap();
        strategy.compare(a, b, &a.id).unwrap();
    }

    // Serialize state
    let state = strategy.serialize_state();

    // Create new strategy and deserialize
    let mut new_strategy = MergeStrategy::new(ids);
    new_strategy.deserialize_state(state).unwrap();

    // States should match
    assert_eq!(strategy.is_complete(), new_strategy.is_complete());
}

// Named items A, B, C, D in insertion order; answers A>B, C>D, A>C in the
// order requested, then consistently with A > C > D > B: completion within
// the merge-sort bound and the fixed expected order [A, C, D, B].
#[test]
fn four_items_fixed_scenario() {
    let names = ["A", "B", "C", "D"];
    let items: Vec<Item> = names.iter().map(|n| Item::new(n.to_string())).collect();
    let ids: Vec<Id> = items.iter().map(|item| item.id.clone()).collect();
    // preference rank: A best, then C, then D, then B
    let rank = |v: &str| match v {
        "A" => 0,
        "C" => 1,
        "D" => 2,
        _ => 3,
    };

    let mut strategy = MergeStrategy::new(ids.clone());
    let mut asked: Vec<(String, String)> = Vec::new();
    let mut count = 0;
    while let Some((a_id, b_id)) = strategy.next_comparison() {
        let a = items.iter().find(|item| item.id == a_id).unwrap();
        let b = items.iter().find(|item| item.id == b_id).unwrap();
        asked.push((a.value.clone(), b.value.clone()));
        let winner = if rank(&a.value) < rank(&b.value) { a } else { b };
        strategy.compare(a, b, &winner.id).unwrap();
        count += 1;
        assert!(count <= 5, "merge sort bound exceeded for 4 items");
    }

    // The first three questions are exactly A-B, C-D, A-C.
    assert_eq!(asked[0], ("A".to_string(), "B".to_string()));
    assert_eq!(asked[1], ("C".to_string(), "D".to_string()));
    assert_eq!(asked[2], ("A".to_string(), "C".to_string()));

    assert!(strategy.is_complete());
    let order = strategy.finalize().unwrap().order.unwrap();
    let order_names: Vec<&str> = order
        .iter()
        .map(|id| items.iter().find(|item| item.id == *id).unwrap().value.as_str())
        .collect();
    assert_eq!(order_names, vec!["A", "C", "D", "B"]);
}

// Suspension: run the 4-item scenario, suspend after 2 comparisons, rebuild
// a fresh engine by replaying the journal; the rebuilt engine asks exactly
// the question the original would have asked, and the final order matches a
// run that was never suspended.
#[test]
fn suspension_replay_resume() {
    let names = ["A", "B", "C", "D"];
    let items: Vec<Item> = names.iter().map(|n| Item::new(n.to_string())).collect();
    let ids: Vec<Id> = items.iter().map(|item| item.id.clone()).collect();
    let rank = |v: &str| match v {
        "A" => 0,
        "C" => 1,
        "D" => 2,
        _ => 3,
    };

    let mut live = MergeStrategy::new(ids.clone());
    let mut journal: Vec<Comparison> = Vec::new();
    for _ in 0..2 {
        let (a_id, b_id) = live.next_comparison().unwrap();
        let a = items.iter().find(|item| item.id == a_id).unwrap();
        let b = items.iter().find(|item| item.id == b_id).unwrap();
        let winner = if rank(&a.value) < rank(&b.value) { a } else { b };
        live.compare(a, b, &winner.id).unwrap();
        journal.push(Comparison {
            a: a.id.clone(),
            b: b.id.clone(),
            winner: winner.id.clone(),
            timestamp: 0,
        });
    }
    let expected_next = live.next_comparison();

    // Discard the live engine; reconstruct from the journal.
    drop(live);
    let mut resumed = MergeStrategy::replay(ids.clone(), &journal).unwrap();
    let resumed_next = resumed.next_comparison();
    assert_eq!(
        expected_next.clone().map(|(x, y)| (x.as_str().to_string(), y.as_str().to_string())),
        resumed_next.map(|(x, y)| (x.as_str().to_string(), y.as_str().to_string()))
    );

    // Finish the resumed run and an uninterrupted run; orders must match.
    while let Some((a_id, b_id)) = resumed.next_comparison() {
        let a = items.iter().find(|item| item.id == a_id).unwrap();
        let b = items.iter().find(|item| item.id == b_id).unwrap();
        let winner = if rank(&a.value) < rank(&b.value) { a } else { b };
        resumed.compare(a, b, &winner.id).unwrap();
    }
    let resumed_order = resumed.finalize().unwrap().order.unwrap();

    let mut unbroken = MergeStrategy::new(ids.clone());
    while let Some((a_id, b_id)) = unbroken.next_comparison() {
        let a = items.iter().find(|item| item.id == a_id).unwrap();
        let b = items.iter().find(|item| item.id == b_id).unwrap();
        let winner = if rank(&a.value) < rank(&b.value) { a } else { b };
        unbroken.compare(a, b, &winner.id).unwrap();
    }
    let unbroken_order = unbroken.finalize().unwrap().order.unwrap();
    assert_eq!(resumed_order, unbroken_order);
}

// Replaying the same journal twice leaves the engine exactly where one
// replay leaves it.
#[test]
fn replay_is_idempotent() {
    let items = create_test_items(4);
    let ids: Vec<Id> = items.iter().map(|item| item.id.clone()).collect();

    let mut live = MergeStrategy::new(ids.clone());
    let mut journal: Vec<Comparison> = Vec::new();
    while let Some((a_id, b_id)) = live.next_comparison() {
        let a = items.iter().find(|item| item.id == a_id).unwrap();
        let b = items.iter().find(|item| item.id == b_id).unwrap();
        let winner = if a.value < b.value { a } else { b };
        live.compare(a, b, &winner.id).unwrap();
        journal.push(Comparison {
            a: a.id.clone(),
            b: b.id.clone(),
            winner: winner.id.clone(),
            timestamp: 0,
        });
    }

    let mut once = MergeStrategy::replay(ids.clone(), &journal).unwrap();
    assert!(once.is_complete());
    let order_once = once.finalize().unwrap().order.unwrap();

    // Replay the journal a second time into the already-replayed engine.
    let mut twice = MergeStrategy::replay(ids.clone(), &journal).unwrap();
    for c in &journal {
        let a = items.iter().find(|item| item.id == c.a).unwrap();
        let b = items.iter().find(|item| item.id == c.b).unwrap();
        twice.compare(a, b, &c.winner).unwrap();
    }
    assert!(twice.is_complete());
    let order_twice = twice.finalize().unwrap().order.unwrap();
    assert_eq!(order_once, order_twice);
}

// A journal entry whose winner is neither of its own pair is corrupt.
#[test]
fn replay_rejects_corrupt_journal() {
    let items = create_test_items(3);
    let ids: Vec<Id> = items.iter().map(|item| item.id.clone()).collect();
    let journal = vec![Comparison {
        a: ids[0].clone(),
        b: ids[1].clone(),
        winner: ids[2].clone(),
        timestamp: 0,
    }];
    let result = MergeStrategy::replay(ids, &journal);
    assert!(matches!(result, Err(rankhaus::error::Error::CorruptJournal)));
}

// A winner that is neither of the compared pair is rejected and the engine
// is left untouched.
#[test]
fn compare_rejects_invalid_winner() {
    let items = create_test_items(3);
    let ids: Vec<Id> = items.iter().map(|item| item.id.clone()).collect();
    let mut strategy = MergeStrategy::new(ids);
    let before = strategy.next_comparison();
    let r = strategy.compare(&items[0], &items[1], &items[2].id);
    assert!(matches!(r, Err(rankhaus::error::Error::InvalidWinner(_))));
    let after = strategy.next_comparison();
    assert_eq!(
        before.map(|(x, y)| (x.as_str().to_string(), y.as_str().to_string())),
        after.map(|(x, y)| (x.as_str().to_string(), y.as_str().to_string()))
    );
}

// Submitting the same pair and winner twice changes nothing: the eventual
// order is the same as answering once.
#[test]
fn compare_is_idempotent() {
    let items = create_test_items(3);
    let ids: Vec<Id> = items.iter().map(|item| item.id.clone()).collect();
    let mut strategy = MergeStrategy::new(ids.clone());
    let mut count = 0;
    while let Some((a_id, b_id)) = strategy.next_comparison() {
        let a = items.iter().find(|item| item.id == a_id).unwrap();
        let b = items.iter().find(|item| item.id == b_id).unwrap();
        let winner = if a.value < b.value { a } else { b };
        strategy.compare(a, b, &winner.id).unwrap();
        // And once more, same pair, same winner.
        strategy.compare(a, b, &winner.id).unwrap();
        count += 1;
        assert!(count <= 3);
    }
    assert!(strategy.is_complete());
    let order = strategy.finalize().unwrap().order.unwrap();
    assert_eq!(order[0], items[0].id);
    assert_eq!(order[1], items[1].id);
    assert_eq!(order[2], items[2].id);
}

// No unordered pair is ever presented twice by next_comparison over a full
// merge run.
#[test]
fn merge_no_duplicate_questions() {
    let items = create_test_items(7);
    let ids: Vec<Id> = items.iter().map(|item| item.id.clone()).collect();
    let mut strategy = MergeStrategy::new(ids);
    let mut seen: Vec<(String, String)> = Vec::new();
    while let Some((a_id, b_id)) = strategy.next_comparison() {
        let key = if a_id.as_str() < b_id.as_str() {
            (a_id.as_str().to_string(), b_id.as_str().to_string())
        } else {
            (b_id.as_str().to_string(), a_id.as_str().to_string())
        };
        assert!(!seen.contains(&key), "pair presented twice: {:?}", key);
        seen.push(key);
        let a = items.iter().find(|item| item.id == a_id).unwrap();
        let b = items.iter().find(|item| item.id == b_id).unwrap();
        let winner = if a.value < b.value { a } else { b };
        strategy.compare(a, b, &winner.id).unwrap();
        assert!(seen.len() <= 21);
    }
    assert!(strategy.is_complete());
}

// A consistent total preference over five items yields exactly the order
// the relation dictates.
#[test]
fn consistent_relation_yields_unique_order() {
    let items = create_test_items(5);
    let ids: Vec<Id> = items.iter().map(|item| item.id.clone()).collect();
    let mut strategy = MergeStrategy::new(ids);
    while let Some((a_id, b_id)) = strategy.next_comparison() {
        let a = items.iter().find(|item| item.id == a_id).unwrap();
        let b = items.iter().find(|item| item.id == b_id).unwrap();
        let winner = if a.value < b.value { a } else { b };
        strategy.compare(a, b, &winner.id).unwrap();
    }
    assert!(strategy.is_complete());
    let order = strategy.finalize().unwrap().order.unwrap();
    for i in 0..5 {
        assert_eq!(order[i], items[i].id);
    }
}
