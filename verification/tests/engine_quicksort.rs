use rankhaus::id::Id;
use rankhaus::item::Item;
use rankhaus::quicksort::QuickSortStrategy;

fn create_test_items(count: usize) -> Vec<Item> {
    (0..count)
        .map(|i| Item::with_id(Id::from_string(format!("i{}", i)), format!("Item {}", i), 0))
        .collect()
}

#[test]
fn test_quicksort_strategy_creation() {
    let items = create_test_items(5);
    let ids: Vec<Id> = items.iter().map(|item| item.id.clone()).collect();
    let strategy = QuickSortStrategy::new(ids);

    assert_eq!(strategy.name(), "quicksort");
    assert!(!strategy.is_complete());
}

#[test]
fn quicksort_test_empty_list() {
    let mut strategy = QuickSortStrategy::new(vec![]);
    assert!(strategy.is_complete());
    assert!(strategy.finalize().is_ok());
}

#[test]
fn quicksort_test_single_item() {
    let items = create_test_items(1);
    let ids: Vec<Id> = items.iter().map(|item| item.id.clone()).collect();
    let mut strategy = QuickSortStrategy::new(ids.clone());

    assert!(strategy.is_complete());
    let result = strategy.finalize().unwrap();
    assert_eq!(result.order.unwrap(), ids);
}

#[test]
fn quicksort_test_two_items() {
    let items = create_test_items(2);
    let ids: Vec<Id> = items.iter().map(|item| item.id.clone()).collect();
    let mut strategy = QuickSortStrategy::new(ids.clone());

    // Should need one comparison
    let (_a, _b) = strategy.next_comparison().unwrap();

    // Choose first item as winner
    strategy.compare(&items[0], &items[1], &ids[0]).unwrap();

    assert!(strategy.is_complete());
    let result = strategy.finalize().unwrap();
    assert_eq!(result.order.unwrap(), vec![ids[0].clone(), ids[1].clone()]);
}

#[test]
fn quicksort_test_three_items() {
    let items = create_test_items(3);
    let ids: Vec<Id> = items.iter().map(|item| item.id.clone()).collect();
    let mut strategy = QuickSortStrategy::new(ids.clone());

    // Perform comparisons until complete
    while let Some((a, b)) = strategy.next_comparison() {
        // Always prefer lower index (simulates consistent preference)
        let winner = if a.as_str() < b.as_str() { &a } else { &b };
        let item_a = items.iter().find(|i| i.id == a).unwrap();
        let item_b = items.iter().find(|i| i.id == b).unwrap();
        let winner = winner.clone();
        strategy.compare(item_a, item_b, &winner).unwrap();
    }

    assert!(strategy.is_complete());
    let result = strategy.finalize().unwrap();
    assert_eq!(result.order.unwrap().len(), 3);
}

#[test]
fn quicksort_test_serialize_deserialize() {
    let items = create_test_items(4);
    let ids: Vec<Id> = items.iter().map(|item| item.id.clone()).collect();
    let mut strategy = QuickSortStrategy::new(ids.clone());

    // Do one comparison
    if let Some((a, b)) = strategy.next_comparison() {
        let item_a = items.iter().find(|i| i.id == a).unwrap();
        let item_b = items.iter().find(|i| i.id == b).unwrap();
        let winner = a.clone();
        strategy.compare(item_a, item_b, &winner).unwrap();
    }

    // Serialize
    let state = strategy.serialize_state();

    // Create new strategy and deserialize
    let mut new_strategy = QuickSortStrategy::new(ids.clone());
    new_strategy.deserialize_state(state).unwrap();

    // Should have same state
    assert_eq!(strategy.is_complete(), new_strategy.is_complete());
}

#[test]
fn quicksort_test_finalize_before_complete() {
    let items = create_test_items(3);
    let ids: Vec<Id> = items.iter().map(|item| item.id.clone()).collect();
    let mut strategy = QuickSortStrategy::new(ids);

    // Try to finalize before completing
    assert!(strategy.finalize().is_err());
}

#[test]
fn test_no_duplicate_comparisons() {
    let items = create_test_items(9);
    let ids: Vec<Id> = items.iter().map(|item| item.id.clone()).collect();
    let mut strategy = QuickSortStrategy::new(ids.clone());

    let mut comparisons = Vec::new();

    // Perform comparisons until complete
    while let Some((a, b)) = strategy.next_comparison() {
        // Check for duplicates
        let pair1 = (a.as_str().to_string(), b.as_str().to_string());
        let pair2 = (b.as_str().to_string(), a.as_str().to_string());

        for (prev_a, prev_b) in &comparisons {
            assert!(
                !(prev_a == &pair1.0 && prev_b == &pair1.1)
                    && !(prev_a == &pair2.0 && prev_b == &pair2.1),
                "Duplicate comparison found: {:?} vs {:?}",
                a,
                b
            );
        }

        comparisons.push(pair1);

        // Always prefer lower index (simulates consistent preference)
        let winner = if a.as_str() < b.as_str() { a.clone() } else { b.clone() };
        let item_a = items.iter().find(|i| i.id == a).unwrap();
        let item_b = items.iter().find(|i| i.id == b).unwrap();
        strategy.compare(item_a, item_b, &winner).unwrap();
    }

    assert!(strategy.is_complete());
    println!("Total comparisons for 9 items: {}", comparisons.len());

    // QuickSort should use significantly fewer than n*(n-1)/2 comparisons
    // For 9 items, worst case is 36 comparisons, but we should do much better
    assert!(comparisons.len() < 30, "Too many comparisons: {}", comparisons.len());
}

// A consistent preference over five items sorts them exactly.
#[test]
fn quicksort_consistent_relation_orders() {
    let items = create_test_items(5);
    let ids: Vec<Id> = items.iter().map(|item| item.id.clone()).collect();
    let mut strategy = QuickSortStrategy::new(ids);
    while let Some((a, b)) = strategy.next_comparison() {
        let winner = if a.as_str() < b.as_str() { a.clone() } else { b.clone() };
        let item_a = items.iter().find(|i| i.id == a).unwrap();
        let item_b = items.iter().find(|i| i.id == b).unwrap();
        strategy.compare(item_a, item_b, &winner).unwrap();
    }
    assert!(strategy.is_complete());
    let order = strategy.finalize().unwrap().order.unwrap();
    for i in 0..5 {
        assert_eq!(order[i], items[i].id);
    }
}

// A winner that is neither of the compared pair is rejected.
#[test]
fn quicksort_rejects_invalid_winner() {
    let items = create_test_items(3);
    let ids: Vec<Id> = items.iter().map(|item| item.id.clone()).collect();
    let mut strategy = QuickSortStrategy::new(ids);
    let r = strategy.compare(&items[0], &items[1], &items[2].id);
    assert!(matches!(r, Err(rankhaus::error::Error::InvalidWinner(_))));
}
