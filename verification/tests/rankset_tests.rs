use rankhaus::item::Item;
use rankhaus::ranking::Ranking;
use rankhaus::rankset::RankSet;
use rankhaus::user::User;

#[test]
fn test_rankset_creation() {
    let rankset = RankSet::new(
        "test".to_string(),
        "author".to_string(),
        "description".to_string(),
    );
    assert_eq!(rankset.meta.name, "test");
    assert_eq!(rankset.users.len(), 0);
    assert_eq!(rankset.items.len(), 0);
}

#[test]
fn rankset_test_add_user() {
    let mut rankset = RankSet::new(
        "test".to_string(),
        "author".to_string(),
        "description".to_string(),
    );
    let user = User::new("alice".to_string(), None);
    rankset.add_user(user).unwrap();
    assert_eq!(rankset.users.len(), 1);
}

#[test]
fn test_add_item() {
    let mut rankset = RankSet::new(
        "test".to_string(),
        "author".to_string(),
        "description".to_string(),
    );
    let item = Item::new("blue".to_string());
    rankset.add_item(item).unwrap();
    assert_eq!(rankset.items.len(), 1);
}

#[test]
fn test_get_user_by_id() {
    let mut rankset = RankSet::new("test".to_string(), "author".to_string(), "desc".to_string());
    let user = User::new("alice".to_string(), None);
    let user_id = user.id.to_text();
    rankset.add_user(user).unwrap();

    let found = rankset.get_user(&user_id).unwrap();
    assert_eq!(found.username, "alice");
}

#[test]
fn test_get_user_by_username() {
    let mut rankset = RankSet::new("test".to_string(), "author".to_string(), "desc".to_string());
    let user = User::new("alice".to_string(), None);
    rankset.add_user(user).unwrap();

    let found = rankset.get_user("alice").unwrap();
    assert_eq!(found.username, "alice");
}

#[test]
fn test_get_user_not_found() {
    let rankset = RankSet::new("test".to_string(), "author".to_string(), "desc".to_string());
    let result = rankset.get_user("nonexistent");
    assert!(result.is_err());
}

#[test]
fn test_get_item_by_id() {
    let mut rankset = RankSet::new("test".to_string(), "author".to_string(), "desc".to_string());
    let item = Item::new("blue".to_string());
    let item_id = item.id.to_text();
    rankset.add_item(item).unwrap();

    let found = rankset.get_item(&item_id).unwrap();
    assert_eq!(found.value, "blue");
}

#[test]
fn test_get_item_by_value() {
    let mut rankset = RankSet::new("test".to_string(), "author".to_string(), "desc".to_string());
    let item = Item::new("blue".to_string());
    rankset.add_item(item).unwrap();

    let found = rankset.get_item("blue").unwrap();
    assert_eq!(found.value, "blue");
}

#[test]
fn test_get_item_not_found() {
    let rankset = RankSet::new("test".to_string(), "author".to_string(), "desc".to_string());
    let result = rankset.get_item("nonexistent");
    assert!(result.is_err());
}

#[test]
fn test_remove_item() {
    let mut rankset = RankSet::new("test".to_string(), "author".to_string(), "desc".to_string());
    let item = Item::new("blue".to_string());
    rankset.add_item(item).unwrap();
    assert_eq!(rankset.items.len(), 1);

    rankset.remove_item("blue").unwrap();
    assert_eq!(rankset.items.len(), 0);
}

#[test]
fn test_duplicate_item() {
    let mut rankset = RankSet::new("test".to_string(), "author".to_string(), "desc".to_string());
    let item1 = Item::new("blue".to_string());
    let id = item1.id.clone();
    rankset.add_item(item1).unwrap();

    let item2 = Item::with_id(id, "blue".to_string(), 0);
    let result = rankset.add_item(item2);
    assert!(result.is_err());
}

#[test]
fn test_duplicate_user() {
    let mut rankset = RankSet::new("test".to_string(), "author".to_string(), "desc".to_string());
    let user1 = User::new("alice".to_string(), None);
    let id = user1.id.clone();
    rankset.add_user(user1).unwrap();

    let user2 = User::with_id(id, "alice".to_string(), None);
    let result = rankset.add_user(user2);
    assert!(result.is_err());
}

#[test]
fn remove_user_without_rankings() {
    let mut rankset = RankSet::new("test".to_string(), "author".to_string(), "desc".to_string());
    rankset.add_user(User::new("alice".to_string(), None)).unwrap();
    rankset.remove_user("alice", false).unwrap();
    assert_eq!(rankset.users.len(), 0);
}

#[test]
fn remove_user_with_rankings_needs_cascade() {
    let mut rankset = RankSet::new("test".to_string(), "author".to_string(), "desc".to_string());
    let user = User::new("alice".to_string(), None);
    let uid = user.id.clone();
    rankset.add_user(user).unwrap();
    let ranking = Ranking::new(uid, "merge".to_string());
    rankset.upsert_ranking(ranking);

    let blocked = rankset.remove_user("alice", false);
    assert!(matches!(blocked, Err(rankhaus::error::Error::UserHasRankings)));
    assert_eq!(rankset.users.len(), 1);

    rankset.remove_user("alice", true).unwrap();
    assert_eq!(rankset.users.len(), 0);
    assert_eq!(rankset.rankings.len(), 0);
}

#[test]
fn edit_item_by_id() {
    let mut rankset = RankSet::new("test".to_string(), "author".to_string(), "desc".to_string());
    let item = Item::new("blue".to_string());
    let item_id = item.id.to_text();
    rankset.add_item(item).unwrap();

    rankset.update_item_value(&item_id, "navy".to_string()).unwrap();
    assert_eq!(rankset.get_item("navy").unwrap().value, "navy");
}

#[test]
fn edit_item_by_value() {
    let mut rankset = RankSet::new("test".to_string(), "author".to_string(), "desc".to_string());
    rankset.add_item(Item::new("blue".to_string())).unwrap();

    rankset.update_item_value("blue", "navy".to_string()).unwrap();
    assert!(rankset.get_item("blue").is_err());
    assert_eq!(rankset.get_item("navy").unwrap().value, "navy");
}

#[test]
fn edit_item_not_found() {
    let mut rankset = RankSet::new("test".to_string(), "author".to_string(), "desc".to_string());
    let result = rankset.update_item_value("missing", "navy".to_string());
    assert!(matches!(result, Err(rankhaus::error::Error::ItemNotFound(_))));
}

#[test]
fn edit_item_duplicate_value() {
    let mut rankset = RankSet::new("test".to_string(), "author".to_string(), "desc".to_string());
    rankset.add_item(Item::new("blue".to_string())).unwrap();
    rankset.add_item(Item::new("red".to_string())).unwrap();
    let result = rankset.update_item_value("red", "blue".to_string());
    assert!(matches!(result, Err(rankhaus::error::Error::DuplicateItem(_))));
}

#[test]
fn edit_user_display_name() {
    let mut rankset = RankSet::new("test".to_string(), "author".to_string(), "desc".to_string());
    rankset.add_user(User::new("alice".to_string(), Some("Alice".to_string()))).unwrap();
    rankset.update_user_display_name("alice", "Alice Smith".to_string()).unwrap();
    assert_eq!(rankset.get_user("alice").unwrap().display_name, "Alice Smith");
}

#[test]
fn find_ranking_by_prefix() {
    let mut rankset = RankSet::new("test".to_string(), "author".to_string(), "desc".to_string());
    let user = User::new("alice".to_string(), None);
    let uid = user.id.clone();
    rankset.add_user(user).unwrap();
    let ranking = Ranking::new(uid, "merge".to_string());
    let sid = ranking.session.info.id.to_text();
    rankset.upsert_ranking(ranking);

    let by_full = rankset.find_ranking_index(&sid);
    assert_eq!(by_full, Some(0));
    let by_prefix = rankset.find_ranking_index(&sid[0..8]);
    assert_eq!(by_prefix, Some(0));
    assert_eq!(rankset.find_ranking_index("zzzzzzzz"), None);
}

#[test]
fn upsert_replaces_same_session() {
    let mut rankset = RankSet::new("test".to_string(), "author".to_string(), "desc".to_string());
    let user = User::new("alice".to_string(), None);
    let uid = user.id.clone();
    rankset.add_user(user).unwrap();
    let ranking = Ranking::new(uid.clone(), "merge".to_string());
    let mut updated = Ranking {
        user_id: uid,
        strategy: "merge".to_string(),
        session: rankhaus::session::Session {
            info: rankhaus::session::SessionInfo {
                id: ranking.session.info.id.clone(),
                created: ranking.session.info.created,
                last_updated: ranking.session.info.last_updated,
                completed: None,
                status: rankhaus::session::SessionStatus::InProgress,
            },
            comparisons: Vec::new(),
        },
        result: None,
    };
    updated.strategy = "quicksort".to_string();
    rankset.upsert_ranking(ranking);
    assert_eq!(rankset.rankings.len(), 1);
    rankset.upsert_ranking(updated);
    assert_eq!(rankset.rankings.len(), 1);
    assert_eq!(rankset.rankings[0].strategy, "quicksort");
}
