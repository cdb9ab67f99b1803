use rankhaus::id::Id;
use rankhaus::item::Item;
use rankhaus::rankset::resolve_rankset_path;
use rankhaus::session::{Session, SessionInfo, SessionStatus};
use rankhaus::strategy::get_available_strategies;
use rankhaus::user::User;

#[test]
fn test_id_generation() {
    let id = Id::new(None);
    assert_eq!(id.as_str().len(), 7);
}

#[test]
fn test_id_with_prefix() {
    let id = Id::new(Some("u"));
    assert_eq!(id.as_str().len(), 8);
    assert!(id.as_str().starts_with("u"));
}

#[test]
fn id_round_trips_through_text() {
    let id = Id::from_string("abc1234".to_string());
    assert_eq!(id.as_str(), "abc1234");
    assert_eq!(id.to_text(), "abc1234".to_string());
}

#[test]
fn id_ordering_is_textual() {
    let a = Id::from_string("apple".to_string());
    let b = Id::from_string("banana".to_string());
    assert!(a.lt(&b));
    assert!(!b.lt(&a));
    assert!(!a.lt(&a));
}

#[test]
fn test_item_creation() {
    let item = Item::new("test".to_string());
    assert_eq!(item.value, "test");
    assert_eq!(item.id.as_str().len(), 7);
}

#[test]
fn test_user_creation() {
    let user = User::new("alice".to_string(), None);
    assert_eq!(user.username, "alice");
    assert_eq!(user.display_name, "alice");
    assert!(user.id.as_str().starts_with("u"));
}

#[test]
fn test_user_with_display_name() {
    let user = User::new("alice".to_string(), Some("Alice Smith".to_string()));
    assert_eq!(user.username, "alice");
    assert_eq!(user.display_name, "Alice Smith");
}

#[test]
fn session_info_has_uuid_identity() {
    let info = SessionInfo::new();
    assert_eq!(info.id.as_str().len(), 36);
    assert_eq!(info.status, SessionStatus::InProgress);
    assert!(info.completed.is_none());
    assert_eq!(info.created, info.last_updated);
}

#[test]
fn session_complete_sets_status_and_timestamp() {
    let mut info = SessionInfo::new();
    info.complete();
    assert_eq!(info.status, SessionStatus::Completed);
    assert_eq!(info.completed, Some(info.last_updated));
}

#[test]
fn session_journal_appends_in_order() {
    let mut session = Session::new();
    assert_eq!(session.comparisons.len(), 0);
    let a = Id::from_string("a".to_string());
    let b = Id::from_string("b".to_string());
    session.add_comparison(a.clone(), b.clone(), a.clone());
    session.add_comparison(b.clone(), a.clone(), b.clone());
    assert_eq!(session.comparisons.len(), 2);
    assert_eq!(session.comparisons[0].a, a);
    assert_eq!(session.comparisons[0].winner, a);
    assert_eq!(session.comparisons[1].winner, b);
}

#[test]
fn strategies_list_names_both_engines() {
    let names = get_available_strategies();
    assert_eq!(names, vec!["merge", "quicksort"]);
}

#[test]
fn resolve_path_uses_existing_path_as_given() {
    assert_eq!(resolve_rankset_path("somewhere/x.json", true), "somewhere/x.json".to_string());
}

#[test]
fn resolve_path_appends_extension_when_missing() {
    assert_eq!(resolve_rankset_path("colors", false), "ranksets/colors.rankset".to_string());
}

#[test]
fn resolve_path_keeps_existing_extension() {
    assert_eq!(resolve_rankset_path("colors.rankset", false), "ranksets/colors.rankset".to_string());
}
