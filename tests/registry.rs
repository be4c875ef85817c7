use chat_server::registry::{str_eq, Registry};

#[test]
fn add_and_get() {
    let mut r = Registry::new(4);
    assert!(r.try_add("alice".to_string(), 7));
    assert!(r.try_add("bob".to_string(), 9));
    assert_eq!(r.get("alice"), Some(7));
    assert_eq!(r.get("bob"), Some(9));
    assert_eq!(r.get("carol"), None);
    assert_eq!(r.len(), 2);
}

#[test]
fn duplicate_name_is_refused() {
    let mut r = Registry::new(4);
    assert!(r.try_add("alice".to_string(), 1));
    assert!(!r.try_add("alice".to_string(), 2));
    assert_eq!(r.get("alice"), Some(1));
    assert_eq!(r.len(), 1);
}

#[test]
fn names_are_case_sensitive() {
    let mut r = Registry::new(4);
    assert!(r.try_add("alice".to_string(), 1));
    assert!(r.try_add("Alice".to_string(), 2));
    assert!(r.is_taken("Alice"));
    assert!(!r.is_taken("ALICE"));
}

#[test]
fn remove_frees_the_name() {
    let mut r = Registry::new(4);
    r.try_add("alice".to_string(), 1);
    r.try_add("bob".to_string(), 2);
    assert_eq!(r.remove("alice"), Some(1));
    assert_eq!(r.remove("alice"), None);
    assert!(!r.is_taken("alice"));
    assert!(r.try_add("alice".to_string(), 3));
    assert_eq!(r.get_usernames_list(), vec!["bob".to_string(), "alice".to_string()]);
}

#[test]
fn usernames_in_join_order() {
    let mut r = Registry::new(4);
    r.try_add("carol".to_string(), 3);
    r.try_add("alice".to_string(), 1);
    r.try_add("bob".to_string(), 2);
    assert_eq!(
        r.get_usernames_list(),
        vec!["carol".to_string(), "alice".to_string(), "bob".to_string()]
    );
}

#[test]
fn broadcast_targets_exclude_sender() {
    let mut r = Registry::new(4);
    r.try_add("a".to_string(), 1);
    r.try_add("b".to_string(), 2);
    r.try_add("c".to_string(), 3);
    assert_eq!(r.broadcast_targets("b"), vec![("a".to_string(), 1), ("c".to_string(), 3)]);
    assert_eq!(r.broadcast_targets("z").len(), 3);
}

#[test]
fn clear_empties() {
    let mut r = Registry::new(0);
    r.try_add("a".to_string(), 1);
    r.clear();
    assert_eq!(r.len(), 0);
    assert!(r.get_usernames_list().is_empty());
}

#[test]
fn string_equality() {
    assert!(str_eq("héllo", "héllo"));
    assert!(!str_eq("hello", "hellO"));
    assert!(!str_eq("a", "ab"));
    assert!(str_eq("", ""));
}
