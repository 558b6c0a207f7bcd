use hyboard_bridge::user::{UserInfo, UserManager};

#[test]
fn test_user_manager_crud_and_auth() {
    let mut manager = UserManager::new();
    assert_eq!(manager.user_count(), 0);

    let users = vec![
        UserInfo {
            id: 1,
            uuid: "6BA7B810-9DAD-11D1-80B4-00C04FD430C8".to_string(),
            speed_limit: 1000,
        },
        UserInfo {
            id: 2,
            uuid: "d3b07384-d113-40e1-bb97-b2f7f9859f9a".to_string(),
            speed_limit: 0,
        },
    ];

    let (total, changed) = manager.update_users(users);
    assert_eq!(total, 2);
    assert_eq!(changed, 2);
    assert_eq!(manager.user_count(), 2);

    // Case-insensitive authentication check
    let auth1 = manager.authenticate("6ba7b810-9dad-11d1-80b4-00c04fd430c8");
    assert!(auth1.is_some());
    assert_eq!(auth1.unwrap().id, 1);

    let auth2 = manager.authenticate("d3b07384-d113-40e1-bb97-b2f7f9859f9a");
    assert!(auth2.is_some());
    assert_eq!(auth2.unwrap().id, 2);

    // Invalid user auth
    let auth_invalid = manager.authenticate("invalid-uuid-token");
    assert!(auth_invalid.is_none());

    // Reverse lookup
    assert_eq!(
        manager.get_user_id_by_uuid("d3b07384-d113-40e1-bb97-b2f7f9859f9a"),
        Some(2)
    );
    assert_eq!(manager.get_user_by_id(1).map(|u| u.id), Some(1));

    // Sync with removal of user 1
    let new_users = vec![UserInfo {
        id: 2,
        uuid: "d3b07384-d113-40e1-bb97-b2f7f9859f9a".to_string(),
        speed_limit: 5000, // speed limit updated
    }];

    let (total2, changed2) = manager.update_users(new_users);
    assert_eq!(total2, 1);
    assert_eq!(changed2, 1);
    assert_eq!(
        manager.authenticate("6ba7b810-9dad-11d1-80b4-00c04fd430c8"),
        None
    );
    assert_eq!(manager.get_user_by_id(2).unwrap().speed_limit, 5000);
}

fn user(id: u32, uuid: &str, speed_limit: u32) -> UserInfo {
    UserInfo { id, uuid: uuid.to_string(), speed_limit }
}

#[test]
fn authenticate_trims_and_lowercases_the_token() {
    let mut m = UserManager::new();
    m.update_users(vec![user(5, "  AbC-Def  ", 0)]);
    // Stored under the normalized key.
    assert_eq!(m.authenticate("abc-def").map(|u| u.id), Some(5));
    // Mixed case and surrounding whitespace are accepted.
    assert_eq!(m.authenticate(" ABC-DEF\t").map(|u| u.id), Some(5));
    // The stored user keeps its UUID as given.
    assert_eq!(m.get_user_by_uuid("abc-def").unwrap().uuid, "  AbC-Def  ");
    assert_eq!(m.get_user_id_by_uuid("nobody"), None);
}

#[test]
fn resync_with_same_list_changes_nothing() {
    let mut m = UserManager::new();
    let list = vec![user(1, "a", 1), user(2, "b", 2)];
    assert_eq!(m.update_users(list.clone()), (2, 2));
    assert_eq!(m.update_users(list), (2, 0));
}

#[test]
fn later_user_wins_for_a_shared_key() {
    let mut m = UserManager::new();
    let (total, changed) = m.update_users(vec![user(1, "Same", 10), user(2, "same", 20)]);
    assert_eq!(total, 1);
    assert_eq!(changed, 2);
    let u = m.authenticate("same").unwrap();
    assert_eq!((u.id, u.speed_limit), (2, 20));
    // The reverse index keeps both IDs, pointing at the shared key.
    assert_eq!(m.get_user_by_id(1).map(|u| u.id), Some(2));
    assert_eq!(m.get_user_by_id(2).map(|u| u.id), Some(2));
    assert_eq!(m.get_user_by_id(3), None);
}

#[test]
fn all_users_lists_each_user_once() {
    let mut m = UserManager::new();
    m.update_users(vec![user(1, "a", 0), user(2, "b", 0), user(3, "c", 0)]);
    let mut ids: Vec<u32> = m.all_users().iter().map(|u| u.id).collect();
    ids.sort();
    assert_eq!(ids, vec![1, 2, 3]);
}

#[test]
fn empty_sync_evicts_everyone() {
    let mut m = UserManager::new();
    m.update_users(vec![user(1, "a", 0)]);
    assert_eq!(m.update_users(vec![]), (0, 0));
    assert_eq!(m.user_count(), 0);
    assert_eq!(m.get_user_by_id(1), None);
}

#[test]
fn lookup_trimmed_tries_the_lowercase_form_second() {
    let mut m = UserManager::new();
    m.update_users(vec![UserInfo { id: 1, uuid: "abc".to_string(), speed_limit: 0 }]);
    assert_eq!(m.lookup_trimmed("ABC", "abc").map(|u| u.id), Some(1));
    assert_eq!(m.lookup_trimmed("abc", "zzz").map(|u| u.id), Some(1));
    assert_eq!(m.lookup_trimmed("ABC", "ABC"), None);
    assert_eq!(m.lookup_trimmed("x", "y"), None);
}

#[test]
fn record_user_reports_whether_the_whitelist_changed() {
    let mut m = UserManager::new();
    let u = UserInfo { id: 3, uuid: "k".to_string(), speed_limit: 7 };
    assert!(m.record_user("k".to_string(), &u));
    assert!(!m.record_user("k".to_string(), &u));
    let v = UserInfo { id: 3, uuid: "k".to_string(), speed_limit: 8 };
    assert!(m.record_user("k".to_string(), &v));
    assert_eq!(m.get_user_by_id(3).map(|x| x.speed_limit), Some(8));
    assert_eq!(m.user_count(), 1);
}
