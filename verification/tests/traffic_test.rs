use hyboard_bridge::strmap::StrMap;
use hyboard_bridge::traffic::{TrafficCollector, TrafficRecord};
use hyboard_bridge::user::{UserInfo, UserManager};

#[test]
fn test_traffic_delta_and_commit() {
    let mut user_manager = UserManager::new();
    user_manager.update_users(vec![
        UserInfo {
            id: 101,
            uuid: "user-uuid-1".to_string(),
            speed_limit: 0,
        },
        UserInfo {
            id: 102,
            uuid: "user-uuid-2".to_string(),
            speed_limit: 0,
        },
    ]);

    let mut collector =
        TrafficCollector::new("http://127.0.0.1:7654/traffic".to_string(), user_manager);

    // 1. First collection tick
    let mut tick1 = StrMap::new();
    tick1.insert("user-uuid-1".to_string(), TrafficRecord { tx: 1000, rx: 500 });
    tick1.insert("user-uuid-2".to_string(), TrafficRecord { tx: 2000, rx: 800 });

    let active = collector.process_raw_stats(tick1);
    assert_eq!(active, 2);

    let payload1 = collector.get_pending_payload();
    // In Hysteria: tx = download, rx = upload. UniProxy expects [upload, download]
    assert_eq!(payload1.get("101"), Some(&[500, 1000]));
    assert_eq!(payload1.get("102"), Some(&[800, 2000]));

    // Commit push
    collector.commit_pushed_payload(&payload1);
    assert_eq!(collector.get_pending_payload().len(), 0);

    // 2. Second collection tick (incremental)
    let mut tick2 = StrMap::new();
    tick2.insert("user-uuid-1".to_string(), TrafficRecord { tx: 1200, rx: 600 }); // +200 tx, +100 rx
    tick2.insert("user-uuid-2".to_string(), TrafficRecord { tx: 2000, rx: 800 }); // unchanged

    let active2 = collector.process_raw_stats(tick2);
    assert_eq!(active2, 1);

    let payload2 = collector.get_pending_payload();
    assert_eq!(payload2.get("101"), Some(&[100, 200]));
    assert_eq!(payload2.get("102"), None);

    // 3. Test Hysteria core restart (counters reset to lower values)
    let mut tick_restart = StrMap::new();
    tick_restart.insert("user-uuid-1".to_string(), TrafficRecord { tx: 50, rx: 30 });

    collector.process_raw_stats(tick_restart);
    let payload3 = collector.get_pending_payload();
    // Uncommitted from tick2 (100, 200) + new tick (30, 50) = (130, 250)
    assert_eq!(payload3.get("101"), Some(&[130, 250]));
}

fn collector_with(users: Vec<UserInfo>) -> TrafficCollector {
    let mut m = UserManager::new();
    m.update_users(users);
    TrafficCollector::new("http://core/traffic".to_string(), m)
}

fn stats(entries: &[(&str, u64, u64)]) -> StrMap<TrafficRecord> {
    let mut s = StrMap::new();
    for &(k, tx, rx) in entries {
        s.insert(k.to_string(), TrafficRecord { tx, rx });
    }
    s
}

#[test]
fn numeric_keys_are_user_ids_and_unknown_keys_are_skipped() {
    let mut c = collector_with(vec![UserInfo { id: 9, uuid: "nine".to_string(), speed_limit: 0 }]);
    let n = c.process_raw_stats(stats(&[("42", 10, 20), ("stranger", 5, 5), ("NINE", 1, 2)]));
    assert_eq!(n, 2);
    let p = c.get_pending_payload();
    assert_eq!(p.len(), 2);
    assert_eq!(p.get("42"), Some(&[20, 10]));
    assert_eq!(p.get("9"), Some(&[2, 1]));
}

#[test]
fn traffic_pushed_meanwhile_is_kept() {
    let mut c = collector_with(vec![UserInfo { id: 1, uuid: "u".to_string(), speed_limit: 0 }]);
    c.process_raw_stats(stats(&[("u", 100, 10)]));
    let taken = c.get_pending_payload();
    // More traffic arrives while the push is in flight.
    c.process_raw_stats(stats(&[("u", 150, 12)]));
    c.commit_pushed_payload(&taken);
    let left = c.get_pending_payload();
    assert_eq!(left.len(), 1);
    assert_eq!(left.get("1"), Some(&[2, 50]));
    assert_eq!(c.total_pending_bytes(), (2, 50));
}

#[test]
fn failed_push_keeps_everything() {
    let mut c = collector_with(vec![]);
    c.process_raw_stats(stats(&[("3", 7, 8)]));
    let p = c.get_pending_payload();
    c.settle_push(&p, false);
    assert_eq!(c.get_pending_payload().get("3"), Some(&[8, 7]));
    c.settle_push(&p, true);
    assert!(c.get_pending_payload().is_empty());
}

#[test]
fn accumulation_saturates() {
    let mut c = collector_with(vec![]);
    c.process_raw_stats(stats(&[("1", u64::MAX, 0)]));
    // Counter restart: the new value is the increment.
    c.process_raw_stats(stats(&[("1", 5, 0)]));
    assert_eq!(c.get_pending_payload().get("1"), Some(&[0, u64::MAX]));
    assert_eq!(c.total_pending_bytes(), (0, u64::MAX));
}

#[test]
fn total_pending_bytes_sums_all_users() {
    let mut c = collector_with(vec![]);
    c.process_raw_stats(stats(&[("1", 10, 1), ("2", 20, 2), ("3", 30, 3)]));
    assert_eq!(c.total_pending_bytes(), (6, 60));
}

#[test]
fn commit_ignores_unknown_and_malformed_keys() {
    let mut c = collector_with(vec![]);
    c.process_raw_stats(stats(&[("5", 10, 10)]));
    let mut pushed: StrMap<[u64; 2]> = StrMap::new();
    pushed.insert("x".to_string(), [1, 1]);
    pushed.insert("6".to_string(), [1, 1]);
    pushed.insert("+5".to_string(), [4, 3]);
    c.commit_pushed_payload(&pushed);
    assert_eq!(c.get_pending_payload().get("5"), Some(&[6, 7]));
    // Over-acknowledging saturates at zero and drops the user.
    pushed.insert("5".to_string(), [100, 100]);
    c.commit_pushed_payload(&pushed);
    assert!(c.get_pending_payload().is_empty());
}

#[test]
fn repeated_report_adds_nothing() {
    let mut c = collector_with(vec![UserInfo { id: 4, uuid: "four".to_string(), speed_limit: 0 }]);
    assert_eq!(c.process_raw_stats(stats(&[("four", 10, 20), ("5", 1, 1)])), 2);
    let before = c.total_pending_bytes();
    assert_eq!(c.process_raw_stats(stats(&[("four", 10, 20), ("5", 1, 1)])), 0);
    assert_eq!(c.total_pending_bytes(), before);
}

#[test]
fn add_increment_credits_the_user_and_skips_zero() {
    let mut c = collector_with(vec![]);
    c.add_increment(7, 0, 0);
    assert!(c.get_pending_payload().is_empty());
    c.add_increment(7, 3, 4);
    c.add_increment(7, 1, 0);
    assert_eq!(c.get_pending_payload().get("7"), Some(&[4, 4]));
    c.add_increment(7, u64::MAX, 1);
    assert_eq!(c.get_pending_payload().get("7"), Some(&[u64::MAX, 5]));
}

#[test]
fn a_run_of_ticks_loses_and_repeats_nothing() {
    let mut c = collector_with(vec![]);
    let mut acked = [0u64, 0u64];
    let ticks: [(u64, u64, bool); 4] = [(10, 100, false), (25, 130, true), (25, 130, false), (40, 10, true)];
    for &(tx, rx, ok) in ticks.iter() {
        c.process_raw_stats(stats(&[("9", tx, rx)]));
        let p = c.get_pending_payload();
        if ok {
            if let Some(v) = p.get("9") {
                acked[0] += v[0];
                acked[1] += v[1];
            }
        }
        c.settle_push(&p, ok);
    }
    // Uploads (rx): 100, +30, +0, restart 10 = 140. Downloads (tx): 10, +15, +0, +15 = 40.
    assert_eq!(acked, [140, 40]);
    assert!(c.get_pending_payload().is_empty());
    assert_eq!(c.flush_payload().is_none(), true);
    c.process_raw_stats(stats(&[("9", 41, 10)]));
    assert_eq!(c.flush_payload().map(|p| p.get("9").copied()), Some(Some([0, 1])));
}

#[test]
fn commit_subtracts_each_named_user_once() {
    let mut c = collector_with(vec![]);
    c.process_raw_stats(stats(&[("5", 10, 20), ("6", 3, 3), ("7", 1, 1)]));
    let mut pushed = StrMap::new();
    pushed.insert("+5".to_string(), [5u64, 4u64]);
    pushed.insert("6".to_string(), [9u64, 9u64]);
    pushed.insert("x".to_string(), [1u64, 1u64]);
    c.commit_pushed_payload(&pushed);
    let p = c.get_pending_payload();
    assert_eq!(p.get("5"), Some(&[15, 6]));
    assert_eq!(p.get("6"), None);
    assert_eq!(p.get("7"), Some(&[1, 1]));
    assert_eq!(p.len(), 2);
}
