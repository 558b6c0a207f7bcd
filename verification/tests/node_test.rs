use hyboard_bridge::auth::{authenticate_and_respond, AuthRequest};
use hyboard_bridge::config::{Config, EnvValues, NodeConfig};
use hyboard_bridge::node::{NodeRegistry};
use hyboard_bridge::strmap::StrMap;
use hyboard_bridge::sync::{NestedUserData, PanelClient, UserApiResponse};
use hyboard_bridge::traffic::TrafficRecord;
use hyboard_bridge::user::UserInfo;

fn node_config(tag: Option<&str>, host: &str, key: &str, id: u32, port: u16) -> NodeConfig {
    NodeConfig {
        tag: tag.map(|t| t.to_string()),
        api_host: host.to_string(),
        api_key: key.to_string(),
        node_id: id,
        node_type: "hysteria".to_string(),
        sync_interval_secs: 15,
        push_interval_secs: 60,
        hysteria_base_url: format!("http://127.0.0.1:{}", port),
        hysteria_traffic_url: format!("http://127.0.0.1:{}/traffic", port),
    }
}

fn request(auth: &str) -> AuthRequest {
    AuthRequest { addr: None, auth: auth.to_string(), tx: None }
}

fn user(id: u32, uuid: &str) -> UserInfo {
    UserInfo { id, uuid: uuid.to_string(), speed_limit: 0 }
}

#[test]
fn test_multi_node_auth_routing() {
    let configs = vec![
        node_config(Some("hk_1"), "https://panel-a.com", "key1", 1, 7654),
        node_config(Some("us_2"), "https://panel-b.com", "key2", 2, 7655),
    ];
    let mut registry = NodeRegistry::from_node_configs(&configs);

    // Add user to node 1
    registry.apply_node_user_sync(0, Some(vec![user(10, "user-hk-uuid")]));
    // Add user to node 2
    registry.apply_node_user_sync(1, Some(vec![user(20, "user-us-uuid")]));

    // 1. Targeted auth to hk_1
    let body = authenticate_and_respond(&registry, Some("hk_1"), request("user-hk-uuid"));
    assert!(body.ok);

    // 2. Targeted auth to hk_1 with the user from US (should fail)
    let body_fail = authenticate_and_respond(&registry, Some("hk_1"), request("user-us-uuid"));
    assert!(!body_fail.ok);

    // 3. Universal auth (should find both)
    let body_univ = authenticate_and_respond(&registry, None, request("user-us-uuid"));
    assert!(body_univ.ok);
}

#[test]
fn auth_response_shapes() {
    let mut registry = NodeRegistry::from_node_configs(&vec![node_config(None, "h", "k", 3, 1)]);
    registry.apply_node_user_sync(0, Some(vec![user(1, "U-1")]));
    let ok = authenticate_and_respond(&registry, None, request("  u-1 "));
    assert_eq!((ok.ok, ok.id.as_deref(), ok.msg.as_deref()), (true, Some("U-1"), None));
    let no = authenticate_and_respond(&registry, None, request("other"));
    assert_eq!(
        (no.ok, no.id.as_deref(), no.msg.as_deref()),
        (false, None, Some("user not found or expired"))
    );
}

#[test]
fn node_key_by_tag_id_or_fallback() {
    let configs = vec![
        node_config(None, "h", "k", 1, 7654),
        node_config(Some("b"), "h", "k", 2, 7654),
    ];
    let mut registry = NodeRegistry::from_node_configs(&configs);
    assert_eq!(registry.all_nodes()[0].tag, "node_1");
    registry.apply_node_user_sync(0, Some(vec![user(1, "one")]));
    registry.apply_node_user_sync(1, Some(vec![user(2, "two")]));
    // By generated tag and by node ID.
    assert!(registry.authenticate(Some(" node_1 "), "one").is_some());
    assert!(registry.authenticate(Some("2"), "one").is_none());
    assert!(registry.authenticate(Some("2"), "two").is_some());
    // Unknown key: search all nodes.
    assert_eq!(registry.authenticate(Some("nope"), "two").map(|u| u.id), Some(2));
    assert_eq!(registry.authenticate(None, "three"), None);
}

#[test]
fn hubs_group_nodes_by_traffic_url() {
    let configs = vec![
        node_config(Some("a"), "h", "k", 1, 7654),
        node_config(Some("b"), "h", "k", 2, 7655),
        node_config(Some("c"), "h", "k", 3, 7654),
    ];
    let registry = NodeRegistry::from_node_configs(&configs);
    assert_eq!(registry.node_count(), 3);
    let hubs = registry.all_hubs();
    assert_eq!(hubs.len(), 2);
    let mut groups: Vec<(String, Vec<usize>)> =
        hubs.iter().map(|h| (h.traffic_url().clone(), h.nodes().clone())).collect();
    groups.sort();
    assert_eq!(
        groups,
        vec![
            ("http://127.0.0.1:7654/traffic".to_string(), vec![0, 2]),
            ("http://127.0.0.1:7655/traffic".to_string(), vec![1]),
        ]
    );
}

#[test]
fn hub_routes_traffic_to_the_owning_node() {
    let configs = vec![
        node_config(Some("a"), "h", "k", 1, 7654),
        node_config(Some("b"), "h", "k", 2, 7654),
    ];
    let mut registry = NodeRegistry::from_node_configs(&configs);
    registry.apply_node_user_sync(0, Some(vec![user(10, "alice")]));
    registry.apply_node_user_sync(1, Some(vec![user(20, "bob")]));
    let mut report = StrMap::new();
    report.insert("alice".to_string(), TrafficRecord { tx: 100, rx: 10 });
    report.insert("bob".to_string(), TrafficRecord { tx: 200, rx: 20 });
    report.insert("carol".to_string(), TrafficRecord { tx: 300, rx: 30 });
    assert_eq!(registry.dispatch_hub_stats(0, report), 2);
    let a = registry.all_nodes()[0].traffic_collector.get_pending_payload();
    let b = registry.all_nodes()[1].traffic_collector.get_pending_payload();
    assert_eq!(a.len(), 1);
    assert_eq!(a.get("10"), Some(&[10, 100]));
    assert_eq!(b.get("20"), Some(&[20, 200]));

    // Unchanged counters are not routed again.
    let mut again = StrMap::new();
    again.insert("alice".to_string(), TrafficRecord { tx: 100, rx: 10 });
    assert_eq!(registry.dispatch_hub_stats(0, again), 0);
}

#[test]
fn health_report_lists_nodes() {
    let mut registry = NodeRegistry::from_node_configs(&vec![node_config(Some("x"), "https://p", "k", 4, 7654)]);
    registry.apply_node_user_sync(0, Some(vec![user(1, "a"), user(2, "b")]));
    let r = registry.health_report();
    assert_eq!(r.status, "healthy");
    assert_eq!(r.service, "hyboard-bridge");
    assert_eq!(r.nodes_count, 1);
    assert_eq!(r.nodes[0].tag, "x");
    assert_eq!(r.nodes[0].node_id, 4);
    assert_eq!(r.nodes[0].api_host, "https://p");
    assert_eq!(r.nodes[0].active_users, 2);
    assert_eq!(r.nodes[0].traffic_url, "http://127.0.0.1:7654/traffic");
}

#[test]
fn panel_urls() {
    let c = PanelClient::from_parts("https://panel.example.com", "tok", 12, "hysteria");
    assert_eq!(
        c.user_list_url(),
        "https://panel.example.com/api/v1/server/UniProxy/user?node_id=12&node_type=hysteria&token=tok"
    );
    assert_eq!(
        c.push_url(),
        "https://panel.example.com/api/v1/server/UniProxy/push?node_id=12&node_type=hysteria&token=tok"
    );
}

#[test]
fn user_api_response_shapes() {
    let u = || vec![user(1, "a")];
    assert_eq!(UserApiResponse::DataArray { data: u() }.into_users(), u());
    assert_eq!(UserApiResponse::UsersArray { users: u() }.into_users(), u());
    assert_eq!(UserApiResponse::NestedData { data: NestedUserData { users: u() } }.into_users(), u());
    assert_eq!(UserApiResponse::DirectArray(u()).into_users(), u());
}

#[test]
fn failed_user_sync_keeps_the_whitelist() {
    let mut registry = NodeRegistry::from_node_configs(&vec![node_config(None, "h", "k", 1, 7654)]);
    assert_eq!(registry.apply_node_user_sync(0, Some(vec![user(1, "a"), user(2, "b")])), Some((2, 2)));
    assert_eq!(registry.apply_node_user_sync(0, None), None);
    let node = &registry.all_nodes()[0];
    assert!(node.authenticate("a").is_some());
    assert_eq!(node.traffic_collector.user_manager().user_count(), 2);
}

#[test]
fn registry_from_single_config() {
    let env = EnvValues {
        api_host: Some("https://panel".to_string()),
        api_key: Some("k".to_string()),
        token: None,
        node_id: Some("3".to_string()),
        node_type: None,
        sync_interval: None,
        push_interval: None,
        hysteria_api: Some("9999:7654".to_string()),
        hysteria_addr: None,
        auth_listen_addr: None,
        hysteria_traffic_url: None,
    };
    let config = Config::from_env_values(&env).unwrap();
    let registry = NodeRegistry::from_config(&config);
    assert_eq!(registry.node_count(), 1);
    let node = &registry.all_nodes()[0];
    assert_eq!(node.tag, "node_3");
    assert_eq!(node.hysteria_base_url, "http://127.0.0.1:7654");
    assert_eq!(registry.all_hubs().len(), 1);
    assert_eq!(PanelClient::new(&config).push_url(), node.panel_client.push_url());
}

#[test]
fn universal_auth_answers_with_the_first_node_that_knows_the_token() {
    let configs = vec![
        node_config(Some("a"), "h", "k", 1, 7654),
        node_config(Some("b"), "h", "k", 2, 7655),
        node_config(Some("c"), "h", "k", 3, 7656),
    ];
    let mut registry = NodeRegistry::from_node_configs(&configs);
    registry.apply_node_user_sync(1, Some(vec![user(21, "shared")]));
    registry.apply_node_user_sync(2, Some(vec![user(31, "shared"), user(32, "only-c")]));
    assert_eq!(registry.authenticate(None, "shared").map(|u| u.id), Some(21));
    assert_eq!(registry.authenticate(None, "only-c").map(|u| u.id), Some(32));
    // Targeted at "c": only node c answers, whatever node b holds.
    assert_eq!(registry.authenticate(Some("c"), "shared").map(|u| u.id), Some(31));
    assert_eq!(registry.authenticate(Some("a"), "shared"), None);
}

#[test]
fn hub_routes_only_the_increment_of_each_user() {
    let mut registry = NodeRegistry::from_node_configs(&vec![node_config(Some("n"), "h", "k", 1, 7654)]);
    registry.apply_node_user_sync(0, Some(vec![user(1, "a"), user(2, "b")]));
    let mut first = StrMap::new();
    first.insert("a".to_string(), TrafficRecord { tx: 100, rx: 0 });
    first.insert("b".to_string(), TrafficRecord { tx: 200, rx: 0 });
    assert_eq!(registry.dispatch_hub_stats(0, first), 2);
    let mut second = StrMap::new();
    second.insert("a".to_string(), TrafficRecord { tx: 150, rx: 0 });
    second.insert("b".to_string(), TrafficRecord { tx: 200, rx: 0 });
    assert_eq!(registry.dispatch_hub_stats(0, second), 1);
    let p = registry.all_nodes()[0].traffic_collector.get_pending_payload();
    assert_eq!(p.len(), 2);
    assert_eq!(p.get("1"), Some(&[0, 150]));
    assert_eq!(p.get("2"), Some(&[0, 200]));
    // A core restart: the counter went down, its new value is the increment.
    let mut third = StrMap::new();
    third.insert("a".to_string(), TrafficRecord { tx: 40, rx: 5 });
    assert_eq!(registry.dispatch_hub_stats(0, third), 1);
    let p = registry.all_nodes()[0].traffic_collector.get_pending_payload();
    assert_eq!(p.get("1"), Some(&[5, 190]));
}

#[test]
fn node_operations_leave_other_nodes_alone() {
    let configs = vec![
        node_config(Some("a"), "h", "k", 1, 7654),
        node_config(Some("b"), "h", "k", 2, 7655),
    ];
    let mut registry = NodeRegistry::from_node_configs(&configs);
    registry.apply_node_user_sync(0, Some(vec![user(1, "x")]));
    let mut report = StrMap::new();
    report.insert("x".to_string(), TrafficRecord { tx: 9, rx: 4 });
    assert_eq!(registry.process_node_stats(0, report), 1);
    assert_eq!(registry.process_node_stats(1, StrMap::new()), 0);
    let p = registry.all_nodes()[0].traffic_collector.get_pending_payload();
    assert_eq!(p.get("1"), Some(&[4, 9]));
    registry.settle_node_push(0, &p, false);
    assert_eq!(registry.all_nodes()[0].traffic_collector.get_pending_payload().get("1"), Some(&[4, 9]));
    registry.settle_node_push(0, &p, true);
    assert!(registry.all_nodes()[0].traffic_collector.get_pending_payload().is_empty());
    assert!(registry.all_nodes()[1].traffic_collector.get_pending_payload().is_empty());
    assert_eq!(registry.authenticate(Some("b"), "x"), None);
    assert_eq!(registry.authenticate(Some("1"), "x").map(|u| u.id), Some(1));
}
