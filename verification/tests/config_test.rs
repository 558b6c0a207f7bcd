use hyboard_bridge::config::{Config, ConfigError, EnvValues};

#[test]
fn test_parse_hysteria_api_variants() {
    // Plain host
    let (auth, traffic) = Config::parse_hysteria_api("127.0.0.1").unwrap();
    assert_eq!(auth, "0.0.0.0:9999");
    assert_eq!(traffic, "http://127.0.0.1:7654/traffic");

    // Docker hostname
    let (auth, traffic) = Config::parse_hysteria_api("hysteria").unwrap();
    assert_eq!(auth, "0.0.0.0:9999");
    assert_eq!(traffic, "http://hysteria:7654/traffic");

    // Full URL
    let (auth, traffic) = Config::parse_hysteria_api("http://127.0.0.1:7654").unwrap();
    assert_eq!(auth, "0.0.0.0:9999");
    assert_eq!(traffic, "http://127.0.0.1:7654/traffic");

    let (auth, traffic) = Config::parse_hysteria_api("http://hysteria:7654/traffic").unwrap();
    assert_eq!(auth, "0.0.0.0:9999");
    assert_eq!(traffic, "http://hysteria:7654/traffic");

    // Explicit @ combined format
    let (auth, traffic) =
        Config::parse_hysteria_api("127.0.0.1:8888@http://127.0.0.1:7777/traffic").unwrap();
    assert_eq!(auth, "127.0.0.1:8888");
    assert_eq!(traffic, "http://127.0.0.1:7777/traffic");

    // Port pair
    let (auth, traffic) = Config::parse_hysteria_api("9999:7654").unwrap();
    assert_eq!(auth, "0.0.0.0:9999");
    assert_eq!(traffic, "http://127.0.0.1:7654/traffic");
}

#[test]
fn parse_hysteria_api_rejects_blank_input() {
    assert_eq!(Config::parse_hysteria_api(""), Err(ConfigError::EmptyHysteriaApi));
    assert_eq!(Config::parse_hysteria_api(" \t\n "), Err(ConfigError::EmptyHysteriaApi));
}

#[test]
fn parse_hysteria_api_host_port_and_trimming() {
    let (auth, traffic) = Config::parse_hysteria_api("  hysteria:7654/  ").unwrap();
    assert_eq!(auth, "0.0.0.0:9999");
    assert_eq!(traffic, "http://hysteria:7654/traffic");

    // A bare auth port gets the wildcard address; the traffic part gets a scheme and path.
    let (auth, traffic) = Config::parse_hysteria_api("8888@hysteria:7654/").unwrap();
    assert_eq!(auth, "0.0.0.0:8888");
    assert_eq!(traffic, "http://hysteria:7654/traffic");

    // https is kept.
    let (auth, traffic) = Config::parse_hysteria_api("https://core.example:443").unwrap();
    assert_eq!(auth, "0.0.0.0:9999");
    assert_eq!(traffic, "https://core.example:443/traffic");

    // Three parts are not a port pair: host:port format.
    let (auth, traffic) = Config::parse_hysteria_api("1:2:3").unwrap();
    assert_eq!(auth, "0.0.0.0:9999");
    assert_eq!(traffic, "http://1:2:3/traffic");
}

#[test]
fn parse_hysteria_api_canonical_form_is_a_fixed_point() {
    for input in ["127.0.0.1", "hysteria", "9999:7654", "http://h:1", "a:1@b:2"] {
        let (auth, traffic) = Config::parse_hysteria_api(input).unwrap();
        let joined = format!("{}@{}", auth, traffic);
        assert_eq!(Config::parse_hysteria_api(&joined).unwrap(), (auth, traffic));
    }
}

fn env() -> EnvValues {
    EnvValues {
        api_host: Some("https://panel.example.com//".to_string()),
        api_key: Some("secret".to_string()),
        token: None,
        node_id: Some("7".to_string()),
        node_type: None,
        sync_interval: None,
        push_interval: Some("not-a-number".to_string()),
        hysteria_api: Some("127.0.0.1".to_string()),
        hysteria_addr: None,
        auth_listen_addr: None,
        hysteria_traffic_url: None,
    }
}

#[test]
fn from_env_values_defaults_and_normalization() {
    let c = Config::from_env_values(&env()).unwrap();
    assert_eq!(c.api_host, "https://panel.example.com");
    assert_eq!(c.api_key, "secret");
    assert_eq!(c.node_id, 7);
    assert_eq!(c.node_type, "hysteria");
    assert_eq!(c.sync_interval_secs, 15);
    assert_eq!(c.push_interval_secs, 60);
    assert_eq!(c.auth_listen_addr, "0.0.0.0:9999");
    assert_eq!(c.hysteria_traffic_url, "http://127.0.0.1:7654/traffic");
}

#[test]
fn from_env_values_fallbacks() {
    let mut e = env();
    e.api_key = None;
    e.token = Some("tok".to_string());
    e.hysteria_api = None;
    e.auth_listen_addr = Some("0.0.0.0:8000".to_string());
    e.hysteria_traffic_url = Some("http://core:7654/traffic".to_string());
    e.sync_interval = Some("+30".to_string());
    let c = Config::from_env_values(&e).unwrap();
    assert_eq!(c.api_key, "tok");
    assert_eq!(c.sync_interval_secs, 30);
    assert_eq!(c.auth_listen_addr, "0.0.0.0:8000");
    assert_eq!(c.hysteria_traffic_url, "http://core:7654/traffic");

    let mut e = env();
    e.hysteria_api = None;
    e.hysteria_traffic_url = Some("core:7654".to_string());
    let c = Config::from_env_values(&e).unwrap();
    assert_eq!(c.auth_listen_addr, "0.0.0.0:9999");
    assert_eq!(c.hysteria_traffic_url, "http://core:7654/traffic");
}

#[test]
fn from_env_values_errors() {
    let mut e = env();
    e.api_host = None;
    assert_eq!(Config::from_env_values(&e).unwrap_err(), ConfigError::MissingApiHost);

    let mut e = env();
    e.api_key = None;
    assert_eq!(Config::from_env_values(&e).unwrap_err(), ConfigError::MissingApiKey);

    let mut e = env();
    e.node_id = None;
    assert_eq!(Config::from_env_values(&e).unwrap_err(), ConfigError::MissingNodeId);

    let mut e = env();
    e.node_id = Some("4294967296".to_string());
    assert_eq!(Config::from_env_values(&e).unwrap_err(), ConfigError::InvalidNodeId);

    let mut e = env();
    e.hysteria_api = None;
    e.auth_listen_addr = Some("0.0.0.0:1".to_string());
    assert_eq!(Config::from_env_values(&e).unwrap_err(), ConfigError::MissingHysteriaApi);

    let mut e = env();
    e.hysteria_api = Some("   ".to_string());
    assert_eq!(Config::from_env_values(&e).unwrap_err(), ConfigError::EmptyHysteriaApi);
}

#[test]
fn node_config_from_config() {
    let c = Config::from_env_values(&env()).unwrap();
    let n = c.node_config();
    assert_eq!(n.tag, None);
    assert_eq!(n.node_id, 7);
    assert_eq!(n.hysteria_base_url, "http://127.0.0.1:7654");
    assert_eq!(n.hysteria_traffic_url, "http://127.0.0.1:7654/traffic");
}
