//! Configuration: the unified `HYSTERIA_API` parameter and the values read
//! from the environment.
use crate::text::{
    all_ascii_digits, all_ascii_digits_chars, lemma_ends_with_append, lemma_trim_keeps, lemma_trim_within, lemma_trim_of_trimmed, is_trimmed, is_ascii_digit, lemma_find_char, chars_of, concat, ends_with, ends_with_chars,
    find_char, find_char_index, lemma_find_char_found, lemma_trim_is_trimmed,
    parse_u32_chars, parse_u32_spec, parse_u64_chars, parse_u64_spec, slice_chars, starts_with,
    starts_with_chars, string_of, strip_trailing, strip_trailing_chars, trim, trim_chars,
};
use vstd::prelude::*;

verus! {

/// Why a configuration could not be built.
#[derive(Debug, Clone, Copy, PartialEq, Eq, Structural)]
pub enum ConfigError {
    /// `API_HOST` is not set.
    MissingApiHost,
    /// Neither `API_KEY` nor `TOKEN` is set.
    MissingApiKey,
    /// `NODE_ID` is not set.
    MissingNodeId,
    /// `NODE_ID` is not a `u32`.
    InvalidNodeId,
    /// No Hysteria API parameter is set.
    MissingHysteriaApi,
    /// The Hysteria API parameter is empty (or only whitespace).
    EmptyHysteriaApi,
}

/// Application configuration for one node.
#[derive(Debug, Clone)]
pub struct Config {
    /// Panel API host, without trailing `/`.
    pub api_host: String,
    /// UniProxy communication key / token.
    pub api_key: String,
    /// Node ID registered in the panel.
    pub node_id: u32,
    /// Node type, `hysteria` by default.
    pub node_type: String,
    /// Interval in seconds between user whitelist pulls.
    pub sync_interval_secs: u64,
    /// Interval in seconds between traffic pushes.
    pub push_interval_secs: u64,
    /// Address of the authentication webhook server (e.g. `0.0.0.0:9999`).
    pub auth_listen_addr: String,
    /// URL of the Hysteria 2 traffic statistics API.
    pub hysteria_traffic_url: String,
}

/// Settings of one node of a multi-node deployment.
#[derive(Debug, Clone)]
pub struct NodeConfig {
    /// Name of the node; `node_<id>` where absent.
    pub tag: Option<String>,
    pub api_host: String,
    pub api_key: String,
    pub node_id: u32,
    pub node_type: String,
    pub sync_interval_secs: u64,
    pub push_interval_secs: u64,
    /// Base URL of the Hysteria 2 API.
    pub hysteria_base_url: String,
    /// URL of the Hysteria 2 traffic statistics API.
    pub hysteria_traffic_url: String,
}

/// The environment variables that the configuration is read from (`None`
/// where a variable is not set).
#[derive(Debug, Clone)]
pub struct EnvValues {
    pub api_host: Option<String>,
    pub api_key: Option<String>,
    pub token: Option<String>,
    pub node_id: Option<String>,
    pub node_type: Option<String>,
    pub sync_interval: Option<String>,
    pub push_interval: Option<String>,
    pub hysteria_api: Option<String>,
    pub hysteria_addr: Option<String>,
    pub auth_listen_addr: Option<String>,
    pub hysteria_traffic_url: Option<String>,
}

// ---------------------------------------------------------------------------
// The unified HYSTERIA_API parameter
// ---------------------------------------------------------------------------

/// The default authentication listen address.
pub open spec fn default_auth_addr() -> Seq<char> {
    "0.0.0.0:9999"@
}

/// Prefixes `http://` unless the URL already names `http` or `https`.
pub open spec fn with_scheme(t: Seq<char>) -> Seq<char> {
    if starts_with(t, "http://"@) || starts_with(t, "https://"@) {
        t
    } else {
        "http://"@ + t
    }
}

/// Makes the URL end with `/traffic`, dropping trailing slashes before
/// appending it.
pub open spec fn with_traffic_path(t: Seq<char>) -> Seq<char> {
    if ends_with(t, "/traffic"@) {
        t
    } else {
        strip_trailing(t, '/') + "/traffic"@
    }
}

/// `"<auth>@<traffic>"`: both parts, if `t` holds an `@`.
pub open spec fn split_at_sign(t: Seq<char>) -> Option<(Seq<char>, Seq<char>)> {
    match find_char(t, '@') {
        Some(i) => Some((t.take(i), t.skip(i + 1))),
        None => None,
    }
}

/// `"<auth_port>:<traffic_port>"`: both ports, if `t` is two runs of ASCII
/// digits (possibly empty) around a single `:`.
pub open spec fn port_pair(t: Seq<char>) -> Option<(Seq<char>, Seq<char>)> {
    match find_char(t, ':') {
        Some(c) => if find_char(t.skip(c + 1), ':') is None && all_ascii_digits(t.take(c))
            && all_ascii_digits(t.skip(c + 1)) {
            Some((t.take(c), t.skip(c + 1)))
        } else {
            None
        },
        None => None,
    }
}

/// What the unified `HYSTERIA_API` parameter denotes:
/// `(auth_listen_addr, hysteria_traffic_url)`, or `None` where it is blank.
///
/// - `"auth@traffic"`: the auth address (`0.0.0.0:` before a bare port) and
///   the traffic URL (with `http://` and `/traffic` added where missing);
/// - `"9999:7654"`: the two ports, the traffic API on `127.0.0.1`;
/// - `"http://host:7654"`: the URL, with `/traffic` added where missing;
/// - `"host:7654"`: `http://host:7654/traffic`;
/// - `"host"`: `http://host:7654/traffic`;
///
/// the auth address being `0.0.0.0:9999` in the last three.
pub open spec fn hysteria_endpoints(input: Seq<char>) -> Option<(Seq<char>, Seq<char>)> {
    let t = trim(input);
    if t.len() == 0 {
        None
    } else if split_at_sign(t) is Some {
        let (auth_part, traffic_part) = split_at_sign(t)->0;
        let auth = if find_char(auth_part, ':') is Some {
            trim(auth_part)
        } else {
            "0.0.0.0:"@ + trim(auth_part)
        };
        Some((auth, with_traffic_path(with_scheme(trim(traffic_part)))))
    } else if port_pair(t) is Some {
        let (auth_port, traffic_port) = port_pair(t)->0;
        Some(("0.0.0.0:"@ + auth_port, "http://127.0.0.1:"@ + traffic_port + "/traffic"@))
    } else if starts_with(t, "http://"@) || starts_with(t, "https://"@) {
        Some((default_auth_addr(), with_traffic_path(t)))
    } else if find_char(t, ':') is Some {
        Some((default_auth_addr(), "http://"@ + strip_trailing(t, '/') + "/traffic"@))
    } else {
        Some((default_auth_addr(), "http://"@ + t + ":7654/traffic"@))
    }
}

/// `url + "/traffic"` when needed (see `with_traffic_path`).
fn append_traffic_path(t: &Vec<char>) -> (out: Vec<char>)
    ensures
        out@ == with_traffic_path(t@),
{
    let suffix = chars_of("/traffic");
    if ends_with_chars(t, &suffix) {
        slice_chars(t, 0, t.len())
    } else {
        let base = strip_trailing_chars(t, '/');
        concat(&base, &suffix)
    }
}

fn starts_with_http_scheme(t: &Vec<char>) -> (b: bool)
    ensures
        b == (starts_with(t@, "http://"@) || starts_with(t@, "https://"@)),
{
    let http = chars_of("http://");
    let https = chars_of("https://");
    starts_with_chars(t, &http) || starts_with_chars(t, &https)
}

impl Config {
    /// Parses the unified `HYSTERIA_API` parameter into
    /// `(auth_listen_addr, hysteria_traffic_url)`.
    ///
    /// Supported formats:
    /// - `"127.0.0.1"` or `"hysteria"` -> `("0.0.0.0:9999", "http://<host>:7654/traffic")`
    /// - `"http://127.0.0.1:7654"` -> `("0.0.0.0:9999", "http://127.0.0.1:7654/traffic")`
    /// - `"0.0.0.0:9999@http://127.0.0.1:7654/traffic"` -> `("0.0.0.0:9999", "http://127.0.0.1:7654/traffic")`
    /// - `"9999:7654"` -> `("0.0.0.0:9999", "http://127.0.0.1:7654/traffic")`
    pub fn parse_hysteria_api(input: &str) -> (r: Result<(String, String), ConfigError>)
        ensures
            match r {
                Ok((auth, traffic)) => hysteria_endpoints(input@) == Some((auth@, traffic@)),
                Err(e) => hysteria_endpoints(input@) is None && e == ConfigError::EmptyHysteriaApi,
            },
    {
        let raw = chars_of(input);
        let t = trim_chars(&raw);
        if t.len() == 0 {
            return Err(ConfigError::EmptyHysteriaApi);
        }
        let http = chars_of("http://");
        let traffic_suffix = chars_of("/traffic");
        let any_addr = chars_of("0.0.0.0:");
        let default_auth = chars_of("0.0.0.0:9999");
        proof {
            lemma_find_char_found(t@, '@');
            lemma_find_char_found(t@, ':');
        }
        // 1. Explicit combined format: "auth_addr@traffic_url"
        match find_char_index(&t, '@') {
            Some(i) => {
                let auth_part = slice_chars(&t, 0, i);
                let traffic_part = slice_chars(&t, i + 1, t.len());
                assert(auth_part@ == t@.take(i as int));
                assert(traffic_part@ == t@.skip(i + 1));
                let auth_trimmed = trim_chars(&auth_part);
                let auth = if find_char_index(&auth_part, ':').is_some() {
                    auth_trimmed
                } else {
                    concat(&any_addr, &auth_trimmed)
                };
                let traffic0 = trim_chars(&traffic_part);
                let traffic1 = if starts_with_http_scheme(&traffic0) {
                    traffic0
                } else {
                    concat(&http, &traffic0)
                };
                let traffic = append_traffic_path(&traffic1);
                return Ok((string_of(&auth), string_of(&traffic)));
            },
            None => {},
        }
        // 2. Port pair format: "9999:7654"
        match find_char_index(&t, ':') {
            Some(c) => {
                let first = slice_chars(&t, 0, c);
                let rest = slice_chars(&t, c + 1, t.len());
                assert(first@ == t@.take(c as int));
                assert(rest@ == t@.skip(c + 1));
                if find_char_index(&rest, ':').is_none() && all_ascii_digits_chars(&first)
                    && all_ascii_digits_chars(&rest) {
                    let loopback = chars_of("http://127.0.0.1:");
                    let auth = concat(&any_addr, &first);
                    let traffic = concat(&concat(&loopback, &rest), &traffic_suffix);
                    return Ok((string_of(&auth), string_of(&traffic)));
                }
            },
            None => {},
        }
        // 3. HTTP URL format: "http://127.0.0.1:7654" or "http://hysteria:7654/traffic"
        if starts_with_http_scheme(&t) {
            let traffic = append_traffic_path(&t);
            return Ok((string_of(&default_auth), string_of(&traffic)));
        }
        // 4. Host:Port format: "127.0.0.1:7654" or "hysteria:7654"
        if find_char_index(&t, ':').is_some() {
            let base = strip_trailing_chars(&t, '/');
            let traffic = concat(&concat(&http, &base), &traffic_suffix);
            return Ok((string_of(&default_auth), string_of(&traffic)));
        }
        // 5. Plain Host / IP format: "127.0.0.1" or "hysteria"
        let port_suffix = chars_of(":7654/traffic");
        let traffic = concat(&concat(&http, &t), &port_suffix);
        Ok((string_of(&default_auth), string_of(&traffic)))
    }
}


// ---------------------------------------------------------------------------
// Environment
// ---------------------------------------------------------------------------

pub open spec fn var(o: Option<String>) -> Option<Seq<char>> {
    match o {
        Some(s) => Some(s@),
        None => None,
    }
}

/// `API_KEY`, or else `TOKEN`.
pub open spec fn api_key_of(env: EnvValues) -> Option<Seq<char>> {
    if env.api_key is Some {
        var(env.api_key)
    } else {
        var(env.token)
    }
}

/// The Hysteria API parameter: `HYSTERIA_API`, or else `HYSTERIA_ADDR`, or
/// else `AUTH_LISTEN_ADDR@HYSTERIA_TRAFFIC_URL` where both are set, or else
/// `HYSTERIA_TRAFFIC_URL` alone.
pub open spec fn hysteria_input(env: EnvValues) -> Option<Seq<char>> {
    if env.hysteria_api is Some {
        var(env.hysteria_api)
    } else if env.hysteria_addr is Some {
        var(env.hysteria_addr)
    } else if env.auth_listen_addr is Some && env.hysteria_traffic_url is Some {
        Some(env.auth_listen_addr->0@ + "@"@ + env.hysteria_traffic_url->0@)
    } else {
        var(env.hysteria_traffic_url)
    }
}

/// An interval setting: the variable parsed as a `u64`, or `default` where it
/// is unset or does not parse.
pub open spec fn interval_or(o: Option<String>, default: u64) -> u64 {
    match o {
        Some(s) => match parse_u64_spec(s@) {
            Some(v) => v,
            None => default,
        },
        None => default,
    }
}

/// The node type: `NODE_TYPE`, or `hysteria`.
pub open spec fn node_type_of(env: EnvValues) -> Seq<char> {
    match env.node_type {
        Some(s) => s@,
        None => "hysteria"@,
    }
}

/// The first thing that stops a configuration from being built, checked in
/// this order: the panel host, the key, the node ID, the Hysteria parameter.
pub open spec fn config_error(env: EnvValues) -> Option<ConfigError> {
    if env.api_host is None {
        Some(ConfigError::MissingApiHost)
    } else if api_key_of(env) is None {
        Some(ConfigError::MissingApiKey)
    } else if env.node_id is None {
        Some(ConfigError::MissingNodeId)
    } else if parse_u32_spec(env.node_id->0@) is None {
        Some(ConfigError::InvalidNodeId)
    } else if hysteria_input(env) is None {
        Some(ConfigError::MissingHysteriaApi)
    } else if hysteria_endpoints(hysteria_input(env)->0) is None {
        Some(ConfigError::EmptyHysteriaApi)
    } else {
        None
    }
}

/// The configuration that `env` describes (where `config_error(env)` is `None`).
pub open spec fn config_matches_env(c: Config, env: EnvValues) -> bool {
    let endpoints = hysteria_endpoints(hysteria_input(env)->0)->0;
    &&& c.api_host@ == strip_trailing(env.api_host->0@, '/')
    &&& c.api_key@ == api_key_of(env)->0
    &&& c.node_id == parse_u32_spec(env.node_id->0@)->0
    &&& c.node_type@ == node_type_of(env)
    &&& c.sync_interval_secs == interval_or(env.sync_interval, 15)
    &&& c.push_interval_secs == interval_or(env.push_interval, 60)
    &&& c.auth_listen_addr@ == endpoints.0
    &&& c.hysteria_traffic_url@ == endpoints.1
}

/// The base URL of a traffic URL: without its `/traffic` suffix.
pub open spec fn base_url_of(traffic_url: Seq<char>) -> Seq<char> {
    if ends_with(traffic_url, "/traffic"@) {
        traffic_url.take(traffic_url.len() - "/traffic"@.len())
    } else {
        traffic_url
    }
}

fn copy_string(s: &String) -> (r: String)
    ensures
        r@ == s@,
{
    s.clone()
}

fn interval_setting(o: &Option<String>, default: u64) -> (v: u64)
    ensures
        v == interval_or(*o, default),
{
    match o {
        Some(s) => {
            let cs = chars_of(s.as_str());
            match parse_u64_chars(&cs) {
                Some(v) => v,
                None => default,
            }
        },
        None => default,
    }
}

impl Config {
    /// Builds the configuration from the environment variables' values
    /// (`.env` having been loaded into the environment before they were read).
    pub fn from_env_values(env: &EnvValues) -> (r: Result<Config, ConfigError>)
        ensures
            match r {
                Ok(c) => config_error(*env) is None && config_matches_env(c, *env),
                Err(e) => config_error(*env) == Some(e),
            },
    {
        let api_host = match &env.api_host {
            Some(h) => {
                let cs = chars_of(h.as_str());
                string_of(&strip_trailing_chars(&cs, '/'))
            },
            None => {
                return Err(ConfigError::MissingApiHost);
            },
        };
        let api_key = match &env.api_key {
            Some(k) => copy_string(k),
            None => match &env.token {
                Some(k) => copy_string(k),
                None => {
                    return Err(ConfigError::MissingApiKey);
                },
            },
        };
        let node_id = match &env.node_id {
            Some(s) => {
                let cs = chars_of(s.as_str());
                match parse_u32_chars(&cs) {
                    Some(id) => id,
                    None => {
                        return Err(ConfigError::InvalidNodeId);
                    },
                }
            },
            None => {
                return Err(ConfigError::MissingNodeId);
            },
        };
        let node_type = match &env.node_type {
            Some(t) => copy_string(t),
            None => "hysteria".to_string(),
        };
        let sync_interval_secs = interval_setting(&env.sync_interval, 15);
        let push_interval_secs = interval_setting(&env.push_interval, 60);
        let hysteria_api_input: String = match &env.hysteria_api {
            Some(v) => copy_string(v),
            None => match &env.hysteria_addr {
                Some(v) => copy_string(v),
                None => match (&env.auth_listen_addr, &env.hysteria_traffic_url) {
                    (Some(auth), Some(traffic)) => {
                        let joined = concat(
                            &concat(&chars_of(auth.as_str()), &chars_of("@")),
                            &chars_of(traffic.as_str()),
                        );
                        string_of(&joined)
                    },
                    (None, Some(traffic)) => copy_string(traffic),
                    (_, None) => {
                        return Err(ConfigError::MissingHysteriaApi);
                    },
                },
            },
        };
        let (auth_listen_addr, hysteria_traffic_url) = match Config::parse_hysteria_api(
            hysteria_api_input.as_str(),
        ) {
            Ok(pair) => pair,
            Err(e) => {
                return Err(e);
            },
        };
        Ok(Config {
            api_host,
            api_key,
            node_id,
            node_type,
            sync_interval_secs,
            push_interval_secs,
            auth_listen_addr,
            hysteria_traffic_url,
        })
    }

    /// The settings of the node that this configuration describes (untagged).
    pub fn node_config(&self) -> (n: NodeConfig)
        ensures
            n.tag is None,
            n.api_host@ == self.api_host@,
            n.api_key@ == self.api_key@,
            n.node_id == self.node_id,
            n.node_type@ == self.node_type@,
            n.sync_interval_secs == self.sync_interval_secs,
            n.push_interval_secs == self.push_interval_secs,
            n.hysteria_base_url@ == base_url_of(self.hysteria_traffic_url@),
            n.hysteria_traffic_url@ == self.hysteria_traffic_url@,
    {
        let traffic = chars_of(self.hysteria_traffic_url.as_str());
        let suffix = chars_of("/traffic");
        let base = if ends_with_chars(&traffic, &suffix) {
            slice_chars(&traffic, 0, traffic.len() - suffix.len())
        } else {
            slice_chars(&traffic, 0, traffic.len())
        };
        NodeConfig {
            tag: None,
            api_host: copy_string(&self.api_host),
            api_key: copy_string(&self.api_key),
            node_id: self.node_id,
            node_type: copy_string(&self.node_type),
            sync_interval_secs: self.sync_interval_secs,
            push_interval_secs: self.push_interval_secs,
            hysteria_base_url: string_of(&base),
            hysteria_traffic_url: copy_string(&self.hysteria_traffic_url),
        }
    }
}


// ---------------------------------------------------------------------------
// Laws
// ---------------------------------------------------------------------------

/// Whatever the input, the traffic URL ends with `/traffic` and the auth
/// address holds a `:` (it names a port).
pub proof fn law_endpoints_shape(input: Seq<char>)
    ensures
        hysteria_endpoints(input) matches Some((auth, traffic)) ==> ends_with(traffic, "/traffic"@)
            && auth.contains(':'),
{
    reveal_strlit("/traffic");
    reveal_strlit("0.0.0.0:");
    reveal_strlit("0.0.0.0:9999");
    reveal_strlit(":7654/traffic");
    let t = trim(input);
    if t.len() > 0 {
        if split_at_sign(t) is Some {
            let (auth_part, traffic_part) = split_at_sign(t)->0;
            let x = with_scheme(trim(traffic_part));
            if !ends_with(x, "/traffic"@) {
                lemma_ends_with_append(strip_trailing(x, '/'), "/traffic"@);
            }
            if find_char(auth_part, ':') is Some {
                lemma_find_char_found(auth_part, ':');
                assert(auth_part.contains(':'));
                lemma_trim_keeps(auth_part, ':');
            } else {
                assert(("0.0.0.0:"@ + trim(auth_part))[7] == ':');
            }
        } else if port_pair(t) is Some {
            let (auth_port, traffic_port) = port_pair(t)->0;
            lemma_ends_with_append("http://127.0.0.1:"@ + traffic_port, "/traffic"@);
            assert(("0.0.0.0:"@ + auth_port)[7] == ':');
        } else {
            assert(default_auth_addr()[7] == ':');
            if starts_with(t, "http://"@) || starts_with(t, "https://"@) {
                if !ends_with(t, "/traffic"@) {
                    lemma_ends_with_append(strip_trailing(t, '/'), "/traffic"@);
                }
            } else if find_char(t, ':') is Some {
                lemma_ends_with_append("http://"@ + strip_trailing(t, '/'), "/traffic"@);
            } else {
                let u = "http://"@ + t + ":7654/traffic"@;
                assert(u.skip(u.len() - 8) =~= "/traffic"@);
            }
        }
    }
}


/// The auth address never holds `@`, is not empty, and has no surrounding
/// whitespace.
proof fn lemma_auth_shape(input: Seq<char>)
    ensures
        hysteria_endpoints(input) matches Some((auth, _)) ==> !auth.contains('@') && auth.len() > 0
            && is_trimmed(auth),
{
    reveal_strlit("0.0.0.0:");
    reveal_strlit("0.0.0.0:9999");
    law_endpoints_shape(input);
    let t = trim(input);
    if t.len() > 0 {
        if split_at_sign(t) is Some {
            let i = find_char(t, '@')->0;
            lemma_find_char_found(t, '@');
            let auth_part = t.take(i);
            assert(!auth_part.contains('@'));
            let ta = trim(auth_part);
            lemma_trim_is_trimmed(auth_part);
            assert(!ta.contains('@')) by {
                if ta.contains('@') {
                    lemma_trim_within(auth_part, '@');
                }
            }
            if find_char(auth_part, ':') is None {
                let a = "0.0.0.0:"@ + ta;
                assert(!a.contains('@')) by {
                    if a.contains('@') {
                        let k = choose|k: int| 0 <= k < a.len() && a[k] == '@';
                        if k >= 8 {
                            assert(ta[k - 8] == '@');
                        }
                    }
                }
                if ta.len() > 0 {
                    assert(a.last() == ta.last());
                }
            }
        } else if port_pair(t) is Some {
            let (auth_port, _) = port_pair(t)->0;
            let a = "0.0.0.0:"@ + auth_port;
            assert(!a.contains('@')) by {
                if a.contains('@') {
                    let k = choose|k: int| 0 <= k < a.len() && a[k] == '@';
                    if k >= 8 {
                        assert(auth_port[k - 8] == '@');
                        assert(is_ascii_digit(auth_port[k - 8]));
                    }
                }
            }
            if auth_port.len() > 0 {
                assert(a.last() == auth_port.last());
                assert(is_ascii_digit(auth_port[auth_port.len() - 1]));
            }
        } else {
            let a = default_auth_addr();
            assert(!a.contains('@')) by {
                if a.contains('@') {
                    let k = choose|k: int| 0 <= k < a.len() && a[k] == '@';
                }
            }
        }
    }
}

/// The canonical form `"<auth>@<traffic>"` of a result denotes that result
/// again, for every result whose traffic URL names its scheme.
pub proof fn law_endpoints_fixed_point(input: Seq<char>, auth: Seq<char>, traffic: Seq<char>)
    requires
        hysteria_endpoints(input) == Some((auth, traffic)),
        starts_with(traffic, "http://"@) || starts_with(traffic, "https://"@),
    ensures
        hysteria_endpoints(auth + "@"@ + traffic) == Some((auth, traffic)),
{
    reveal_strlit("@");
    reveal_strlit("/traffic");
    reveal_strlit("http://");
    reveal_strlit("https://");
    law_endpoints_shape(input);
    lemma_auth_shape(input);
    let s = auth + "@"@ + traffic;
    assert(traffic[0] == 'h') by {
        if starts_with(traffic, "http://"@) {
            assert(traffic.take(7)[0] == 'h');
        } else {
            assert(traffic.take(8)[0] == 'h');
        }
    }
    assert(traffic.last() == 'c') by {
        assert(traffic.skip(traffic.len() - 8)[7] == 'c');
    }
    assert(is_trimmed(traffic));
    lemma_trim_of_trimmed(traffic);
    lemma_trim_of_trimmed(auth);
    assert(s[0] == auth[0]);
    assert(s.last() == 'c');
    assert(is_trimmed(s));
    lemma_trim_of_trimmed(s);
    assert forall|j: int| 0 <= j < auth.len() implies #[trigger] s[j] != '@' by {
        assert(s[j] == auth[j]);
    }
    lemma_find_char(s, '@', auth.len() as int);
    assert(s.take(auth.len() as int) =~= auth);
    assert(s.skip(auth.len() as int + 1) =~= traffic);
    lemma_find_char_found(auth, ':');
}


/// A port pair `"<a>:<b>"` (two runs of ASCII digits around one `:`, after
/// trimming) names both ports: the auth server listens on port `a` of every
/// interface and the traffic API is on port `b` of `127.0.0.1`.
pub proof fn law_port_pair_keeps_both_ports(input: Seq<char>, a: Seq<char>, b: Seq<char>)
    requires
        trim(input) == a + ":"@ + b,
        all_ascii_digits(a),
        all_ascii_digits(b),
    ensures
        hysteria_endpoints(input) == Some(("0.0.0.0:"@ + a, "http://127.0.0.1:"@ + b + "/traffic"@)),
{
    reveal_strlit(":");
    let t = trim(input);
    assert(t.len() > 0);
    assert forall|j: int| 0 <= j < a.len() implies #[trigger] t[j] != '@' && t[j] != ':' by {
        assert(t[j] == a[j]);
        assert(is_ascii_digit(a[j]));
    }
    assert(t[a.len() as int] == ':');
    assert forall|j: int| 0 <= j < b.len() implies #[trigger] b[j] != '@' && b[j] != ':' by {
        assert(is_ascii_digit(b[j]));
    }
    assert(forall|j: int| 0 <= j < a.len() ==> #[trigger] t[j] != ':');
    lemma_find_char(t, ':', a.len() as int);
    assert(t.take(a.len() as int) =~= a);
    assert(t.skip(a.len() as int + 1) =~= b);
    lemma_find_char(b, ':', b.len() as int);
    assert forall|j: int| 0 <= j < t.len() implies #[trigger] t[j] != '@' by {
        if j < a.len() {
        } else if j == a.len() {
        } else {
            assert(t[j] == b[j - a.len() - 1]);
        }
    }
    lemma_find_char(t, '@', t.len() as int);
}

/// Both intervals come from their own variable only: each is the variable
/// parsed as a `u64`, or its default (15 s between pulls, 60 s between
/// pushes) where the variable is unset or does not parse.
pub proof fn law_intervals_come_from_their_variables(c: Config, env: EnvValues)
    requires
        config_error(env) is None,
        config_matches_env(c, env),
    ensures
        c.push_interval_secs == (match env.push_interval {
            Some(v) => match parse_u64_spec(v@) {
                Some(n) => n,
                None => 60u64,
            },
            None => 60u64,
        }),
        c.sync_interval_secs == (match env.sync_interval {
            Some(v) => match parse_u64_spec(v@) {
                Some(n) => n,
                None => 15u64,
            },
            None => 15u64,
        }),
{
}

/// With `HYSTERIA_API` unset, a non-blank `HYSTERIA_ADDR` (and valid panel
/// settings) gives the configuration, with the endpoints that
/// `HYSTERIA_ADDR` denotes; and a missing Hysteria parameter is reported
/// only when `HYSTERIA_API`, `HYSTERIA_ADDR` and `HYSTERIA_TRAFFIC_URL` are
/// all unset.
pub proof fn law_hysteria_addr_is_the_fallback(env: EnvValues, c: Config)
    ensures
        env.api_host is Some && (env.api_key is Some || env.token is Some) && env.node_id is Some
            && parse_u32_spec(env.node_id->0@) is Some && env.hysteria_api is None && env.hysteria_addr is Some
            && trim(env.hysteria_addr->0@).len() > 0 ==> {
            &&& config_error(env) is None
            &&& hysteria_endpoints(env.hysteria_addr->0@) is Some
            &&& config_matches_env(c, env) ==> hysteria_endpoints(env.hysteria_addr->0@) == Some(
                (c.auth_listen_addr@, c.hysteria_traffic_url@),
            )
        },
        config_error(env) == Some(ConfigError::MissingHysteriaApi) ==> env.hysteria_api is None
            && env.hysteria_addr is None && env.hysteria_traffic_url is None,
{
}


/// A blank parameter (empty or only whitespace) denotes nothing, and every
/// other parameter denotes a pair of endpoints.
pub proof fn law_blank_parameter_is_refused(input: Seq<char>)
    ensures
        hysteria_endpoints(input) is None <==> trim(input).len() == 0,
{
}

/// A plain host (no `@`, no `:`) is served on the default ports: the auth
/// server on `0.0.0.0:9999`, the traffic API at `http://<host>:7654/traffic`.
pub proof fn law_plain_host_uses_default_ports(input: Seq<char>)
    requires
        trim(input).len() > 0,
        !trim(input).contains('@'),
        !trim(input).contains(':'),
    ensures
        hysteria_endpoints(input) == Some(("0.0.0.0:9999"@, "http://"@ + trim(input) + ":7654/traffic"@)),
{
    reveal_strlit("http://");
    reveal_strlit("https://");
    let t = trim(input);
    lemma_find_char_found(t, '@');
    lemma_find_char_found(t, ':');
    lemma_no_char_none(t, '@');
    lemma_no_char_none(t, ':');
    if starts_with(t, "http://"@) {
        assert(t[4] == t.take(7)[4]);
    }
    if starts_with(t, "https://"@) {
        assert(t[5] == t.take(8)[5]);
    }
}

proof fn lemma_no_char_none(s: Seq<char>, c: char)
    requires
        !s.contains(c),
    ensures
        find_char(s, c) is None,
{
    assert forall|j: int| 0 <= j < s.len() implies #[trigger] s[j] != c by {
        if s[j] == c {
            assert(s.contains(c));
        }
    }
    lemma_find_char(s, c, s.len() as int);
}

/// A URL with an `http` or `https` scheme (and no `@`) is the traffic API
/// itself, with `/traffic` appended (after dropping trailing slashes) unless
/// it ends with it; the auth server listens on `0.0.0.0:9999`.
pub proof fn law_url_gets_traffic_path(input: Seq<char>)
    requires
        starts_with(trim(input), "http://"@) || starts_with(trim(input), "https://"@),
        !trim(input).contains('@'),
    ensures
        hysteria_endpoints(input) == Some(
            (
                "0.0.0.0:9999"@,
                if ends_with(trim(input), "/traffic"@) {
                    trim(input)
                } else {
                    strip_trailing(trim(input), '/') + "/traffic"@
                },
            ),
        ),
{
    reveal_strlit("http://");
    reveal_strlit("https://");
    let t = trim(input);
    lemma_no_char_none(t, '@');
    assert(t.len() > 0) by {
        if starts_with(t, "http://"@) {
            assert(t.take(7).len() == 7);
        }
    }
    // The first `:` follows the scheme name, which is no run of digits.
    assert(t[0] == 'h') by {
        if starts_with(t, "http://"@) {
            assert(t[0] == t.take(7)[0]);
        } else {
            assert(t[0] == t.take(8)[0]);
        }
    }
    lemma_find_char_found(t, ':');
    if port_pair(t) is Some {
        let c = find_char(t, ':')->0;
        if c == 0 {
            assert(t[0] == ':');
        } else {
            assert(t.take(c)[0] == 'h');
            assert(!is_ascii_digit(t.take(c)[0]));
        }
    }
}

/// `host:port` (no `@`, no scheme, and something other than digits and `:`
/// in it) is the traffic API at `http://host:port/traffic` (trailing slashes
/// dropped); the auth server listens on `0.0.0.0:9999`.
pub proof fn law_host_port_names_the_core(input: Seq<char>, j: int)
    requires
        !trim(input).contains('@'),
        trim(input).contains(':'),
        !starts_with(trim(input), "http://"@),
        !starts_with(trim(input), "https://"@),
        0 <= j < trim(input).len(),
        trim(input)[j] != ':',
        !is_ascii_digit(trim(input)[j]),
    ensures
        hysteria_endpoints(input) == Some(
            ("0.0.0.0:9999"@, "http://"@ + strip_trailing(trim(input), '/') + "/traffic"@),
        ),
{
    let t = trim(input);
    lemma_no_char_none(t, '@');
    lemma_find_char_found(t, ':');
    if port_pair(t) is Some {
        let c = find_char(t, ':')->0;
        let rest = t.skip(c + 1);
        lemma_find_char_found(rest, ':');
        if j < c {
            assert(t.take(c)[j] == t[j]);
        } else if j > c {
            assert(rest[j - c - 1] == t[j]);
        }
    }
}

/// The traffic URL that `b` names: trimmed, with `http://` put before it
/// unless it names `http` or `https`, and `/traffic` appended (after
/// dropping trailing slashes) unless it ends with it.
pub open spec fn traffic_url_from(b: Seq<char>) -> Seq<char> {
    let r = trim(b);
    let u = if starts_with(r, "http://"@) || starts_with(r, "https://"@) {
        r
    } else {
        "http://"@ + r
    };
    if ends_with(u, "/traffic"@) {
        u
    } else {
        strip_trailing(u, '/') + "/traffic"@
    }
}

/// `"<auth>@<traffic>"`: the auth address is the part before the first `@`
/// (trimmed; `0.0.0.0:` is put before a bare port), and the traffic URL is
/// the part after it (trimmed), with `http://` put before it unless it names
/// `http` or `https`, and `/traffic` appended (after dropping trailing
/// slashes) unless it ends with it.
pub proof fn law_explicit_pair(input: Seq<char>, a: Seq<char>, b: Seq<char>)
    requires
        trim(input) == a + "@"@ + b,
        !a.contains('@'),
    ensures
        hysteria_endpoints(input) == Some(
            (
                if a.contains(':') {
                    trim(a)
                } else {
                    "0.0.0.0:"@ + trim(a)
                },
                traffic_url_from(b),
            ),
        ),
{
    reveal_strlit("@");
    let t = trim(input);
    assert forall|k: int| 0 <= k < a.len() implies #[trigger] t[k] != '@' by {
        assert(t[k] == a[k]);
        if a[k] == '@' {
            assert(a.contains('@'));
        }
    }
    assert(t[a.len() as int] == '@');
    lemma_find_char(t, '@', a.len() as int);
    assert(t.take(a.len() as int) =~= a);
    assert(t.skip(a.len() as int + 1) =~= b);
    lemma_find_char_found(a, ':');
    if a.contains(':') {
        if find_char(a, ':') is None {
        }
    } else {
        lemma_no_char_none(a, ':');
    }
}


/// The panel settings of a configuration: the host without trailing `/`, the
/// key from `API_KEY` or else `TOKEN`, the node ID parsed from `NODE_ID`, and
/// the node type from `NODE_TYPE` or else `hysteria`.
pub proof fn law_panel_settings(c: Config, env: EnvValues)
    requires
        config_error(env) is None,
        config_matches_env(c, env),
    ensures
        env.api_host is Some && c.api_host@ == strip_trailing(env.api_host->0@, '/'),
        c.api_key@ == (match env.api_key {
            Some(k) => k@,
            None => env.token->0@,
        }),
        env.token is Some || env.api_key is Some,
        env.node_id is Some && parse_u32_spec(env.node_id->0@) == Some(c.node_id),
        c.node_type@ == (match env.node_type {
            Some(t) => t@,
            None => "hysteria"@,
        }),
{
}

/// Which error a configuration fails with: the first missing or invalid
/// setting, in the order host, key (`API_KEY` or `TOKEN`), node ID (missing,
/// then not a `u32`).
pub proof fn law_config_errors(env: EnvValues)
    ensures
        config_error(env) == Some(ConfigError::MissingApiHost) <==> env.api_host is None,
        config_error(env) == Some(ConfigError::MissingApiKey) <==> env.api_host is Some
            && env.api_key is None && env.token is None,
        config_error(env) == Some(ConfigError::MissingNodeId) <==> env.api_host is Some
            && (env.api_key is Some || env.token is Some) && env.node_id is None,
        config_error(env) == Some(ConfigError::InvalidNodeId) <==> env.api_host is Some
            && (env.api_key is Some || env.token is Some) && env.node_id is Some
            && parse_u32_spec(env.node_id->0@) is None,
        config_error(env) == Some(ConfigError::EmptyHysteriaApi) ==> (hysteria_input(env) matches Some(v)
            && trim(v).len() == 0),
{
}


/// Where the endpoints of a configuration come from: `HYSTERIA_API`; else
/// `HYSTERIA_ADDR`; else `AUTH_LISTEN_ADDR@HYSTERIA_TRAFFIC_URL` where both are
/// set; else `HYSTERIA_TRAFFIC_URL` alone.
pub proof fn law_endpoint_sources(c: Config, env: EnvValues)
    requires
        config_error(env) is None,
        config_matches_env(c, env),
    ensures
        hysteria_endpoints(
            match env.hysteria_api {
                Some(v) => v@,
                None => match env.hysteria_addr {
                    Some(v) => v@,
                    None => match env.auth_listen_addr {
                        Some(a) => a@ + "@"@ + env.hysteria_traffic_url->0@,
                        None => env.hysteria_traffic_url->0@,
                    },
                },
            },
        ) == Some((c.auth_listen_addr@, c.hysteria_traffic_url@)),
        env.hysteria_api is None && env.hysteria_addr is None ==> env.hysteria_traffic_url is Some,
{
}

} // verus!
