//! Panel side of the UniProxy protocol: the request URLs and the shapes of
//! the user list response.
use crate::config::Config;
use crate::text::{chars_of, concat, decimal, decimal_chars, string_of};
use crate::user::UserInfo;
use vstd::prelude::*;

verus! {

/// UniProxy API client for X-board and V2board panels (what identifies the
/// node to the panel; the HTTP transport is the caller's).
#[derive(Debug, Clone)]
pub struct PanelClient {
    api_host: String,
    api_key: String,
    node_id: u32,
    node_type: String,
}

/// The user list in one of the shapes that panels answer with.
pub enum UserApiResponse {
    /// `{"data": [...]}`
    DataArray { data: Vec<UserInfo> },
    /// `{"users": [...]}`
    UsersArray { users: Vec<UserInfo> },
    /// `{"data": {"users": [...]}}`
    NestedData { data: NestedUserData },
    /// `[...]`
    DirectArray(Vec<UserInfo>),
}

/// The inner object of `{"data": {"users": [...]}}`.
pub struct NestedUserData {
    pub users: Vec<UserInfo>,
}

impl UserApiResponse {
    /// The users that the response lists, whatever its shape.
    pub fn into_users(self) -> (users: Vec<UserInfo>)
        ensures
            users@ == (match self {
                UserApiResponse::DataArray { data } => data@,
                UserApiResponse::UsersArray { users } => users@,
                UserApiResponse::NestedData { data } => data.users@,
                UserApiResponse::DirectArray(users) => users@,
            }),
    {
        match self {
            UserApiResponse::DataArray { data } => data,
            UserApiResponse::UsersArray { users } => users,
            UserApiResponse::NestedData { data } => data.users,
            UserApiResponse::DirectArray(users) => users,
        }
    }
}

/// `<host>/api/v1/server/UniProxy/<endpoint>?node_id=<id>&node_type=<type>&token=<key>`
pub open spec fn uniproxy_url(
    host: Seq<char>,
    endpoint: Seq<char>,
    node_id: u32,
    node_type: Seq<char>,
    key: Seq<char>,
) -> Seq<char> {
    host + "/api/v1/server/UniProxy/"@ + endpoint + "?node_id="@ + decimal(node_id as nat)
        + "&node_type="@ + node_type + "&token="@ + key
}

impl PanelClient {
    pub closed spec fn host(&self) -> Seq<char> {
        self.api_host@
    }

    pub closed spec fn key(&self) -> Seq<char> {
        self.api_key@
    }

    pub closed spec fn id(&self) -> u32 {
        self.node_id
    }

    pub closed spec fn kind(&self) -> Seq<char> {
        self.node_type@
    }

    /// Creates a client for the node that `config` describes.
    pub fn new(config: &Config) -> (c: Self)
        ensures
            c.host() == config.api_host@,
            c.key() == config.api_key@,
            c.id() == config.node_id,
            c.kind() == config.node_type@,
    {
        PanelClient::from_parts(
            config.api_host.as_str(),
            config.api_key.as_str(),
            config.node_id,
            config.node_type.as_str(),
        )
    }

    /// Creates a client from the node's panel settings.
    pub fn from_parts(api_host: &str, api_key: &str, node_id: u32, node_type: &str) -> (c: Self)
        ensures
            c.host() == api_host@,
            c.key() == api_key@,
            c.id() == node_id,
            c.kind() == node_type@,
    {
        PanelClient {
            api_host: api_host.to_string(),
            api_key: api_key.to_string(),
            node_id,
            node_type: node_type.to_string(),
        }
    }

    fn endpoint_url(&self, endpoint: &str) -> (url: String)
        ensures
            url@ == uniproxy_url(self.host(), endpoint@, self.id(), self.kind(), self.key()),
    {
        let mut out = chars_of(self.api_host.as_str());
        out = concat(&out, &chars_of("/api/v1/server/UniProxy/"));
        out = concat(&out, &chars_of(endpoint));
        out = concat(&out, &chars_of("?node_id="));
        out = concat(&out, &decimal_chars(self.node_id as u64));
        out = concat(&out, &chars_of("&node_type="));
        out = concat(&out, &chars_of(self.node_type.as_str()));
        out = concat(&out, &chars_of("&token="));
        out = concat(&out, &chars_of(self.api_key.as_str()));
        string_of(&out)
    }

    /// URL of the user list request.
    pub fn user_list_url(&self) -> (url: String)
        ensures
            url@ == uniproxy_url(self.host(), "user"@, self.id(), self.kind(), self.key()),
    {
        self.endpoint_url("user")
    }

    /// URL of the traffic push request (also the node's heartbeat).
    pub fn push_url(&self) -> (url: String)
        ensures
            url@ == uniproxy_url(self.host(), "push"@, self.id(), self.kind(), self.key()),
    {
        self.endpoint_url("push")
    }

    pub fn api_host(&self) -> (h: &String)
        ensures
            h@ == self.host(),
    {
        &self.api_host
    }
}

} // verus!
