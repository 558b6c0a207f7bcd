//! Answers to the Hysteria 2 HTTP authentication webhook.
use crate::node::{opt_chars, registry_lookup, whitelists, NodeRegistry};
use crate::text::{chars_of, string_of, trim, trim_chars};
use vstd::prelude::*;

verus! {

/// Payload of Hysteria 2's `auth.http` request.
#[derive(Debug, Clone)]
pub struct AuthRequest {
    /// Remote client address (e.g. `1.2.3.4:5678`).
    pub addr: Option<String>,
    /// Client credential (the user's UUID / password).
    pub auth: String,
    /// Client requested Tx bandwidth in bytes/sec.
    pub tx: Option<u64>,
}

/// Payload of the answer to Hysteria 2's `auth.http` request.
#[derive(Debug, Clone, PartialEq, Eq)]
pub struct AuthResponse {
    /// Whether the client is accepted.
    pub ok: bool,
    /// Identifier for the connection: the user's UUID.
    pub id: Option<String>,
    /// Why the client was rejected.
    pub msg: Option<String>,
}

/// The message of a rejection.
pub open spec fn rejection_message() -> Seq<char> {
    "user not found or expired"@
}

/// Authenticates the request's credential (trimmed) against the registry,
/// for the node named by `node_key` or for all nodes, and builds the answer:
/// accepted with the user's UUID as connection ID, or rejected with a message.
pub fn authenticate_and_respond(
    registry: &NodeRegistry,
    node_key: Option<&str>,
    payload: AuthRequest,
) -> (r: AuthResponse)
    ensures
        match registry_lookup(
            whitelists(registry.node_list()),
            registry.tags(),
            registry.ids(),
            opt_chars(node_key),
            trim(payload.auth@),
        ) {
            Some(user) => {
                &&& r.ok
                &&& r.id matches Some(id) && id@ == user.uuid
                &&& r.msg is None
            },
            None => {
                &&& !r.ok
                &&& r.id is None
                &&& r.msg matches Some(m) && m@ == rejection_message()
            },
        },
{
    let auth_str = string_of(&trim_chars(&chars_of(payload.auth.as_str())));
    match registry.authenticate(node_key, auth_str.as_str()) {
        Some(user) => AuthResponse { ok: true, id: Some(user.uuid), msg: None },
        None => AuthResponse {
            ok: false,
            id: None,
            msg: Some("user not found or expired".to_string()),
        },
    }
}

} // verus!
