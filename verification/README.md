# hyboard_bridge

A bridge between an X-board / V2board panel (UniProxy API) and Hysteria 2
cores: local webhook authentication against an in-memory whitelist, and
incremental traffic metering with a buffer that survives failed pushes.

The logic is a Verus library, proved against its contracts:

- `src/user.rs` — the whitelist (`UserManager`): authentication by trimmed,
  then lowercased UUID, and synchronization with the panel's user list.
- `src/traffic.rs` — counter deltas (with restart detection), the pending
  buffer, the push payload and its commit (`TrafficCollector`).
- `src/node.rs` — nodes, the registry with its tag and ID indexes, and the
  split of a shared core's traffic among its nodes.
- `src/config.rs` — the `HYSTERIA_API` formats and configuration from
  environment values.
- `src/auth.rs`, `src/sync.rs` — webhook answers and panel URLs / responses.
- `src/strmap.rs`, `src/text.rs`, `src/tables.rs` — a string-keyed map, text
  helpers, and the contracts of the `dashmap` calls.

`app/main.rs` is the daemon around it: environment, HTTP (reqwest, axum),
JSON, logging and the periodic tasks.
