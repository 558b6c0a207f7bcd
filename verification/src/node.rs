//! Multi-node registry and routing of Hysteria 2 traffic between nodes that
//! share one core.
use crate::config::{base_url_of, Config, NodeConfig};
use crate::strmap::StrMap;
use crate::sync::PanelClient;
use crate::tables::{
    node_id_table, node_ids_get, node_ids_insert, node_ids_new, tag_table, tags_get, tags_insert,
    tags_new,
};
use crate::text::{chars_of, concat, decimal, decimal_chars, parse_u32_spec, parse_u32_str, string_of, trim, trim_chars};
use crate::traffic::{counter_delta, credit, growth, last_record, last_seen, pending_of, saturate, TrafficCollector, TrafficRecord};
use crate::user::{lookup_token, opt_view, UserInfo, UserManager, UserRecord};
use dashmap::DashMap;
use vstd::prelude::*;

verus! {

/// An active node: one node of one panel.
pub struct NodeInstance {
    pub tag: String,
    pub node_id: u32,
    pub node_type: String,
    pub api_host: String,
    pub api_key: String,
    pub sync_interval_secs: u64,
    pub push_interval_secs: u64,
    pub hysteria_base_url: String,
    pub hysteria_traffic_url: String,
    pub panel_client: PanelClient,
    /// The node's traffic buffer, which holds the node's user whitelist.
    pub traffic_collector: TrafficCollector,
}

/// The tag a node gets: its configured tag, or `node_<id>`.
pub open spec fn node_tag(tag: Option<String>, node_id: u32) -> Seq<char> {
    match tag {
        Some(t) => t@,
        None => "node_"@ + decimal(node_id as nat),
    }
}

/// The state of a node's traffic buffer.
pub struct BufferState {
    pub pending: Map<u32, (u64, u64)>,
    pub snapshot: Map<Seq<char>, TrafficRecord>,
}

impl NodeInstance {
    /// The node's user whitelist.
    pub open spec fn users(&self) -> Map<Seq<char>, UserRecord> {
        self.traffic_collector.users()
    }

    pub open spec fn buffer(&self) -> BufferState {
        BufferState {
            pending: self.traffic_collector.pending(),
            snapshot: self.traffic_collector.snapshot(),
        }
    }

    /// The node's settings (everything but its whitelist and its traffic
    /// buffer) are as in `other`.
    pub open spec fn settings_kept(&self, other: &NodeInstance) -> bool {
        &&& self.tag == other.tag
        &&& self.node_id == other.node_id
        &&& self.node_type == other.node_type
        &&& self.api_host == other.api_host
        &&& self.api_key == other.api_key
        &&& self.sync_interval_secs == other.sync_interval_secs
        &&& self.push_interval_secs == other.push_interval_secs
        &&& self.hysteria_base_url == other.hysteria_base_url
        &&& self.hysteria_traffic_url == other.hysteria_traffic_url
        &&& self.panel_client == other.panel_client
        &&& self.traffic_collector.url() == other.traffic_collector.url()
    }

    /// Everything but the traffic buffer is as in `other`.
    pub open spec fn same_settings(&self, other: &NodeInstance) -> bool {
        &&& self.tag == other.tag
        &&& self.node_id == other.node_id
        &&& self.node_type == other.node_type
        &&& self.api_host == other.api_host
        &&& self.api_key == other.api_key
        &&& self.sync_interval_secs == other.sync_interval_secs
        &&& self.push_interval_secs == other.push_interval_secs
        &&& self.hysteria_base_url == other.hysteria_base_url
        &&& self.hysteria_traffic_url == other.hysteria_traffic_url
        &&& self.panel_client == other.panel_client
        &&& self.traffic_collector.users() == other.traffic_collector.users()
        &&& self.traffic_collector.ids() == other.traffic_collector.ids()
        &&& self.traffic_collector.url() == other.traffic_collector.url()
    }

    /// Creates the node that `cfg` describes, with an empty whitelist and an
    /// empty traffic buffer.
    pub fn new(cfg: &NodeConfig) -> (n: Self)
        ensures
            built_from(n, *cfg),
            n.tag@ == node_tag(cfg.tag, cfg.node_id),
            n.node_id == cfg.node_id,
            n.node_type@ == cfg.node_type@,
            n.api_host@ == cfg.api_host@,
            n.api_key@ == cfg.api_key@,
            n.sync_interval_secs == cfg.sync_interval_secs,
            n.push_interval_secs == cfg.push_interval_secs,
            n.hysteria_base_url@ == cfg.hysteria_base_url@,
            n.hysteria_traffic_url@ == cfg.hysteria_traffic_url@,
            n.panel_client.host() == cfg.api_host@,
            n.panel_client.key() == cfg.api_key@,
            n.panel_client.id() == cfg.node_id,
            n.panel_client.kind() == cfg.node_type@,
            n.users() == Map::<Seq<char>, UserRecord>::empty(),
            n.traffic_collector.ids() == Map::<u32, Seq<char>>::empty(),
            n.traffic_collector.url() == cfg.hysteria_traffic_url@,
            n.buffer().pending == Map::<u32, (u64, u64)>::empty(),
            n.buffer().snapshot == Map::<Seq<char>, TrafficRecord>::empty(),
    {
        let tag = match &cfg.tag {
            Some(t) => t.clone(),
            None => string_of(&concat(&chars_of("node_"), &decimal_chars(cfg.node_id as u64))),
        };
        let user_manager = UserManager::new();
        let panel_client = PanelClient::from_parts(
            cfg.api_host.as_str(),
            cfg.api_key.as_str(),
            cfg.node_id,
            cfg.node_type.as_str(),
        );
        let traffic_collector = TrafficCollector::new(cfg.hysteria_traffic_url.clone(), user_manager);
        NodeInstance {
            tag,
            node_id: cfg.node_id,
            node_type: cfg.node_type.clone(),
            api_host: cfg.api_host.clone(),
            api_key: cfg.api_key.clone(),
            sync_interval_secs: cfg.sync_interval_secs,
            push_interval_secs: cfg.push_interval_secs,
            hysteria_base_url: cfg.hysteria_base_url.clone(),
            hysteria_traffic_url: cfg.hysteria_traffic_url.clone(),
            panel_client,
            traffic_collector,
        }
    }

    /// Applies the outcome of a whitelist pull: the fetched users replace the
    /// whitelist; a failed pull (`None`) keeps the previous whitelist.
    pub fn apply_user_sync(&mut self, fetched: Option<Vec<UserInfo>>) -> (r: Option<(usize, usize)>)
        ensures
            match fetched {
                Some(list) => {
                    &&& final(self).users() == crate::user::synced_whitelist(list@.map_values(|u: UserInfo| u@))
                    &&& final(self).traffic_collector.ids() == crate::user::synced_id_index(list@.map_values(|u: UserInfo| u@))
                    &&& r matches Some((total, changed)) && total == crate::user::uuid_keys(list@.map_values(|u: UserInfo| u@)).len()
                        && changed == crate::user::changes(old(self).users(), list@.map_values(|u: UserInfo| u@))
                },
                None => {
                    &&& r is None
                    &&& final(self).users() == old(self).users()
                    &&& final(self).traffic_collector.ids() == old(self).traffic_collector.ids()
                },
            },
            final(self).buffer() == old(self).buffer(),
            final(self).traffic_collector.url() == old(self).traffic_collector.url(),
            final(self).tag == old(self).tag,
            final(self).node_id == old(self).node_id,
            final(self).node_type == old(self).node_type,
            final(self).api_host == old(self).api_host,
            final(self).api_key == old(self).api_key,
            final(self).sync_interval_secs == old(self).sync_interval_secs,
            final(self).push_interval_secs == old(self).push_interval_secs,
            final(self).hysteria_base_url == old(self).hysteria_base_url,
            final(self).hysteria_traffic_url == old(self).hysteria_traffic_url,
            final(self).panel_client == old(self).panel_client,
    {
        match fetched {
            Some(users) => Some(self.traffic_collector.update_users(users)),
            None => None,
        }
    }

    /// Authenticates a token against this node's whitelist.
    pub fn authenticate(&self, auth_token: &str) -> (r: Option<UserInfo>)
        ensures
            opt_view(r) == lookup_token(self.users(), auth_token@),
    {
        self.traffic_collector.user_manager().authenticate(auth_token)
    }
}

/// The first node of `order` whose whitelist authenticates `key`, with the
/// user it authenticates as (positions past the end of `users` name no node).
pub open spec fn route(order: Seq<usize>, users: Seq<Map<Seq<char>, UserRecord>>, key: Seq<char>) -> Option<
    (usize, UserRecord),
>
    decreases order.len(),
{
    if order.len() == 0 {
        None
    } else if order[0] < users.len() && lookup_token(users[order[0] as int], key) is Some {
        Some((order[0], lookup_token(users[order[0] as int], key)->0))
    } else {
        route(order.drop_first(), users, key)
    }
}

/// Whether the counters under `key` moved since `snapshot`.
pub open spec fn moved(snapshot: Map<Seq<char>, TrafficRecord>, key: Seq<char>, current: TrafficRecord) -> bool {
    let last = last_record(snapshot, key);
    counter_delta(current.tx, last.tx) > 0 || counter_delta(current.rx, last.rx) > 0
}

/// The node buffers after routing the entries of `stats`, in order: for each
/// entry whose counters moved since the hub's snapshot, the increments (upload
/// from `rx`, download from `tx`, against the hub's snapshot) are credited to
/// the user's ID in the buffer of the first node of `order` whose whitelist
/// knows the key. Node snapshots are left as they are.
pub open spec fn dispatch(
    buffers: Seq<BufferState>,
    users: Seq<Map<Seq<char>, UserRecord>>,
    order: Seq<usize>,
    hub_snapshot: Map<Seq<char>, TrafficRecord>,
    stats: Seq<(Seq<char>, TrafficRecord)>,
) -> Seq<BufferState>
    decreases stats.len(),
{
    if stats.len() == 0 {
        buffers
    } else {
        let prev = dispatch(buffers, users, order, hub_snapshot, stats.drop_last());
        let (key, current) = stats.last();
        if moved(hub_snapshot, key, current) && route(order, users, key) is Some {
            let (j, user) = route(order, users, key)->0;
            let last = last_record(hub_snapshot, key);
            let b = prev[j as int];
            prev.update(
                j as int,
                BufferState {
                    pending: credit(
                        b.pending,
                        user.id,
                        counter_delta(current.rx, last.rx),
                        counter_delta(current.tx, last.tx),
                    ),
                    snapshot: b.snapshot,
                },
            )
        } else {
            prev
        }
    }
}

/// Number of entries of `stats` that were routed to a node.
pub open spec fn routed_entries(
    users: Seq<Map<Seq<char>, UserRecord>>,
    order: Seq<usize>,
    hub_snapshot: Map<Seq<char>, TrafficRecord>,
    stats: Seq<(Seq<char>, TrafficRecord)>,
) -> nat
    decreases stats.len(),
{
    if stats.len() == 0 {
        0
    } else {
        let (key, current) = stats.last();
        routed_entries(users, order, hub_snapshot, stats.drop_last()) + if moved(
            hub_snapshot,
            key,
            current,
        ) && route(order, users, key) is Some {
            1nat
        } else {
            0nat
        }
    }
}

/// The whitelists of `nodes`, by position.
pub open spec fn whitelists(nodes: Seq<NodeInstance>) -> Seq<Map<Seq<char>, UserRecord>> {
    nodes.map_values(|n: NodeInstance| n.users())
}

/// The traffic buffers of `nodes`, by position.
pub open spec fn buffers(nodes: Seq<NodeInstance>) -> Seq<BufferState> {
    nodes.map_values(|n: NodeInstance| n.buffer())
}

/// A Hysteria 2 core shared by several nodes: its traffic is split among them.
pub struct HysteriaCoreHub {
    traffic_url: String,
    /// Positions, in the registry's node list, of the nodes on this core.
    nodes: Vec<usize>,
    last_snapshot: StrMap<TrafficRecord>,
}

impl HysteriaCoreHub {
    /// The URL of the core's traffic statistics API.
    pub closed spec fn url(&self) -> Seq<char> {
        self.traffic_url@
    }

    /// Positions of the hub's nodes in the registry's node list, in routing order.
    pub closed spec fn order(&self) -> Seq<usize> {
        self.nodes@
    }

    pub fn traffic_url(&self) -> (u: &String)
        ensures
            u@ == self.url(),
    {
        &self.traffic_url
    }

    pub fn nodes(&self) -> (v: &Vec<usize>)
        ensures
            v@ == self.order(),
    {
        &self.nodes
    }

    /// The last counters seen from the core.
    pub closed spec fn snapshot(&self) -> Map<Seq<char>, TrafficRecord> {
        self.last_snapshot@
    }

    /// Creates a hub with no snapshot.
    pub fn new(traffic_url: String, nodes: Vec<usize>) -> (h: Self)
        ensures
            h.url() == traffic_url@,
            h.order() == nodes@,
            h.snapshot() == Map::<Seq<char>, TrafficRecord>::empty(),
    {
        HysteriaCoreHub { traffic_url, nodes, last_snapshot: StrMap::new() }
    }

    /// Splits a report of the core's counters among the hub's nodes: each
    /// entry whose counters moved since the hub's last report has its
    /// increments credited to the user in the first hub node whose whitelist
    /// knows the key. The report becomes the hub's snapshot.
    ///
    /// Returns the number of entries routed to a node.
    pub fn dispatch_raw_stats(
        &mut self,
        nodes: &mut Vec<NodeInstance>,
        current_stats: StrMap<TrafficRecord>,
    ) -> (n: usize)
        ensures
            final(nodes)@.len() == old(nodes)@.len(),
            forall|i: int| 0 <= i < old(nodes)@.len() ==> #[trigger] final(nodes)@[i].same_settings(&old(nodes)@[i]),
            buffers(final(nodes)@) == dispatch(
                buffers(old(nodes)@),
                whitelists(old(nodes)@),
                old(self).order(),
                old(self).snapshot(),
                current_stats.pairs(),
            ),
            n == routed_entries(
                whitelists(old(nodes)@),
                old(self).order(),
                old(self).snapshot(),
                current_stats.pairs(),
            ),
            final(self).snapshot() == current_stats@,
            final(self).order() == old(self).order(),
            final(self).url() == old(self).url(),
    {
        let ghost users = whitelists(nodes@);
        let ghost start = buffers(nodes@);
        let ghost first = nodes@;
        let ghost order = self.order();
        let ghost snap = self.snapshot();
        let ghost stats = current_stats.pairs();
        let mut active_users: usize = 0;
        let n = current_stats.len();
        for i in 0..n
            invariant
                n == stats.len(),
                stats == current_stats.pairs(),
                order == self.order(),
                snap == self.snapshot(),
                nodes@.len() == first.len(),
                forall|t: int| 0 <= t < first.len() ==> #[trigger] nodes@[t].same_settings(&first[t]),
                users == whitelists(first),
                buffers(nodes@) == dispatch(start, users, order, snap, stats.take(i as int)),
                active_users as nat == routed_entries(users, order, snap, stats.take(i as int)),
                active_users <= i,
        {
            let (user_key, current_record) = current_stats.entry_at(i);
            let ghost next = stats.take(i + 1);
            let ghost key = user_key@;
            assert(next.drop_last() =~= stats.take(i as int));
            assert(next.last() == stats[i as int]);
            let last = match self.last_snapshot.get(user_key.as_str()) {
                Some(r) => *r,
                None => TrafficRecord { tx: 0, rx: 0 },
            };
            let delta_tx = if current_record.tx >= last.tx {
                current_record.tx - last.tx
            } else {
                current_record.tx
            };
            let delta_rx = if current_record.rx >= last.rx {
                current_record.rx - last.rx
            } else {
                current_record.rx
            };
            if delta_tx > 0 || delta_rx > 0 {
                // Find which node owns this key.
                let mut t: usize = 0;
                let mut target: Option<(usize, UserInfo)> = None;
                assert(order.skip(0) =~= order);
                while t < self.nodes.len() && target.is_none()
                    invariant
                        t <= order.len(),
                        order == self.order(),
                        nodes@.len() == first.len(),
                        forall|s: int| 0 <= s < first.len() ==> #[trigger] nodes@[s].same_settings(&first[s]),
                        users == whitelists(first),
                        key == user_key@,
                        target is None ==> route(order, users, key) == route(order.skip(t as int), users, key),
                        target matches Some((j, u)) ==> j < nodes@.len() && route(order, users, key) == Some((j, u@)),
                    decreases order.len() - t, if target is None { 1int } else { 0int },
                {
                    let j = self.nodes[t];
                    assert(order.skip(t as int)[0] == order[t as int]);
                    assert(users.len() == nodes@.len());
                    let found = if j < nodes.len() {
                        assert(nodes@[j as int].same_settings(&first[j as int]));
                        assert(users[j as int] == first[j as int].users());
                        nodes[j].authenticate(user_key.as_str())
                    } else {
                        None
                    };
                    match found {
                        Some(user) => {
                            target = Some((j, user));
                        },
                        None => {
                            assert(order.skip(t as int).drop_first() =~= order.skip(t + 1));
                            t += 1;
                        },
                    }
                }
                match target {
                    Some((j, user)) => {
                        let ghost before = nodes@;
                        nodes[j].traffic_collector.add_increment(user.id, delta_rx, delta_tx);
                        proof {
                            assert(before[j as int].same_settings(&first[j as int]));
                            assert(users[j as int] == first[j as int].users());
                            assert(nodes@[j as int].same_settings(&before[j as int]));
                            assert(nodes@ =~= before.update(j as int, nodes@[j as int]));
                            assert forall|s: int| 0 <= s < first.len() implies #[trigger] nodes@[s].same_settings(&first[s]) by {
                                if s != j {
                                    assert(nodes@[s] == before[s]);
                                }
                            }
                            let prev = dispatch(start, users, order, snap, stats.take(i as int));
                            assert(buffers(before) == prev);
                            assert(buffers(nodes@) =~= prev.update(
                                j as int,
                                BufferState {
                                    pending: credit(prev[j as int].pending, user.id, delta_rx, delta_tx),
                                    snapshot: prev[j as int].snapshot,
                                },
                            )) by {
                                assert(buffers(before)[j as int] == before[j as int].buffer());
                                assert forall|s: int| 0 <= s < nodes@.len() && s != j implies buffers(nodes@)[s] == prev[s] by {
                                    assert(nodes@[s] == before[s]);
                                }
                            }
                        }
                        active_users += 1;
                    },
                    None => {
                        assert(order.skip(order.len() as int) =~= Seq::<usize>::empty());
                    },
                }
            }
        }
        assert(stats.take(n as int) =~= stats);
        self.last_snapshot = current_stats;
        active_users
    }
}


/// A freshly created node for `cfg`: its settings, an empty whitelist and an
/// empty traffic buffer.
pub open spec fn built_from(n: NodeInstance, cfg: NodeConfig) -> bool {
    &&& n.tag@ == node_tag(cfg.tag, cfg.node_id)
    &&& n.node_id == cfg.node_id
    &&& n.node_type@ == cfg.node_type@
    &&& n.api_host@ == cfg.api_host@
    &&& n.api_key@ == cfg.api_key@
    &&& n.sync_interval_secs == cfg.sync_interval_secs
    &&& n.push_interval_secs == cfg.push_interval_secs
    &&& n.hysteria_base_url@ == cfg.hysteria_base_url@
    &&& n.hysteria_traffic_url@ == cfg.hysteria_traffic_url@
    &&& n.panel_client.host() == cfg.api_host@
    &&& n.panel_client.key() == cfg.api_key@
    &&& n.panel_client.id() == cfg.node_id
    &&& n.panel_client.kind() == cfg.node_type@
    &&& n.users() == Map::<Seq<char>, UserRecord>::empty()
    &&& n.traffic_collector.ids() == Map::<u32, Seq<char>>::empty()
    &&& n.traffic_collector.url() == cfg.hysteria_traffic_url@
    &&& n.buffer().pending == Map::<u32, (u64, u64)>::empty()
    &&& n.buffer().snapshot == Map::<Seq<char>, TrafficRecord>::empty()
}

/// A freshly created node for the node that `c` describes (untagged).
pub open spec fn built_from_config(n: NodeInstance, c: Config) -> bool {
    &&& n.tag@ == node_tag(None, c.node_id)
    &&& n.node_id == c.node_id
    &&& n.node_type@ == c.node_type@
    &&& n.api_host@ == c.api_host@
    &&& n.api_key@ == c.api_key@
    &&& n.sync_interval_secs == c.sync_interval_secs
    &&& n.push_interval_secs == c.push_interval_secs
    &&& n.hysteria_base_url@ == base_url_of(c.hysteria_traffic_url@)
    &&& n.hysteria_traffic_url@ == c.hysteria_traffic_url@
    &&& n.panel_client.host() == c.api_host@
    &&& n.panel_client.key() == c.api_key@
    &&& n.panel_client.id() == c.node_id
    &&& n.panel_client.kind() == c.node_type@
    &&& n.users() == Map::<Seq<char>, UserRecord>::empty()
    &&& n.traffic_collector.ids() == Map::<u32, Seq<char>>::empty()
    &&& n.traffic_collector.url() == c.hysteria_traffic_url@
    &&& n.buffer().pending == Map::<u32, (u64, u64)>::empty()
    &&& n.buffer().snapshot == Map::<Seq<char>, TrafficRecord>::empty()
}

/// The positions `0..n`, in order.
pub open spec fn positions(n: nat) -> Seq<usize> {
    Seq::new(n, |i: int| i as usize)
}

/// The position of the last element of `keys` equal to `k`.
pub open spec fn last_position<K>(keys: Seq<K>, k: K) -> usize
    decreases keys.len(),
{
    if keys.len() == 0 {
        0
    } else if keys.last() == k {
        (keys.len() - 1) as usize
    } else {
        last_position(keys.drop_last(), k)
    }
}

/// Each key of `keys` with the position of its last occurrence.
pub open spec fn last_positions<K>(keys: Seq<K>) -> Map<K, usize> {
    Map::new(|k: K| keys.contains(k), |k: K| last_position(keys, k))
}

/// The positions of `urls` that hold `url`, in increasing order.
pub open spec fn positions_of(urls: Seq<Seq<char>>, url: Seq<char>) -> Seq<usize>
    decreases urls.len(),
{
    if urls.len() == 0 {
        Seq::empty()
    } else if urls.last() == url {
        positions_of(urls.drop_last(), url).push((urls.len() - 1) as usize)
    } else {
        positions_of(urls.drop_last(), url)
    }
}

/// Whether some hub holds node position `i`.
pub open spec fn in_a_hub(hubs: Seq<HysteriaCoreHub>, i: int) -> bool {
    exists|h: int| 0 <= h < hubs.len() && #[trigger] hubs[h].order().contains(i as usize)
}

/// The number of nodes that the hubs hold, all hubs together.
pub open spec fn hub_sizes(hubs: Seq<HysteriaCoreHub>) -> nat
    decreases hubs.len(),
{
    if hubs.len() == 0 {
        0
    } else {
        hub_sizes(hubs.drop_last()) + hubs.last().order().len()
    }
}

/// The number of positions of `urls` that hold one of `hs`, counted once per
/// element of `hs`.
pub open spec fn total_positions(hs: Seq<Seq<char>>, urls: Seq<Seq<char>>) -> nat
    decreases hs.len(),
{
    if hs.len() == 0 {
        0
    } else {
        total_positions(hs.drop_last(), urls) + positions_of(urls, hs.last()).len()
    }
}

/// How many elements of `hs` equal `x`.
pub open spec fn count_of(hs: Seq<Seq<char>>, x: Seq<char>) -> nat
    decreases hs.len(),
{
    if hs.len() == 0 {
        0
    } else {
        count_of(hs.drop_last(), x) + if hs.last() == x {
            1nat
        } else {
            0nat
        }
    }
}

proof fn lemma_positions_of_contains(urls: Seq<Seq<char>>, u: Seq<char>, i: int)
    requires
        urls.len() <= usize::MAX,
        0 <= i < urls.len(),
    ensures
        positions_of(urls, u).contains(i as usize) <==> urls[i] == u,
    decreases urls.len(),
{
    let q = urls.drop_last();
    let n = urls.len() - 1;
    lemma_positions_bound(q, u);
    let p = positions_of(q, u);
    if i < n {
        lemma_positions_of_contains(q, u, i);
        assert(q[i] == urls[i]);
        if urls.last() == u {
            let pp = p.push(n as usize);
            assert(pp == positions_of(urls, u));
            if pp.contains(i as usize) {
                let t = choose|t: int| 0 <= t < pp.len() && pp[t] == i as usize;
                if t < p.len() {
                    assert(p[t] == i as usize);
                } else {
                    assert(pp[t] == n as usize);
                }
            }
            if p.contains(i as usize) {
                let t = choose|t: int| 0 <= t < p.len() && p[t] == i as usize;
                assert(pp[t] == i as usize);
            }
        }
    } else {
        if urls.last() == u {
            let pp = p.push(n as usize);
            assert(pp[p.len() as int] == i as usize);
        } else {
            if p.contains(i as usize) {
                let t = choose|t: int| 0 <= t < p.len() && p[t] == i as usize;
                assert(p[t] < q.len());
            }
        }
    }
}

proof fn lemma_total_positions_empty(hs: Seq<Seq<char>>, urls: Seq<Seq<char>>)
    requires
        urls.len() == 0,
    ensures
        total_positions(hs, urls) == 0,
    decreases hs.len(),
{
    if hs.len() > 0 {
        lemma_total_positions_empty(hs.drop_last(), urls);
    }
}

proof fn lemma_total_positions_step(hs: Seq<Seq<char>>, urls: Seq<Seq<char>>)
    requires
        urls.len() > 0,
    ensures
        total_positions(hs, urls) == total_positions(hs, urls.drop_last()) + count_of(hs, urls.last()),
    decreases hs.len(),
{
    if hs.len() > 0 {
        lemma_total_positions_step(hs.drop_last(), urls);
    }
}

proof fn lemma_count_of(hs: Seq<Seq<char>>, x: Seq<char>)
    requires
        hs.no_duplicates(),
    ensures
        count_of(hs, x) == if hs.contains(x) {
            1nat
        } else {
            0nat
        },
    decreases hs.len(),
{
    if hs.len() > 0 {
        let q = hs.drop_last();
        assert(q.no_duplicates()) by {
            assert forall|a: int, b: int| 0 <= a < q.len() && 0 <= b < q.len() && a != b implies q[a] != q[b] by {
                assert(hs[a] == q[a] && hs[b] == q[b]);
            }
        }
        lemma_count_of(q, x);
        if hs.last() == x {
            if q.contains(x) {
                let t = choose|t: int| 0 <= t < q.len() && q[t] == x;
                assert(hs[t] == hs[hs.len() - 1]);
            }
            assert(hs[hs.len() - 1] == x);
        } else {
            if hs.contains(x) {
                let t = choose|t: int| 0 <= t < hs.len() && hs[t] == x;
                assert(q[t] == x);
            }
            if q.contains(x) {
                let t = choose|t: int| 0 <= t < q.len() && q[t] == x;
                assert(hs[t] == x);
            }
        }
    }
}

proof fn lemma_total_positions(hs: Seq<Seq<char>>, urls: Seq<Seq<char>>)
    requires
        hs.no_duplicates(),
        urls.to_set().subset_of(hs.to_set()),
    ensures
        total_positions(hs, urls) == urls.len(),
    decreases urls.len(),
{
    if urls.len() == 0 {
        lemma_total_positions_empty(hs, urls);
    } else {
        let q = urls.drop_last();
        assert(q.to_set().subset_of(hs.to_set())) by {
            assert forall|u: Seq<char>| q.to_set().contains(u) implies hs.to_set().contains(u) by {
                let t = choose|t: int| 0 <= t < q.len() && q[t] == u;
                assert(urls[t] == u);
                assert(urls.to_set().contains(u));
            }
        }
        lemma_total_positions(hs, q);
        lemma_total_positions_step(hs, urls);
        assert(urls[urls.len() - 1] == urls.last());
        assert(urls.to_set().contains(urls.last()));
        lemma_count_of(hs, urls.last());
    }
}

proof fn lemma_hub_sizes(hubs: Seq<HysteriaCoreHub>, urls: Seq<Seq<char>>)
    requires
        forall|h: int| 0 <= h < hubs.len() ==> #[trigger] hubs[h].order() == positions_of(urls, hubs[h].url()),
    ensures
        hub_sizes(hubs) == total_positions(hub_urls(hubs), urls),
    decreases hubs.len(),
{
    if hubs.len() > 0 {
        let q = hubs.drop_last();
        assert forall|h: int| 0 <= h < q.len() implies #[trigger] q[h].order() == positions_of(urls, q[h].url()) by {
            assert(q[h] == hubs[h]);
        }
        lemma_hub_sizes(q, urls);
        assert(hub_urls(hubs).drop_last() =~= hub_urls(q));
        assert(hubs[hubs.len() - 1] == hubs.last());
    }
}

/// The hubs split the nodes: each node position is in exactly one hub, and
/// the hubs hold as many nodes, all together, as there are nodes.
proof fn lemma_hubs_partition(hubs: Seq<HysteriaCoreHub>, urls: Seq<Seq<char>>)
    requires
        urls.len() <= usize::MAX,
        forall|h: int| 0 <= h < hubs.len() ==> #[trigger] hubs[h].order() == positions_of(urls, hubs[h].url()),
        forall|h1: int, h2: int| 0 <= h1 < h2 < hubs.len() ==> #[trigger] hubs[h1].url() != #[trigger] hubs[h2].url(),
        hub_urls(hubs).to_set() == urls.to_set(),
    ensures
        forall|i: int| 0 <= i < urls.len() ==> #[trigger] in_a_hub(hubs, i),
        forall|i: int, h1: int, h2: int|
            0 <= i < urls.len() && 0 <= h1 < hubs.len() && 0 <= h2 < hubs.len()
                && #[trigger] hubs[h1].order().contains(i as usize) && #[trigger] hubs[h2].order().contains(i as usize)
                ==> h1 == h2,
        hub_sizes(hubs) == urls.len(),
{
    let hu = hub_urls(hubs);
    assert(hu.no_duplicates()) by {
        assert forall|a: int, b: int| 0 <= a < hu.len() && 0 <= b < hu.len() && a != b implies hu[a] != hu[b] by {
            if a < b {
                assert(hubs[a].url() != hubs[b].url());
            } else {
                assert(hubs[b].url() != hubs[a].url());
            }
        }
    }
    lemma_hub_sizes(hubs, urls);
    lemma_total_positions(hu, urls);
    assert forall|i: int| 0 <= i < urls.len() implies #[trigger] in_a_hub(hubs, i) by {
        assert(urls.to_set().contains(urls[i]));
        assert(hu.to_set().contains(urls[i]));
        let h = choose|h: int| 0 <= h < hu.len() && hu[h] == urls[i];
        lemma_positions_of_contains(urls, hubs[h].url(), i);
        assert(hubs[h].order().contains(i as usize));
    }
    assert forall|i: int, h1: int, h2: int|
        0 <= i < urls.len() && 0 <= h1 < hubs.len() && 0 <= h2 < hubs.len()
            && #[trigger] hubs[h1].order().contains(i as usize) && #[trigger] hubs[h2].order().contains(i as usize)
            implies h1 == h2 by {
        lemma_positions_of_contains(urls, hubs[h1].url(), i);
        lemma_positions_of_contains(urls, hubs[h2].url(), i);
        if h1 < h2 {
            assert(hubs[h1].url() != hubs[h2].url());
        } else if h2 < h1 {
            assert(hubs[h2].url() != hubs[h1].url());
        }
    }
}

pub open spec fn hub_urls(hubs: Seq<HysteriaCoreHub>) -> Seq<Seq<char>> {
    hubs.map_values(|h: HysteriaCoreHub| h.url())
}

pub open spec fn config_tags(configs: Seq<NodeConfig>) -> Seq<Seq<char>> {
    configs.map_values(|c: NodeConfig| node_tag(c.tag, c.node_id))
}

pub open spec fn config_ids(configs: Seq<NodeConfig>) -> Seq<u32> {
    configs.map_values(|c: NodeConfig| c.node_id)
}

pub open spec fn config_urls(configs: Seq<NodeConfig>) -> Seq<Seq<char>> {
    configs.map_values(|c: NodeConfig| c.hysteria_traffic_url@)
}

/// What authenticating `token` against a registry finds: with a node key
/// (trimmed) that is a node's tag, or else parses as the ID of a node, only
/// that node's whitelist is asked; otherwise the first node whose whitelist
/// knows the (trimmed) token answers.
pub open spec fn registry_lookup(
    users: Seq<Map<Seq<char>, UserRecord>>,
    tags: Map<Seq<char>, usize>,
    ids: Map<u32, usize>,
    node_key: Option<Seq<char>>,
    token: Seq<char>,
) -> Option<UserRecord> {
    let auth = trim(token);
    let global = match route(positions(users.len()), users, auth) {
        Some((_, u)) => Some(u),
        None => None,
    };
    match node_key {
        Some(key) => {
            let k = trim(key);
            if tags.contains_key(k) {
                if tags[k] < users.len() {
                    lookup_token(users[tags[k] as int], auth)
                } else {
                    None
                }
            } else if parse_u32_spec(k) is Some && ids.contains_key(parse_u32_spec(k)->0) {
                if ids[parse_u32_spec(k)->0] < users.len() {
                    lookup_token(users[ids[parse_u32_spec(k)->0] as int], auth)
                } else {
                    None
                }
            } else {
                global
            }
        },
        None => global,
    }
}

pub open spec fn opt_chars(o: Option<&str>) -> Option<Seq<char>> {
    match o {
        Some(s) => Some(s@),
        None => None,
    }
}

/// Health of one node.
pub struct NodeHealth {
    pub tag: String,
    pub node_id: u32,
    pub api_host: String,
    pub active_users: usize,
    pub traffic_url: String,
}

/// Health of the whole bridge.
pub struct HealthReport {
    pub status: String,
    pub service: String,
    pub nodes_count: usize,
    pub nodes: Vec<NodeHealth>,
}

fn copy_positions(v: &Vec<usize>) -> (r: Vec<usize>)
    ensures
        r@ == v@,
{
    let mut r: Vec<usize> = Vec::new();
    for i in 0..v.len()
        invariant
            r@ == v@.take(i as int),
    {
        r.push(v[i]);
        assert(v@.take(i + 1) =~= v@.take(i as int).push(v@[i as int]));
    }
    assert(v@.take(v@.len() as int) =~= v@);
    r
}

proof fn lemma_last_position<K>(keys: Seq<K>, k: K)
    requires
        keys.contains(k),
        keys.len() <= usize::MAX,
    ensures
        last_position(keys, k) < keys.len(),
        keys[last_position(keys, k) as int] == k,
    decreases keys.len(),
{
    if keys.last() != k {
        let i = choose|i: int| 0 <= i < keys.len() && keys[i] == k;
        assert(i < keys.len() - 1);
        assert(keys.drop_last()[i] == k);
        assert(keys.drop_last().contains(k));
        lemma_last_position(keys.drop_last(), k);
        let p = last_position(keys.drop_last(), k) as int;
        assert(keys[p] == keys.drop_last()[p]);
    }
}

/// Every position that the indexes `tags` and `ids` and the hubs hold is
/// below `n`.
pub open spec fn parts_ok(
    n: nat,
    tags: Map<Seq<char>, usize>,
    ids: Map<u32, usize>,
    hubs: Seq<HysteriaCoreHub>,
) -> bool {
    &&& forall|k: Seq<char>| #[trigger] tags.contains_key(k) ==> tags[k] < n
    &&& forall|id: u32| #[trigger] ids.contains_key(id) ==> ids[id] < n
    &&& forall|h: int, t: int|
        0 <= h < hubs.len() && 0 <= t < hubs[h].order().len() ==> #[trigger] hubs[h].order()[t] < n
}

/// Registry of all nodes and of the Hysteria cores they share.
pub struct NodeRegistry {
    nodes: Vec<NodeInstance>,
    nodes_by_tag: DashMap<String, usize>,
    nodes_by_id: DashMap<u32, usize>,
    hubs: Vec<HysteriaCoreHub>,
}

impl NodeRegistry {
    pub closed spec fn node_list(&self) -> Seq<NodeInstance> {
        self.nodes@
    }

    /// Tag -> position of the node.
    pub closed spec fn tags(&self) -> Map<Seq<char>, usize> {
        tag_table(self.nodes_by_tag)
    }

    /// Node ID -> position of the node.
    pub closed spec fn ids(&self) -> Map<u32, usize> {
        node_id_table(self.nodes_by_id)
    }

    pub closed spec fn hub_list(&self) -> Seq<HysteriaCoreHub> {
        self.hubs@
    }

    /// Every position that the indexes and the hubs hold names a node.
    pub open spec fn well_formed(&self) -> bool {
        parts_ok(self.node_list().len(), self.tags(), self.ids(), self.hub_list())
    }

    /// The indexes and the hubs only name nodes of the registry.
    #[verifier::type_invariant]
    closed spec fn indexes_name_nodes(&self) -> bool {
        self.well_formed()
    }

    /// A registry without nodes.
    fn empty() -> (r: Self)
        ensures
            r.node_list().len() == 0,
    {
        NodeRegistry {
            nodes: Vec::new(),
            nodes_by_tag: tags_new(),
            nodes_by_id: node_ids_new(),
            hubs: Vec::new(),
        }
    }

    /// Builds the registry for the node that `config` describes.
    pub fn from_config(config: &Config) -> (r: Self)
        ensures
            r.well_formed(),
            r.node_list().len() == 1,
            built_from_config(r.node_list()[0], *config),
    {
        let mut configs: Vec<NodeConfig> = Vec::new();
        let cfg = config.node_config();
        configs.push(cfg);
        let r = NodeRegistry::from_node_configs(&configs);
        assert(configs@[0] == cfg);
        r
    }

    /// Builds the registry: one node per configuration, indexes by tag and by
    /// node ID (a later node wins where two share one), and one hub per
    /// distinct traffic URL with the nodes that use it, in order.
    pub fn from_node_configs(configs: &Vec<NodeConfig>) -> (r: Self)
        ensures
            r.well_formed(),
            r.node_list().len() == configs@.len(),
            forall|i: int| 0 <= i < configs@.len() ==> built_from(#[trigger] r.node_list()[i], configs@[i]),
            r.tags() == last_positions(config_tags(configs@)),
            r.ids() == last_positions(config_ids(configs@)),
            forall|h: int| 0 <= h < r.hub_list().len() ==> #[trigger] r.hub_list()[h].order() == positions_of(config_urls(configs@), r.hub_list()[h].url()),
            forall|h: int| 0 <= h < r.hub_list().len() ==> #[trigger] r.hub_list()[h].snapshot() == Map::<Seq<char>, TrafficRecord>::empty(),
            forall|h1: int, h2: int| 0 <= h1 < h2 < r.hub_list().len() ==> #[trigger] r.hub_list()[h1].url() != #[trigger] r.hub_list()[h2].url(),
            hub_urls(r.hub_list()).to_set() == config_urls(configs@).to_set(),
            forall|i: int| 0 <= i < configs@.len() ==> #[trigger] in_a_hub(r.hub_list(), i),
            forall|i: int, h1: int, h2: int|
                0 <= i < configs@.len() && 0 <= h1 < r.hub_list().len() && 0 <= h2 < r.hub_list().len()
                    && #[trigger] r.hub_list()[h1].order().contains(i as usize) && #[trigger] r.hub_list()[h2].order().contains(i as usize)
                    ==> h1 == h2,
            hub_sizes(r.hub_list()) == r.node_list().len(),
    {
        let ghost tag_seq = config_tags(configs@);
        let ghost id_seq = config_ids(configs@);
        let ghost urls = config_urls(configs@);
        let mut nodes: Vec<NodeInstance> = Vec::new();
        let mut nodes_by_tag = tags_new();
        let mut nodes_by_id = node_ids_new();
        let mut groups: StrMap<Vec<usize>> = StrMap::new();
        let n = configs.len();
        for i in 0..n
            invariant
                n == configs@.len(),
                tag_seq == config_tags(configs@),
                id_seq == config_ids(configs@),
                urls == config_urls(configs@),
                nodes@.len() == i,
                forall|j: int| 0 <= j < i ==> built_from(#[trigger] nodes@[j], configs@[j]),
                tag_table(nodes_by_tag) == last_positions(tag_seq.take(i as int)),
                node_id_table(nodes_by_id) == last_positions(id_seq.take(i as int)),
                groups@.dom() == urls.take(i as int).to_set(),
                forall|u: Seq<char>| #[trigger] groups@.contains_key(u) ==> groups@[u]@ == positions_of(urls.take(i as int), u),
        {
            let cfg = &configs[i];
            let inst = NodeInstance::new(cfg);
            let ghost tags_next = tag_seq.take(i + 1);
            let ghost ids_next = id_seq.take(i + 1);
            let ghost urls_next = urls.take(i + 1);
            assert(tags_next.drop_last() =~= tag_seq.take(i as int));
            assert(ids_next.drop_last() =~= id_seq.take(i as int));
            assert(urls_next.drop_last() =~= urls.take(i as int));
            assert(tags_next.last() == inst.tag@);
            assert(ids_next.last() == inst.node_id);
            assert(urls_next.last() == inst.hysteria_traffic_url@);
            tags_insert(&mut nodes_by_tag, inst.tag.clone(), i);
            node_ids_insert(&mut nodes_by_id, inst.node_id, i);
            proof {
                assert(tag_table(nodes_by_tag) =~= last_positions(tags_next)) by {
                    assert forall|k: Seq<char>| #[trigger] tags_next.contains(k) <==> (tag_seq.take(i as int).contains(k) || k == inst.tag@) by {
                        if tags_next.contains(k) && k != inst.tag@ {
                            let j = choose|j: int| 0 <= j < tags_next.len() && tags_next[j] == k;
                            assert(tag_seq.take(i as int)[j] == k);
                        }
                        if tag_seq.take(i as int).contains(k) {
                            let j = choose|j: int| 0 <= j < i && tag_seq.take(i as int)[j] == k;
                            assert(tags_next[j] == k);
                        }
                        if k == inst.tag@ {
                            assert(tags_next[i as int] == k);
                        }
                    }
                }
                assert(node_id_table(nodes_by_id) =~= last_positions(ids_next)) by {
                    assert forall|k: u32| #[trigger] ids_next.contains(k) <==> (id_seq.take(i as int).contains(k) || k == inst.node_id) by {
                        if ids_next.contains(k) && k != inst.node_id {
                            let j = choose|j: int| 0 <= j < ids_next.len() && ids_next[j] == k;
                            assert(id_seq.take(i as int)[j] == k);
                        }
                        if id_seq.take(i as int).contains(k) {
                            let j = choose|j: int| 0 <= j < i && id_seq.take(i as int)[j] == k;
                            assert(ids_next[j] == k);
                        }
                        if k == inst.node_id {
                            assert(ids_next[i as int] == k);
                        }
                    }
                }
            }
            let url = inst.hysteria_traffic_url.clone();
            let mut members = match groups.get(url.as_str()) {
                Some(v) => copy_positions(v),
                None => Vec::new(),
            };
            members.push(i);
            groups.insert(url, members);
            proof {
                assert(urls_next.to_set() =~= urls.take(i as int).to_set().insert(inst.hysteria_traffic_url@)) by {
                    assert forall|u: Seq<char>| #[trigger] urls_next.to_set().contains(u) <==> (urls.take(i as int).to_set().contains(u) || u == inst.hysteria_traffic_url@) by {
                        if urls_next.contains(u) && u != inst.hysteria_traffic_url@ {
                            let j = choose|j: int| 0 <= j < urls_next.len() && urls_next[j] == u;
                            assert(urls.take(i as int)[j] == u);
                        }
                        if urls.take(i as int).contains(u) {
                            let j = choose|j: int| 0 <= j < i && urls.take(i as int)[j] == u;
                            assert(urls_next[j] == u);
                        }
                        if u == inst.hysteria_traffic_url@ {
                            assert(urls_next[i as int] == u);
                        }
                    }
                }
                assert forall|u: Seq<char>| #[trigger] groups@.contains_key(u) implies groups@[u]@ == positions_of(urls_next, u) by {
                    if u != inst.hysteria_traffic_url@ {
                        assert(positions_of(urls_next, u) == positions_of(urls.take(i as int), u));
                    } else {
                        if !urls.take(i as int).to_set().contains(u) {
                            assert(positions_of(urls.take(i as int), u) =~= Seq::<usize>::empty()) by {
                                lemma_positions_absent(urls.take(i as int), u);
                            }
                        }
                    }
                }
            }
            nodes.push(inst);
        }
        let mut hubs: Vec<HysteriaCoreHub> = Vec::new();
        let g = groups.len();
        proof {
            use_type_invariant(&groups);
            groups.lemma_wf();
            assert(urls.take(n as int) =~= urls);
            assert(tag_seq.take(n as int) =~= tag_seq);
            assert(id_seq.take(n as int) =~= id_seq);
        }
        for h in 0..g
            invariant
                g == groups.pairs().len(),
                crate::strmap::distinct_keys(groups.pairs()),
                forall|t: int| 0 <= t < g ==> #[trigger] groups@.contains_key(groups.pairs()[t].0) && groups@[groups.pairs()[t].0] == groups.pairs()[t].1,
                groups@.dom() == urls.to_set(),
                forall|u: Seq<char>| #[trigger] groups@.contains_key(u) ==> groups@[u]@ == positions_of(urls, u),
                hubs@.len() == h,
                forall|t: int| 0 <= t < h ==> #[trigger] hubs@[t].url() == groups.pairs()[t].0,
                forall|t: int| 0 <= t < h ==> #[trigger] hubs@[t].order() == positions_of(urls, hubs@[t].url()),
                forall|t: int| 0 <= t < h ==> #[trigger] hubs@[t].snapshot() == Map::<Seq<char>, TrafficRecord>::empty(),
        {
            let (url, members) = groups.entry_at(h);
            let hub = HysteriaCoreHub::new(url.clone(), copy_positions(members));
            assert(groups@.contains_key(groups.pairs()[h as int].0));
            assert(groups@[url@] == *members);
            assert(hub.order() == positions_of(urls, hub.url()));
            hubs.push(hub);
        }
        proof {
            let hu = hub_urls(hubs@);
            assert forall|u: Seq<char>| #[trigger] hu.to_set().contains(u) <==> urls.to_set().contains(u) by {
                if urls.to_set().contains(u) {
                    assert(groups@.contains_key(u));
                    let t = choose|t: int| 0 <= t < g && groups.pairs()[t].0 == u;
                    assert(hu[t] == u);
                }
                if hu.to_set().contains(u) {
                    let t = choose|t: int| 0 <= t < hu.len() && hu[t] == u;
                    assert(hubs@[t].url() == groups.pairs()[t].0);
                    assert(groups@.contains_key(groups.pairs()[t].0));
                }
            }
            assert(hu.to_set() =~= urls.to_set());
            assert forall|k: Seq<char>| #[trigger] tag_table(nodes_by_tag).contains_key(k) implies tag_table(nodes_by_tag)[k] < nodes@.len() by {
                lemma_last_position(tag_seq, k);
            }
            assert forall|id: u32| #[trigger] node_id_table(nodes_by_id).contains_key(id) implies node_id_table(nodes_by_id)[id] < nodes@.len() by {
                lemma_last_position(id_seq, id);
            }
            assert forall|hh: int, t: int| 0 <= hh < hubs@.len() && 0 <= t < hubs@[hh].order().len()
                implies #[trigger] hubs@[hh].order()[t] < nodes@.len() by {
                lemma_positions_bound(urls, hubs@[hh].url());
            }
            lemma_hubs_partition(hubs@, urls);
        }
        let r = NodeRegistry { nodes, nodes_by_tag, nodes_by_id, hubs };
        r
    }
}

proof fn lemma_positions_absent(urls: Seq<Seq<char>>, u: Seq<char>)
    requires
        !urls.to_set().contains(u),
    ensures
        positions_of(urls, u) == Seq::<usize>::empty(),
    decreases urls.len(),
{
    if urls.len() > 0 {
        assert(urls.last() == urls[urls.len() - 1]);
        assert(!urls.drop_last().to_set().contains(u)) by {
            if urls.drop_last().contains(u) {
                let j = choose|j: int| 0 <= j < urls.drop_last().len() && urls.drop_last()[j] == u;
                assert(urls[j] == u);
            }
        }
        lemma_positions_absent(urls.drop_last(), u);
    }
}

proof fn lemma_positions_bound(urls: Seq<Seq<char>>, u: Seq<char>)
    ensures
        forall|t: int| 0 <= t < positions_of(urls, u).len() ==> #[trigger] positions_of(urls, u)[t] < urls.len(),
    decreases urls.len(),
{
    if urls.len() > 0 {
        lemma_positions_bound(urls.drop_last(), u);
        let prev = positions_of(urls.drop_last(), u);
        assert forall|t: int| 0 <= t < positions_of(urls, u).len() implies #[trigger] positions_of(urls, u)[t] < urls.len() by {
            if t < prev.len() {
                assert(prev[t] < urls.len() - 1);
            }
        }
    }
}


impl NodeRegistry {
    /// Authenticates a token against one node (by tag, or by node ID) or,
    /// without a matching node key, against all nodes in order.
    pub fn authenticate(&self, node_key: Option<&str>, auth_token: &str) -> (r: Option<UserInfo>)
        ensures
            opt_view(r) == registry_lookup(
                whitelists(self.node_list()),
                self.tags(),
                self.ids(),
                opt_chars(node_key),
                auth_token@,
            ),
            self.well_formed(),
    {
        proof {
            use_type_invariant(self);
        }
        let ghost users = whitelists(self.node_list());
        let auth = string_of(&trim_chars(&chars_of(auth_token)));
        match node_key {
            Some(key) => {
                let trimmed_key = string_of(&trim_chars(&chars_of(key)));
                match tags_get(&self.nodes_by_tag, trimmed_key.as_str()) {
                    Some(i) => {
                        if i < self.nodes.len() {
                            return self.nodes[i].authenticate(auth.as_str());
                        }
                        return None;
                    },
                    None => {},
                }
                match parse_u32_str(trimmed_key.as_str()) {
                    Some(id) => match node_ids_get(&self.nodes_by_id, id) {
                        Some(i) => {
                            if i < self.nodes.len() {
                                return self.nodes[i].authenticate(auth.as_str());
                            }
                            return None;
                        },
                        None => {},
                    },
                    None => {},
                }
            },
            None => {},
        }
        let n = self.nodes.len();
        let ghost order = positions(n as nat);
        assert(order.skip(0) =~= order);
        assert(users.len() == n);
        for i in 0..n
            invariant
                n == self.node_list().len(),
                self.well_formed(),
                order == positions(n as nat),
                users == whitelists(self.node_list()),
                auth@ == trim(auth_token@),
                registry_lookup(users, self.tags(), self.ids(), opt_chars(node_key), auth_token@) == (match route(order, users, auth@) {
                    Some((_, u)) => Some(u),
                    None => None,
                }),
                route(order, users, auth@) == route(order.skip(i as int), users, auth@),
        {
            assert(order.skip(i as int)[0] == i);
            assert(users[i as int] == self.node_list()[i as int].users());
            match self.nodes[i].authenticate(auth.as_str()) {
                Some(user) => {
                    return Some(user);
                },
                None => {
                    assert(order.skip(i as int).drop_first() =~= order.skip(i + 1));
                },
            }
        }
        assert(order.skip(n as int) =~= Seq::<usize>::empty());
        None
    }

    /// All nodes.
    pub fn all_nodes(&self) -> (r: &[NodeInstance])
        ensures
            r@ == self.node_list(),
            self.well_formed(),
    {
        proof {
            use_type_invariant(self);
        }
        self.nodes.as_slice()
    }

    /// All Hysteria core hubs.
    pub fn all_hubs(&self) -> (r: &[HysteriaCoreHub])
        ensures
            r@ == self.hub_list(),
    {
        self.hubs.as_slice()
    }

    /// Number of nodes.
    pub fn node_count(&self) -> (n: usize)
        ensures
            n == self.node_list().len(),
    {
        self.nodes.len()
    }

    /// Takes the registry apart (leaving it empty).
    fn take_parts(&mut self) -> (r: (Vec<NodeInstance>, DashMap<String, usize>, DashMap<u32, usize>, Vec<HysteriaCoreHub>))
        ensures
            r.0@ == old(self).node_list(),
            tag_table(r.1) == old(self).tags(),
            node_id_table(r.2) == old(self).ids(),
            r.3@ == old(self).hub_list(),
            parts_ok(r.0@.len(), tag_table(r.1), node_id_table(r.2), r.3@),
    {
        proof {
            use_type_invariant(&*self);
        }
        let mut whole = NodeRegistry::empty();
        std::mem::swap(self, &mut whole);
        proof {
            use_type_invariant(&whole);
        }
        let NodeRegistry { nodes, nodes_by_tag, nodes_by_id, hubs } = whole;
        (nodes, nodes_by_tag, nodes_by_id, hubs)
    }

    /// Puts the registry together from its parts.
    fn put_parts(
        &mut self,
        nodes: Vec<NodeInstance>,
        nodes_by_tag: DashMap<String, usize>,
        nodes_by_id: DashMap<u32, usize>,
        hubs: Vec<HysteriaCoreHub>,
    )
        requires
            parts_ok(nodes@.len(), tag_table(nodes_by_tag), node_id_table(nodes_by_id), hubs@),
        ensures
            final(self).node_list() == nodes@,
            final(self).tags() == tag_table(nodes_by_tag),
            final(self).ids() == node_id_table(nodes_by_id),
            final(self).hub_list() == hubs@,
    {
        *self = NodeRegistry { nodes, nodes_by_tag, nodes_by_id, hubs };
    }

    /// Applies the outcome of a whitelist pull to node `i` (see
    /// `NodeInstance::apply_user_sync`); the other nodes, the indexes and the
    /// hubs stay as they are.
    pub fn apply_node_user_sync(&mut self, i: usize, fetched: Option<Vec<UserInfo>>) -> (r: Option<(usize, usize)>)
        requires
            i < old(self).node_list().len(),
        ensures
            final(self).node_list().len() == old(self).node_list().len(),
            forall|k: int| 0 <= k < old(self).node_list().len() && k != i ==> #[trigger] final(self).node_list()[k] == old(self).node_list()[k],
            final(self).node_list()[i as int].settings_kept(&old(self).node_list()[i as int]),
            final(self).node_list()[i as int].buffer() == old(self).node_list()[i as int].buffer(),
            match fetched {
                Some(list) => {
                    &&& final(self).node_list()[i as int].users() == crate::user::synced_whitelist(list@.map_values(|u: UserInfo| u@))
                    &&& final(self).node_list()[i as int].traffic_collector.ids() == crate::user::synced_id_index(list@.map_values(|u: UserInfo| u@))
                    &&& r matches Some((total, changed)) && total == crate::user::uuid_keys(list@.map_values(|u: UserInfo| u@)).len()
                        && changed == crate::user::changes(old(self).node_list()[i as int].users(), list@.map_values(|u: UserInfo| u@))
                },
                None => {
                    &&& r is None
                    &&& final(self).node_list()[i as int] == old(self).node_list()[i as int]
                },
            },
            final(self).tags() == old(self).tags(),
            final(self).ids() == old(self).ids(),
            final(self).hub_list() == old(self).hub_list(),
    {
        let (mut nodes, tags, ids, hubs) = self.take_parts();
        let r = match fetched {
            Some(list) => nodes[i].apply_user_sync(Some(list)),
            None => None,
        };
        self.put_parts(nodes, tags, ids, hubs);
        r
    }

    /// Processes a report of node `i`'s own core (see
    /// `TrafficCollector::process_raw_stats`); the other nodes, the indexes
    /// and the hubs stay as they are.
    pub fn process_node_stats(&mut self, i: usize, current_stats: StrMap<TrafficRecord>) -> (n: usize)
        requires
            i < old(self).node_list().len(),
        ensures
            final(self).node_list().len() == old(self).node_list().len(),
            forall|k: int| 0 <= k < old(self).node_list().len() && k != i ==> #[trigger] final(self).node_list()[k] == old(self).node_list()[k],
            final(self).node_list()[i as int].same_settings(&old(self).node_list()[i as int]),
            final(self).node_list()[i as int].buffer().pending == crate::traffic::accrue(
                old(self).node_list()[i as int].buffer().pending,
                old(self).node_list()[i as int].users(),
                old(self).node_list()[i as int].buffer().snapshot,
                current_stats.pairs(),
            ),
            final(self).node_list()[i as int].buffer().snapshot == current_stats@,
            n == crate::traffic::active_entries(
                old(self).node_list()[i as int].users(),
                old(self).node_list()[i as int].buffer().snapshot,
                current_stats.pairs(),
            ),
            final(self).tags() == old(self).tags(),
            final(self).ids() == old(self).ids(),
            final(self).hub_list() == old(self).hub_list(),
    {
        let (mut nodes, tags, ids, hubs) = self.take_parts();
        let n = nodes[i].traffic_collector.process_raw_stats(current_stats);
        self.put_parts(nodes, tags, ids, hubs);
        n
    }

    /// Settles a push attempt of node `i` (see `TrafficCollector::settle_push`);
    /// the other nodes, the indexes and the hubs stay as they are.
    pub fn settle_node_push(&mut self, i: usize, payload: &StrMap<[u64; 2]>, pushed: bool)
        requires
            i < old(self).node_list().len(),
        ensures
            final(self).node_list().len() == old(self).node_list().len(),
            forall|k: int| 0 <= k < old(self).node_list().len() && k != i ==> #[trigger] final(self).node_list()[k] == old(self).node_list()[k],
            final(self).node_list()[i as int].same_settings(&old(self).node_list()[i as int]),
            final(self).node_list()[i as int].buffer().pending == (if pushed {
                crate::traffic::settle(old(self).node_list()[i as int].buffer().pending, payload.pairs())
            } else {
                old(self).node_list()[i as int].buffer().pending
            }),
            final(self).node_list()[i as int].buffer().snapshot == old(self).node_list()[i as int].buffer().snapshot,
            final(self).tags() == old(self).tags(),
            final(self).ids() == old(self).ids(),
            final(self).hub_list() == old(self).hub_list(),
    {
        let (mut nodes, tags, ids, hubs) = self.take_parts();
        nodes[i].traffic_collector.settle_push(payload, pushed);
        self.put_parts(nodes, tags, ids, hubs);
    }

    /// Splits a report of hub `h`'s core among the hub's nodes (see
    /// `HysteriaCoreHub::dispatch_raw_stats`).
    pub fn dispatch_hub_stats(&mut self, h: usize, current_stats: StrMap<TrafficRecord>) -> (n: usize)
        requires
            h < old(self).hub_list().len(),
        ensures
            final(self).well_formed(),
            final(self).node_list().len() == old(self).node_list().len(),
            forall|i: int|
                0 <= i < old(self).node_list().len() ==> #[trigger] final(self).node_list()[i].same_settings(
                    &old(self).node_list()[i],
                ),
            buffers(final(self).node_list()) == dispatch(
                buffers(old(self).node_list()),
                whitelists(old(self).node_list()),
                old(self).hub_list()[h as int].order(),
                old(self).hub_list()[h as int].snapshot(),
                current_stats.pairs(),
            ),
            n == routed_entries(
                whitelists(old(self).node_list()),
                old(self).hub_list()[h as int].order(),
                old(self).hub_list()[h as int].snapshot(),
                current_stats.pairs(),
            ),
            final(self).hub_list()[h as int].snapshot() == current_stats@,
            final(self).hub_list().len() == old(self).hub_list().len(),
            forall|k: int| 0 <= k < old(self).hub_list().len() ==> #[trigger] final(self).hub_list()[k].order() == old(self).hub_list()[k].order() && final(self).hub_list()[k].url() == old(self).hub_list()[k].url(),
            forall|k: int| 0 <= k < old(self).hub_list().len() && k != h ==> #[trigger] final(self).hub_list()[k] == old(self).hub_list()[k],
            final(self).tags() == old(self).tags(),
            final(self).ids() == old(self).ids(),
    {
        proof {
            use_type_invariant(&*self);
        }
        let ghost old_hubs = self.hubs@;
        let (mut nodes, tags, ids, mut hubs) = self.take_parts();
        let r = hubs[h].dispatch_raw_stats(&mut nodes, current_stats);
        proof {
            assert forall|k: int| 0 <= k < old_hubs.len() && k != h implies #[trigger] hubs@[k] == old_hubs[k] by {}
            assert forall|hh: int, t: int|
                0 <= hh < hubs@.len() && 0 <= t < hubs@[hh].order().len()
                    implies #[trigger] hubs@[hh].order()[t] < nodes@.len() by {
                assert(hubs@[hh].order() == old_hubs[hh].order());
            }
        }
        self.put_parts(nodes, tags, ids, hubs);
        r
    }

    /// A health summary of every node.
    pub fn health_report(&self) -> (r: HealthReport)
        ensures
            r.status@ == "healthy"@,
            r.service@ == "hyboard-bridge"@,
            r.nodes_count == self.node_list().len(),
            r.nodes@.len() == self.node_list().len(),
            forall|i: int|
                #![trigger r.nodes@[i]]
                0 <= i < r.nodes@.len() ==> {
                    let n = self.node_list()[i];
                    &&& r.nodes@[i].tag@ == n.tag@
                    &&& r.nodes@[i].node_id == n.node_id
                    &&& r.nodes@[i].api_host@ == n.api_host@
                    &&& r.nodes@[i].active_users == n.users().len()
                    &&& r.nodes@[i].traffic_url@ == n.hysteria_traffic_url@
                },
    {
        let mut nodes: Vec<NodeHealth> = Vec::new();
        let n = self.nodes.len();
        for i in 0..n
            invariant
                n == self.node_list().len(),
                nodes@.len() == i,
                forall|j: int|
                    #![trigger nodes@[j]]
                    0 <= j < i ==> {
                        let nd = self.node_list()[j];
                        &&& nodes@[j].tag@ == nd.tag@
                        &&& nodes@[j].node_id == nd.node_id
                        &&& nodes@[j].api_host@ == nd.api_host@
                        &&& nodes@[j].active_users == nd.users().len()
                        &&& nodes@[j].traffic_url@ == nd.hysteria_traffic_url@
                    },
        {
            let node = &self.nodes[i];
            nodes.push(NodeHealth {
                tag: node.tag.clone(),
                node_id: node.node_id,
                api_host: node.api_host.clone(),
                active_users: node.traffic_collector.user_manager().user_count(),
                traffic_url: node.hysteria_traffic_url.clone(),
            });
        }
        HealthReport {
            status: "healthy".to_string(),
            service: "hyboard-bridge".to_string(),
            nodes_count: n,
            nodes,
        }
    }
}


// ---------------------------------------------------------------------------
// Laws
// ---------------------------------------------------------------------------

/// Routing over `order` finds a node exactly when a node named in `order`
/// knows the key, and what it finds is that node's answer.
proof fn lemma_route(order: Seq<usize>, users: Seq<Map<Seq<char>, UserRecord>>, key: Seq<char>)
    ensures
        route(order, users, key) is Some <==> exists|t: int|
            0 <= t < order.len() && order[t] < users.len()
                && (#[trigger] lookup_token(users[order[t] as int], key)) is Some,
        route(order, users, key) matches Some((j, u)) ==> {
            &&& j < users.len()
            &&& order.contains(j)
            &&& lookup_token(users[j as int], key) == Some(u)
        },
    decreases order.len(),
{
    if order.len() > 0 {
        let rest = order.drop_first();
        lemma_route(rest, users, key);
        if exists|t: int|
            0 <= t < order.len() && order[t] < users.len()
                && (#[trigger] lookup_token(users[order[t] as int], key)) is Some {
            let t = choose|t: int|
                0 <= t < order.len() && order[t] < users.len()
                    && (#[trigger] lookup_token(users[order[t] as int], key)) is Some;
            if t > 0 {
                assert(rest[t - 1] == order[t]);
            }
        }
        if exists|t: int|
            0 <= t < rest.len() && rest[t] < users.len()
                && (#[trigger] lookup_token(users[rest[t] as int], key)) is Some {
            let t = choose|t: int|
                0 <= t < rest.len() && rest[t] < users.len()
                    && (#[trigger] lookup_token(users[rest[t] as int], key)) is Some;
            assert(order[t + 1] == rest[t]);
        }
        if let Some((j, _u)) = route(rest, users, key) {
            let t = choose|t: int| 0 <= t < rest.len() && rest[t] == j;
            assert(order[t + 1] == j);
        }
        assert(order[0] == order[0]);
    }
}

/// Looking up an already trimmed token is looking up the token.
proof fn lemma_lookup_trimmed(users: Map<Seq<char>, UserRecord>, token: Seq<char>)
    ensures
        lookup_token(users, trim(token)) == lookup_token(users, token),
{
    crate::text::lemma_trim_is_trimmed(token);
    crate::text::lemma_trim_of_trimmed(trim(token));
}

/// Without a node key, a token is accepted exactly when some node's
/// whitelist accepts it, and the user returned is the one that the first such
/// node holds.
pub proof fn law_universal_auth_accepts_any_node(
    users: Seq<Map<Seq<char>, UserRecord>>,
    tags: Map<Seq<char>, usize>,
    ids: Map<u32, usize>,
    token: Seq<char>,
)
    requires
        users.len() <= usize::MAX,
    ensures
        registry_lookup(users, tags, ids, None, token) is Some <==> exists|i: int|
            0 <= i < users.len() && (#[trigger] lookup_token(users[i], token)) is Some,
        registry_lookup(users, tags, ids, None, token) matches Some(u) ==> exists|i: int|
            {
                &&& 0 <= i < users.len()
                &&& lookup_token(users[i], token) == Some(u)
                &&& forall|p: int| 0 <= p < i ==> (#[trigger] lookup_token(users[p], token)) is None
            },
{
    let order = positions(users.len());
    let auth = trim(token);
    lemma_route(order, users, auth);
    assert forall|i: int| 0 <= i < users.len() implies #[trigger] lookup_token(users[i], auth)
        == lookup_token(users[i], token) by {
        lemma_lookup_trimmed(users[i], token);
    }
    if exists|i: int| 0 <= i < users.len() && (#[trigger] lookup_token(users[i], token)) is Some {
        let i = choose|i: int| 0 <= i < users.len() && (#[trigger] lookup_token(users[i], token)) is Some;
        assert(order[i] == i);
        assert(lookup_token(users[order[i] as int], auth) is Some);
    }
    if route(order, users, auth) is Some {
        let t = choose|t: int|
            0 <= t < order.len() && order[t] < users.len()
                && (#[trigger] lookup_token(users[order[t] as int], auth)) is Some;
        assert(order[t] == t);
        assert(lookup_token(users[t], token) is Some);
    }
    if let Some((j, u)) = route(order, users, auth) {
        lemma_route_first(order, users, auth, 0);
        assert(order.skip(0) =~= order);
        assert(lookup_token(users[j as int], token) == Some(u));
        assert forall|p: int| 0 <= p < j implies (#[trigger] lookup_token(users[p], token)) is None by {
            assert(lookup_token(users[p], auth) is None);
        }
    }
}

/// Over the positions from `s` on, routing answers with the first position
/// whose whitelist knows the key.
proof fn lemma_route_first(order: Seq<usize>, users: Seq<Map<Seq<char>, UserRecord>>, key: Seq<char>, s: int)
    requires
        order == positions(users.len()),
        users.len() <= usize::MAX,
        0 <= s <= users.len(),
    ensures
        route(order.skip(s), users, key) matches Some((j, u)) ==> {
            &&& s <= j < users.len()
            &&& lookup_token(users[j as int], key) == Some(u)
            &&& forall|p: int| s <= p < j ==> (#[trigger] lookup_token(users[p], key)) is None
        },
    decreases users.len() - s,
{
    if s < users.len() {
        let rest = order.skip(s);
        assert(rest[0] == s);
        assert(rest.drop_first() =~= order.skip(s + 1));
        lemma_route_first(order, users, key, s + 1);
    } else {
        assert(order.skip(s) =~= Seq::<usize>::empty());
    }
}

/// With a node key that is a node's tag, only that node's whitelist is
/// asked: the answer is exactly that node's answer, whatever the other nodes
/// hold.
pub proof fn law_targeted_auth_asks_only_that_node(
    users: Seq<Map<Seq<char>, UserRecord>>,
    tags: Map<Seq<char>, usize>,
    ids: Map<u32, usize>,
    key: Seq<char>,
    token: Seq<char>,
)
    requires
        tags.contains_key(trim(key)),
        tags[trim(key)] < users.len(),
    ensures
        registry_lookup(users, tags, ids, Some(key), token) == lookup_token(
            users[tags[trim(key)] as int],
            token,
        ),
{
    lemma_lookup_trimmed(users[tags[trim(key)] as int], token);
}


/// Whether some entry of `stats` that moved is routed to node `j`.
pub open spec fn routes_to(
    users: Seq<Map<Seq<char>, UserRecord>>,
    order: Seq<usize>,
    hub_snapshot: Map<Seq<char>, TrafficRecord>,
    stats: Seq<(Seq<char>, TrafficRecord)>,
    j: int,
) -> bool
    decreases stats.len(),
{
    if stats.len() == 0 {
        false
    } else {
        routes_to(users, order, hub_snapshot, stats.drop_last(), j) || (moved(
            hub_snapshot,
            stats.last().0,
            stats.last().1,
        ) && (route(order, users, stats.last().0) matches Some((k, _)) && k == j))
    }
}

/// Routing a report keeps every node's snapshot, and leaves the buffer of a
/// node to which no moved entry is routed exactly as it was: an entry that
/// did not move, or that no hub node knows, reaches no node.
pub proof fn law_dispatch_touches_only_owners(
    buffers: Seq<BufferState>,
    users: Seq<Map<Seq<char>, UserRecord>>,
    order: Seq<usize>,
    hub_snapshot: Map<Seq<char>, TrafficRecord>,
    stats: Seq<(Seq<char>, TrafficRecord)>,
)
    requires
        buffers.len() == users.len(),
    ensures
        dispatch(buffers, users, order, hub_snapshot, stats).len() == buffers.len(),
        forall|j: int|
            0 <= j < buffers.len() ==> (#[trigger] dispatch(buffers, users, order, hub_snapshot, stats)[j]).snapshot
                == buffers[j].snapshot,
        forall|j: int|
            0 <= j < buffers.len() && !routes_to(users, order, hub_snapshot, stats, j) ==> #[trigger] dispatch(
                buffers,
                users,
                order,
                hub_snapshot,
                stats,
            )[j] == buffers[j],
    decreases stats.len(),
{
    if stats.len() > 0 {
        let q = stats.drop_last();
        law_dispatch_touches_only_owners(buffers, users, order, hub_snapshot, q);
        lemma_route(order, users, stats.last().0);
    }
}


/// How a registry routes a node key: a key (trimmed) that is a node's tag
/// asks only that node, with no fallback; else a key that parses as a node's
/// ID asks only that node; any other key asks every node in order, as no key
/// does.
pub proof fn law_node_key_routing(r: NodeRegistry, key: Seq<char>, token: Seq<char>)
    requires
        r.well_formed(),
    ensures
        r.tags().contains_key(trim(key)) ==> registry_lookup(
            whitelists(r.node_list()),
            r.tags(),
            r.ids(),
            Some(key),
            token,
        ) == lookup_token(r.node_list()[r.tags()[trim(key)] as int].users(), token),
        !r.tags().contains_key(trim(key)) && parse_u32_spec(trim(key)) is Some && r.ids().contains_key(
            parse_u32_spec(trim(key))->0,
        ) ==> registry_lookup(whitelists(r.node_list()), r.tags(), r.ids(), Some(key), token)
            == lookup_token(r.node_list()[r.ids()[parse_u32_spec(trim(key))->0] as int].users(), token),
        !r.tags().contains_key(trim(key)) && !(parse_u32_spec(trim(key)) is Some && r.ids().contains_key(
            parse_u32_spec(trim(key))->0,
        )) ==> registry_lookup(whitelists(r.node_list()), r.tags(), r.ids(), Some(key), token)
            == registry_lookup(whitelists(r.node_list()), r.tags(), r.ids(), None, token),
{
    let users = whitelists(r.node_list());
    let k = trim(key);
    if r.tags().contains_key(k) {
        lemma_lookup_trimmed(users[r.tags()[k] as int], token);
    } else if parse_u32_spec(k) is Some && r.ids().contains_key(parse_u32_spec(k)->0) {
        lemma_lookup_trimmed(users[r.ids()[parse_u32_spec(k)->0] as int], token);
    }
}


/// The upload (`rx`, where `upload`) or download (`tx`) growth, since the
/// hub's snapshot, of the entries of `stats` that are routed to node `j` for
/// user `id`.
pub open spec fn routed_growth(
    users: Seq<Map<Seq<char>, UserRecord>>,
    order: Seq<usize>,
    hub_snapshot: Map<Seq<char>, TrafficRecord>,
    stats: Seq<(Seq<char>, TrafficRecord)>,
    j: int,
    id: u32,
    upload: bool,
) -> nat
    decreases stats.len(),
{
    if stats.len() == 0 {
        0
    } else {
        let (key, now) = stats.last();
        routed_growth(users, order, hub_snapshot, stats.drop_last(), j, id, upload) + if route(order, users, key) matches Some((k, u)) && k == j && u.id == id {
            if upload {
                growth(now.rx, last_seen(hub_snapshot, key).0)
            } else {
                growth(now.tx, last_seen(hub_snapshot, key).1)
            }
        } else {
            0nat
        }
    }
}

/// The entries of `stats` that some hub node knows and whose upload or
/// download counter grew since the hub's snapshot.
pub open spec fn owned_growing_entries(
    users: Seq<Map<Seq<char>, UserRecord>>,
    order: Seq<usize>,
    hub_snapshot: Map<Seq<char>, TrafficRecord>,
    stats: Seq<(Seq<char>, TrafficRecord)>,
) -> nat
    decreases stats.len(),
{
    if stats.len() == 0 {
        0
    } else {
        let (key, now) = stats.last();
        owned_growing_entries(users, order, hub_snapshot, stats.drop_last()) + if route(order, users, key) is Some
            && (growth(now.rx, last_seen(hub_snapshot, key).0) > 0 || growth(now.tx, last_seen(hub_snapshot, key).1) > 0) {
            1nat
        } else {
            0nat
        }
    }
}

/// A hub report credits each node, user by user and in each direction, with
/// the growth of the counters routed to it: the node's pending upload for a
/// user becomes what was pending plus the `rx` growth of the entries routed
/// to that node for that user (the download likewise with `tx`), capped at
/// `u64::MAX`; an entry counts as routed when a hub node knows it and its
/// upload or its download grew.
pub proof fn law_hub_credits_growth(
    buffers: Seq<BufferState>,
    users: Seq<Map<Seq<char>, UserRecord>>,
    order: Seq<usize>,
    hub_snapshot: Map<Seq<char>, TrafficRecord>,
    stats: Seq<(Seq<char>, TrafficRecord)>,
    j: int,
    id: u32,
)
    requires
        buffers.len() == users.len(),
        0 <= j < buffers.len(),
    ensures
        pending_of(dispatch(buffers, users, order, hub_snapshot, stats)[j].pending, id).0 == saturate(
            pending_of(buffers[j].pending, id).0 as nat + routed_growth(users, order, hub_snapshot, stats, j, id, true),
        ),
        pending_of(dispatch(buffers, users, order, hub_snapshot, stats)[j].pending, id).1 == saturate(
            pending_of(buffers[j].pending, id).1 as nat + routed_growth(users, order, hub_snapshot, stats, j, id, false),
        ),
        routed_entries(users, order, hub_snapshot, stats) == owned_growing_entries(users, order, hub_snapshot, stats),
    decreases stats.len(),
{
    if stats.len() > 0 {
        let q = stats.drop_last();
        law_hub_credits_growth(buffers, users, order, hub_snapshot, q, j, id);
        law_dispatch_touches_only_owners(buffers, users, order, hub_snapshot, q);
        lemma_route(order, users, stats.last().0);
    }
}


/// Where nodes share a tag or a node ID, the index names the last of them:
/// an indexed key maps to a position holding that key, after which no node
/// holds it; a key no node holds is not indexed.
pub proof fn law_later_node_wins<K>(keys: Seq<K>, k: K)
    requires
        keys.len() <= usize::MAX,
    ensures
        last_positions(keys).contains_key(k) <==> keys.contains(k),
        keys.contains(k) ==> {
            let p = last_positions(keys)[k] as int;
            &&& 0 <= p < keys.len()
            &&& keys[p] == k
            &&& forall|j: int| p < j < keys.len() ==> keys[j] != k
        },
    decreases keys.len(),
{
    if keys.contains(k) {
        lemma_last_position(keys, k);
        if keys.last() != k {
            let q = keys.drop_last();
            let i = choose|i: int| 0 <= i < keys.len() && keys[i] == k;
            assert(i < keys.len() - 1);
            assert(q[i] == k);
            law_later_node_wins(q, k);
            assert forall|j: int| last_positions(keys)[k] < j < keys.len() implies keys[j] != k by {
                if j < keys.len() - 1 {
                    assert(keys[j] == q[j]);
                }
            }
        }
    }
}

} // verus!
