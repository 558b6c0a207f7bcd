//! Traffic delta calculation and buffering for the panel.
//!
//! Hysteria 2 reports cumulative per-user counters. The collector keeps the
//! last snapshot of them, turns each new snapshot into per-user increments
//! (treating a counter that went down as a restart of the core), and
//! accumulates the increments until the panel acknowledges a push.
use crate::strmap::{distinct_keys, lemma_pairs_to_map, pairs_to_map, StrMap};
use crate::text::{decimal, decimal_chars, lemma_parse_decimal, parse_u32_spec, parse_u32_str, string_of};
use crate::user::{lookup_token, UserInfo, UserManager, UserRecord};
use std::collections::HashMap;
use vstd::std_specs::iter::IteratorSpec;
use vstd::prelude::*;

verus! {

broadcast use vstd::std_specs::hash::group_hash_axioms;

/// Raw traffic counters reported by Hysteria 2 for one user.
#[derive(Debug, Clone, Copy, PartialEq, Eq)]
pub struct TrafficRecord {
    /// Sent by the server to the client (the user's download).
    pub tx: u64,
    /// Received by the server from the client (the user's upload).
    pub rx: u64,
}

impl Default for TrafficRecord {
    fn default() -> (r: Self)
        ensures
            r.tx == 0 && r.rx == 0,
    {
        TrafficRecord { tx: 0, rx: 0 }
    }
}

/// Increment of a cumulative counter: the difference, or the whole new value
/// where the counter went down (the core restarted).
pub open spec fn counter_delta(current: u64, last: u64) -> u64 {
    if current >= last {
        (current - last) as u64
    } else {
        current
    }
}

/// The counters last seen under `key`, or zero counters.
pub open spec fn last_record(snapshot: Map<Seq<char>, TrafficRecord>, key: Seq<char>) -> TrafficRecord {
    if snapshot.contains_key(key) {
        snapshot[key]
    } else {
        TrafficRecord { tx: 0, rx: 0 }
    }
}

/// The user a traffic key belongs to: a key that parses as a `u32` is the
/// user ID itself; any other key is looked up as a UUID in the whitelist.
pub open spec fn resolve_user(users: Map<Seq<char>, UserRecord>, key: Seq<char>) -> Option<u32> {
    match parse_u32_spec(key) {
        Some(id) => Some(id),
        None => match lookup_token(users, key) {
            Some(u) => Some(u.id),
            None => None,
        },
    }
}

/// What one entry of a traffic report adds: the user ID with the upload and
/// download increments, when the user is known and something changed.
pub open spec fn contribution(
    users: Map<Seq<char>, UserRecord>,
    snapshot: Map<Seq<char>, TrafficRecord>,
    key: Seq<char>,
    current: TrafficRecord,
) -> Option<(u32, u64, u64)> {
    match resolve_user(users, key) {
        None => None,
        Some(id) => {
            let last = last_record(snapshot, key);
            let upload = counter_delta(current.rx, last.rx);
            let download = counter_delta(current.tx, last.tx);
            if upload > 0 || download > 0 {
                Some((id, upload, download))
            } else {
                None
            }
        },
    }
}

/// `pending` after adding the contributions of `stats`, in order, with
/// saturating addition.
pub open spec fn accrue(
    pending: Map<u32, (u64, u64)>,
    users: Map<Seq<char>, UserRecord>,
    snapshot: Map<Seq<char>, TrafficRecord>,
    stats: Seq<(Seq<char>, TrafficRecord)>,
) -> Map<u32, (u64, u64)>
    decreases stats.len(),
{
    if stats.len() == 0 {
        pending
    } else {
        let p = accrue(pending, users, snapshot, stats.drop_last());
        match contribution(users, snapshot, stats.last().0, stats.last().1) {
            None => p,
            Some((id, up, down)) => {
                let before = if p.contains_key(id) {
                    p[id]
                } else {
                    (0u64, 0u64)
                };
                p.insert(id, (before.0.saturating_add(up), before.1.saturating_add(down)))
            },
        }
    }
}

/// Number of entries of `stats` that contribute.
pub open spec fn active_entries(
    users: Map<Seq<char>, UserRecord>,
    snapshot: Map<Seq<char>, TrafficRecord>,
    stats: Seq<(Seq<char>, TrafficRecord)>,
) -> nat
    decreases stats.len(),
{
    if stats.len() == 0 {
        0
    } else {
        active_entries(users, snapshot, stats.drop_last()) + if contribution(
            users,
            snapshot,
            stats.last().0,
            stats.last().1,
        ) is Some {
            1nat
        } else {
            0nat
        }
    }
}

/// No user has an all-zero pending entry.
pub open spec fn no_zero_entries(pending: Map<u32, (u64, u64)>) -> bool {
    forall|id: u32| #[trigger] pending.contains_key(id) ==> pending[id] != (0u64, 0u64)
}

/// `pending` after crediting user `id` with `upload` and `download` bytes
/// (saturating); an all-zero increment changes nothing.
pub open spec fn credit(pending: Map<u32, (u64, u64)>, id: u32, upload: u64, download: u64) -> Map<
    u32,
    (u64, u64),
> {
    if upload == 0 && download == 0 {
        pending
    } else {
        let before = if pending.contains_key(id) {
            pending[id]
        } else {
            (0u64, 0u64)
        };
        pending.insert(id, (before.0.saturating_add(upload), before.1.saturating_add(download)))
    }
}

/// The user ID whose decimal representation is `k`.
pub open spec fn payload_id(k: Seq<char>) -> Option<u32> {
    match parse_u32_spec(k) {
        Some(id) => if decimal(id as nat) == k {
            Some(id)
        } else {
            None
        },
        None => None,
    }
}

/// The push payload for `pending`: `"<user_id>" -> [upload, download]` for
/// each user with something pending.
pub open spec fn payload_of(pending: Map<u32, (u64, u64)>) -> Map<Seq<char>, Seq<u64>> {
    Map::new(
        |k: Seq<char>|
            payload_id(k) matches Some(id) && pending.contains_key(id) && pending[id] != (
                0u64,
                0u64,
            ),
        |k: Seq<char>| seq![pending[payload_id(k)->0].0, pending[payload_id(k)->0].1],
    )
}

/// `pending` after subtracting each pushed entry of `pushed`, in order, from
/// the user whose ID its key parses to (saturating at zero); an entry that
/// reaches zero in both directions is dropped.
pub open spec fn settle(pending: Map<u32, (u64, u64)>, pushed: Seq<(Seq<char>, [u64; 2])>) -> Map<
    u32,
    (u64, u64),
>
    decreases pushed.len(),
{
    if pushed.len() == 0 {
        pending
    } else {
        let p = settle(pending, pushed.drop_last());
        let (k, v) = pushed.last();
        match parse_u32_spec(k) {
            Some(id) => if p.contains_key(id) {
                let e = (p[id].0.saturating_sub(v@[0]), p[id].1.saturating_sub(v@[1]));
                if e == (0u64, 0u64) {
                    p.remove(id)
                } else {
                    p.insert(id, e)
                }
            } else {
                p
            },
            None => p,
        }
    }
}

/// Sum of the upload (first) or download (second) components.
pub open spec fn sum_component(s: Seq<(u32, (u64, u64))>, first: bool) -> nat
    decreases s.len(),
{
    if s.len() == 0 {
        0
    } else {
        sum_component(s.drop_last(), first) + if first {
            s.last().1.0 as nat
        } else {
            s.last().1.1 as nat
        }
    }
}

/// An enumeration of the entries of `p`: each once, in some order.
pub open spec fn enumerates(s: Seq<(u32, (u64, u64))>, p: Map<u32, (u64, u64)>) -> bool {
    s.no_duplicates() && s.to_set() == p.kv_pairs()
}

/// Total upload (`first`) or download bytes pending over all users.
pub open spec fn pending_total(p: Map<u32, (u64, u64)>, first: bool) -> nat {
    sum_component(choose|s: Seq<(u32, (u64, u64))>| enumerates(s, p), first)
}

/// Removing one entry takes exactly its amount off the sum.
proof fn lemma_sum_remove(s: Seq<(u32, (u64, u64))>, k: int, first: bool)
    requires
        0 <= k < s.len(),
    ensures
        sum_component(s.remove(k), first) + (if first {
            s[k].1.0 as nat
        } else {
            s[k].1.1 as nat
        }) == sum_component(s, first),
    decreases s.len(),
{
    if k == s.len() - 1 {
        assert(s.remove(k) =~= s.drop_last());
    } else {
        lemma_sum_remove(s.drop_last(), k, first);
        let r = s.remove(k);
        assert(r.drop_last() =~= s.drop_last().remove(k));
        assert(r.last() == s.last());
    }
}

/// Two enumerations of the same entries have the same sums.
proof fn lemma_sum_permutation(s1: Seq<(u32, (u64, u64))>, s2: Seq<(u32, (u64, u64))>, first: bool)
    requires
        s1.no_duplicates(),
        s2.no_duplicates(),
        s1.to_set() == s2.to_set(),
    ensures
        sum_component(s1, first) == sum_component(s2, first),
    decreases s1.len(),
{
    if s1.len() == 0 {
        if s2.len() > 0 {
            assert(s2.to_set().contains(s2[0]));
        }
    } else {
        let x = s1.last();
        assert(s1.to_set().contains(x));
        assert(s2.contains(x));
        let k = choose|k: int| 0 <= k < s2.len() && s2[k] == x;
        let t1 = s1.drop_last();
        let t2 = s2.remove(k);
        assert(t1.no_duplicates());
        assert(t2.no_duplicates()) by {
            assert forall|a: int, b: int| 0 <= a < t2.len() && 0 <= b < t2.len() && a != b implies t2[a] != t2[b] by {
                let a2 = if a < k { a } else { a + 1 };
                let b2 = if b < k { b } else { b + 1 };
                assert(t2[a] == s2[a2] && t2[b] == s2[b2]);
            }
        }
        assert(t1.to_set() =~= t2.to_set()) by {
            assert forall|y: (u32, (u64, u64))| #[trigger] t1.to_set().contains(y) <==> t2.to_set().contains(y) by {
                if t1.contains(y) {
                    let i = choose|i: int| 0 <= i < t1.len() && t1[i] == y;
                    assert(s1[i] == y);
                    assert(y != x);
                    assert(s2.to_set().contains(y));
                    let j = choose|j: int| 0 <= j < s2.len() && s2[j] == y;
                    assert(j != k);
                    if j < k {
                        assert(t2[j] == y);
                    } else {
                        assert(t2[j - 1] == y);
                    }
                }
                if t2.contains(y) {
                    let j = choose|j: int| 0 <= j < t2.len() && t2[j] == y;
                    let j2 = if j < k { j } else { j + 1 };
                    assert(s2[j2] == y);
                    assert(j2 != k);
                    assert(y != x);
                    assert(s1.to_set().contains(y));
                    let i = choose|i: int| 0 <= i < s1.len() && s1[i] == y;
                    assert(i != s1.len() - 1);
                    assert(t1[i] == y);
                }
            }
        }
        lemma_sum_permutation(t1, t2, first);
        lemma_sum_remove(s2, k, first);
    }
}

/// Any enumeration of the entries gives the pending totals.
pub proof fn lemma_pending_total(p: Map<u32, (u64, u64)>, s: Seq<(u32, (u64, u64))>)
    requires
        enumerates(s, p),
    ensures
        sum_component(s, true) == pending_total(p, true),
        sum_component(s, false) == pending_total(p, false),
{
    let c = choose|s: Seq<(u32, (u64, u64))>| enumerates(s, p);
    lemma_sum_permutation(s, c, true);
    lemma_sum_permutation(s, c, false);
}

pub open spec fn saturate(n: nat) -> u64 {
    if n > u64::MAX {
        u64::MAX
    } else {
        n as u64
    }
}

pub proof fn lemma_payload_key(id: u32)
    ensures
        payload_id(decimal(id as nat)) == Some(id),
{
    lemma_parse_decimal(id as nat, u32::MAX as nat);
}

/// Adding one more user to the part of `pending` that a payload covers adds
/// that user's entry, if it is not all zero.
pub proof fn lemma_payload_step(pend: Map<u32, (u64, u64)>, seen: Set<u32>, id: u32)
    requires
        pend.contains_key(id),
    ensures
        payload_of(pend.restrict(seen.insert(id))) == (if pend[id] != (0u64, 0u64) {
            payload_of(pend.restrict(seen)).insert(
                decimal(id as nat),
                seq![pend[id].0, pend[id].1],
            )
        } else {
            payload_of(pend.restrict(seen))
        }),
{
    lemma_payload_key(id);
    let a = payload_of(pend.restrict(seen.insert(id)));
    let b = if pend[id] != (0u64, 0u64) {
        payload_of(pend.restrict(seen)).insert(decimal(id as nat), seq![pend[id].0, pend[id].1])
    } else {
        payload_of(pend.restrict(seen))
    };
    assert forall|k: Seq<char>| #[trigger] a.contains_key(k) <==> b.contains_key(k) by {
        if a.contains_key(k) && payload_id(k) == Some(id) {
            assert(k == decimal(id as nat));
        }
    }
    assert forall|k: Seq<char>| #[trigger] a.contains_key(k) implies a[k] == b[k] by {
        if payload_id(k) == Some(id) {
            assert(k == decimal(id as nat));
        }
    }
    assert(a =~= b);
}

/// Thread-safe traffic collector and delta accumulator.
pub struct TrafficCollector {
    /// URL of the Hysteria 2 traffic statistics API.
    hysteria_url: String,
    /// The node's whitelist, for resolving UUIDs to user IDs.
    user_manager: UserManager,
    /// Last seen counters: identifier -> counters.
    last_snapshot: StrMap<TrafficRecord>,
    /// Accumulated unpushed increments: user ID -> (upload, download).
    pending_deltas: HashMap<u32, (u64, u64)>,
}

impl TrafficCollector {
    pub closed spec fn url(&self) -> Seq<char> {
        self.hysteria_url@
    }

    pub closed spec fn users(&self) -> Map<Seq<char>, UserRecord> {
        self.user_manager.users()
    }

    pub closed spec fn ids(&self) -> Map<u32, Seq<char>> {
        self.user_manager.ids()
    }

    /// The last counters seen, by identifier.
    pub closed spec fn snapshot(&self) -> Map<Seq<char>, TrafficRecord> {
        self.last_snapshot@
    }

    /// The increments not yet acknowledged by the panel.
    pub closed spec fn pending(&self) -> Map<u32, (u64, u64)> {
        self.pending_deltas@
    }

    /// Pending entries are never all zero.
    #[verifier::type_invariant]
    pub closed spec fn pending_is_nonzero(&self) -> bool {
        no_zero_entries(self.pending_deltas@)
    }

    /// Creates a collector with no snapshot and nothing pending.
    pub fn new(hysteria_url: String, user_manager: UserManager) -> (c: Self)
        ensures
            c.url() == hysteria_url@,
            c.users() == user_manager.users(),
            c.ids() == user_manager.ids(),
            c.snapshot() == Map::<Seq<char>, TrafficRecord>::empty(),
            c.pending() == Map::<u32, (u64, u64)>::empty(),
            no_zero_entries(c.pending()),
    {
        TrafficCollector {
            hysteria_url,
            user_manager,
            last_snapshot: StrMap::new(),
            pending_deltas: HashMap::new(),
        }
    }

    /// The whitelist used to resolve UUIDs.
    pub fn user_manager(&self) -> (m: &UserManager)
        ensures
            m.users() == self.users(),
            m.ids() == self.ids(),
    {
        &self.user_manager
    }

    /// The URL of the Hysteria 2 traffic statistics API.
    pub fn hysteria_url(&self) -> (u: &String)
        ensures
            u@ == self.url(),
    {
        &self.hysteria_url
    }

    /// Synchronizes the whitelist used to resolve UUIDs (see
    /// `UserManager::update_users`).
    pub fn update_users(&mut self, new_users: Vec<UserInfo>) -> (r: (usize, usize))
        ensures
            final(self).users() == crate::user::synced_whitelist(
                new_users@.map_values(|u: UserInfo| u@),
            ),
            final(self).ids() == crate::user::synced_id_index(new_users@.map_values(|u: UserInfo| u@)),
            r.0 == crate::user::uuid_keys(new_users@.map_values(|u: UserInfo| u@)).len(),
            r.1 == crate::user::changes(old(self).users(), new_users@.map_values(|u: UserInfo| u@)),
            final(self).url() == old(self).url(),
            final(self).snapshot() == old(self).snapshot(),
            final(self).pending() == old(self).pending(),
            no_zero_entries(final(self).pending()),
    {
        proof {
            use_type_invariant(&*self);
        }
        let mut manager = UserManager::new();
        std::mem::swap(&mut manager, &mut self.user_manager);
        let r = manager.update_users(new_users);
        self.user_manager = manager;
        r
    }

    /// Turns a report of cumulative counters into increments and adds them to
    /// what is pending; the report becomes the new snapshot.
    ///
    /// Returns the number of report entries that contributed.
    pub fn process_raw_stats(&mut self, current_stats: StrMap<TrafficRecord>) -> (n: usize)
        ensures
            final(self).pending() == accrue(
                old(self).pending(),
                old(self).users(),
                old(self).snapshot(),
                current_stats.pairs(),
            ),
            n == active_entries(old(self).users(), old(self).snapshot(), current_stats.pairs()),
            final(self).snapshot() == current_stats@,
            no_zero_entries(final(self).pending()),
            final(self).users() == old(self).users(),
            final(self).ids() == old(self).ids(),
            final(self).url() == old(self).url(),
    {
        proof {
            use_type_invariant(&*self);
        }
        let ghost users = self.users();
        let ghost snap = self.snapshot();
        let ghost pend0 = self.pending();
        let ghost stats = current_stats.pairs();
        let mut pending = HashMap::new();
        std::mem::swap(&mut pending, &mut self.pending_deltas);
        let mut active_users: usize = 0;
        let n = current_stats.len();
        for i in 0..n
            invariant
                n == stats.len(),
                stats == current_stats.pairs(),
                users == self.user_manager.users(),
                snap == self.last_snapshot@,
                pending@ == accrue(pend0, users, snap, stats.take(i as int)),
                no_zero_entries(pending@),
                active_users as nat == active_entries(users, snap, stats.take(i as int)),
                active_users <= i,
        {
            let (user_key, current_record) = current_stats.entry_at(i);
            let ghost prefix = stats.take(i as int);
            let ghost next = stats.take(i + 1);
            assert(next.drop_last() =~= prefix);
            assert(next.last() == stats[i as int]);
            let user_id = match parse_u32_str(user_key.as_str()) {
                Some(id) => Some(id),
                None => self.user_manager.get_user_id_by_uuid(user_key.as_str()),
            };
            match user_id {
                None => {},
                Some(id) => {
                    let last = match self.last_snapshot.get(user_key.as_str()) {
                        Some(r) => *r,
                        None => TrafficRecord { tx: 0, rx: 0 },
                    };
                    let delta_tx = if current_record.tx >= last.tx {
                        current_record.tx - last.tx
                    } else {
                        current_record.tx
                    };
                    let delta_rx = if current_record.rx >= last.rx {
                        current_record.rx - last.rx
                    } else {
                        current_record.rx
                    };
                    if delta_tx > 0 || delta_rx > 0 {
                        let upload_bytes = delta_rx;
                        let download_bytes = delta_tx;
                        let before = match pending.get(&id) {
                            Some(e) => *e,
                            None => (0u64, 0u64),
                        };
                        pending.insert(
                            id,
                            (
                                before.0.saturating_add(upload_bytes),
                                before.1.saturating_add(download_bytes),
                            ),
                        );
                        active_users += 1;
                    }
                },
            }
        }
        assert(stats.take(n as int) =~= stats);
        self.pending_deltas = pending;
        self.last_snapshot = current_stats;
        active_users
    }

    /// A snapshot of what is pending, in the form the panel's push API takes:
    /// `"<user_id>" -> [upload, download]`.
    pub fn get_pending_payload(&self) -> (payload: StrMap<[u64; 2]>)
        ensures
            payload@.map_values(|v: [u64; 2]| v@) == payload_of(self.pending()),
            distinct_keys(payload.pairs()),
    {
        proof {
            use_type_invariant(self);
        }
        let ghost pend = self.pending();
        let mut payload: StrMap<[u64; 2]> = StrMap::new();
        let ghost mut seen: Set<u32> = Set::empty();
        let ghost all = vstd::std_specs::hash::spec_hash_map_iter(&self.pending_deltas).remaining();
        let ghost mut count: int = 0;
        for item in it: self.pending_deltas.iter()
            invariant
                pend == self.pending_deltas@,
                it.seq() == all,
                all == vstd::std_specs::hash::spec_hash_map_iter(&self.pending_deltas).remaining(),
                count == it.index(),
                seen == Set::new(|id: u32| exists|j: int| 0 <= j < count && *all[j].0 == id),
                payload@.map_values(|v: [u64; 2]| v@) == payload_of(pend.restrict(seen)),
        {
            let (id, pair) = item;
            let (u, d) = *pair;
            let ghost before = payload@;
            let ghost j = it.index();
            assert(it.seq()[j] == item);
            assert(pend.contains_key(*it.seq()[j].0) && pend[*it.seq()[j].0] == *it.seq()[j].1);
            proof {
                lemma_payload_step(pend, seen, *id);
            }
            if u > 0 || d > 0 {
                let key = string_of(&decimal_chars(*id as u64));
                payload.insert(key, [u, d]);
                assert([u, d]@ =~= seq![u, d]);
                assert(payload@.map_values(|v: [u64; 2]| v@) =~= before.map_values(
                    |v: [u64; 2]| v@,
                ).insert(decimal(*id as nat), seq![u, d]));
            }
            proof {
                let s2 = seen.insert(*id);
                seen = s2;
                count = count + 1;
                assert(seen =~= Set::new(
                    |x: u32| exists|jj: int| 0 <= jj < count && *all[jj].0 == x,
                )) by {
                    assert forall|x: u32| #[trigger] seen.contains(x) implies exists|jj: int|
                        0 <= jj < count && *all[jj].0 == x by {
                        if x == *id {
                            assert(*all[j].0 == x);
                        }
                    }
                }
            }
        }
        proof {
            assert forall|x: u32| #[trigger] pend.contains_key(x) implies seen.contains(x) by {
                assert(all.contains((&x, &pend[x])));
                let jj = choose|jj: int| 0 <= jj < all.len() && all[jj] == (&x, &pend[x]);
                assert(*all[jj].0 == x);
            }
            assert(pend.restrict(seen) =~= pend);
            use_type_invariant(&payload);
            payload.lemma_wf();
        }
        payload
    }

    /// Acknowledges that `pushed` reached the panel: subtracts each pushed
    /// entry from what is pending for its user (saturating at zero), and drops
    /// users left with nothing. Increments accumulated since the payload was
    /// taken stay pending.
    pub fn commit_pushed_payload(&mut self, pushed: &StrMap<[u64; 2]>)
        ensures
            final(self).pending() == settle(old(self).pending(), pushed.pairs()),
            no_zero_entries(final(self).pending()),
            final(self).snapshot() == old(self).snapshot(),
            final(self).users() == old(self).users(),
            final(self).ids() == old(self).ids(),
            final(self).url() == old(self).url(),
    {
        proof {
            use_type_invariant(&*self);
        }
        let ghost pend0 = self.pending();
        let ghost pairs = pushed.pairs();
        let mut pending = HashMap::new();
        std::mem::swap(&mut pending, &mut self.pending_deltas);
        let n = pushed.len();
        for i in 0..n
            invariant
                n == pairs.len(),
                pairs == pushed.pairs(),
                pending@ == settle(pend0, pairs.take(i as int)),
                no_zero_entries(pending@),
        {
            let (id_str, amounts) = pushed.entry_at(i);
            let ghost next = pairs.take(i + 1);
            assert(next.drop_last() =~= pairs.take(i as int));
            assert(next.last() == pairs[i as int]);
            match parse_u32_str(id_str.as_str()) {
                Some(user_id) => {
                    match pending.get(&user_id) {
                        Some(entry) => {
                            let e = *entry;
                            let up = e.0.saturating_sub(amounts[0]);
                            let down = e.1.saturating_sub(amounts[1]);
                            if up == 0 && down == 0 {
                                pending.remove(&user_id);
                            } else {
                                pending.insert(user_id, (up, down));
                            }
                        },
                        None => {},
                    }
                },
                None => {},
            }
        }
        assert(pairs.take(n as int) =~= pairs);
        self.pending_deltas = pending;
    }

    /// Total pending upload and download bytes across all users, each
    /// saturating at `u64::MAX`.
    pub fn total_pending_bytes(&self) -> (r: (u64, u64))
        ensures
            r.0 == saturate(pending_total(self.pending(), true)),
            r.1 == saturate(pending_total(self.pending(), false)),
    {
        let mut total_u: u64 = 0;
        let mut total_d: u64 = 0;
        let ghost mut walked: Seq<(u32, (u64, u64))> = Seq::empty();
        let ghost all = vstd::std_specs::hash::spec_hash_map_iter(&self.pending_deltas).remaining();
        for item in it: self.pending_deltas.iter()
            invariant
                it.seq() == all,
                all == vstd::std_specs::hash::spec_hash_map_iter(&self.pending_deltas).remaining(),
                all.no_duplicates(),
                walked == all.unref().take(it.index() as int),
                total_u == saturate(sum_component(walked, true)),
                total_d == saturate(sum_component(walked, false)),
        {
            let (id, pair) = item;
            let (u, d) = *pair;
            total_u = total_u.saturating_add(u);
            total_d = total_d.saturating_add(d);
            proof {
                let w2 = walked.push((*id, *pair));
                assert(w2.drop_last() =~= walked);
                assert(it.seq()[it.index()] == item);
                assert(w2 =~= all.unref().take(it.index() + 1));
                walked = w2;
            }
        }
        proof {
            let s = all.unref();
            assert(walked =~= s);
            assert(s.no_duplicates()) by {
                assert forall|a: int, b: int| 0 <= a < s.len() && 0 <= b < s.len() && a != b implies s[a] != s[b] by {
                    assert(all[a] != all[b]);
                }
            }
            assert(s.to_set() == self.pending().kv_pairs());
            lemma_pending_total(self.pending(), s);
        }
        (total_u, total_d)
    }

    /// After a push attempt: commits `payload` when the panel accepted it, and
    /// otherwise keeps everything pending for the next attempt.
    pub fn settle_push(&mut self, payload: &StrMap<[u64; 2]>, pushed: bool)
        ensures
            final(self).pending() == (if pushed {
                settle(old(self).pending(), payload.pairs())
            } else {
                old(self).pending()
            }),
            no_zero_entries(final(self).pending()),
            final(self).snapshot() == old(self).snapshot(),
            final(self).users() == old(self).users(),
            final(self).ids() == old(self).ids(),
            final(self).url() == old(self).url(),
    {
        proof {
            use_type_invariant(&*self);
        }
        if pushed {
            self.commit_pushed_payload(payload);
        }
    }

    /// The payload to flush at shutdown: `None` where nothing is pending for
    /// anyone (no push is needed), else the pending payload.
    pub fn flush_payload(&self) -> (r: Option<StrMap<[u64; 2]>>)
        ensures
            match r {
                None => payload_of(self.pending()).dom() == Set::<Seq<char>>::empty(),
                Some(p) => {
                    &&& p@.map_values(|v: [u64; 2]| v@) == payload_of(self.pending())
                    &&& p@.len() > 0
                },
            },
    {
        let p = self.get_pending_payload();
        if p.is_empty() {
            proof {
                use_type_invariant(&p);
                p.lemma_wf();
                vstd::set_lib::lemma_set_empty_equivalency_len(p@.dom());
                assert(p@.map_values(|v: [u64; 2]| v@).dom() =~= p@.dom());
            }
            None
        } else {
            Some(p)
        }
    }

    /// Credits user `id` with an increment computed elsewhere (by a core
    /// shared among nodes): adds it to what is pending for the user. The
    /// snapshot is left as it is.
    pub fn add_increment(&mut self, id: u32, upload: u64, download: u64)
        ensures
            final(self).pending() == credit(old(self).pending(), id, upload, download),
            no_zero_entries(final(self).pending()),
            final(self).snapshot() == old(self).snapshot(),
            final(self).users() == old(self).users(),
            final(self).ids() == old(self).ids(),
            final(self).url() == old(self).url(),
    {
        proof {
            use_type_invariant(&*self);
        }
        if upload == 0 && download == 0 {
            return;
        }
        let mut pending = HashMap::new();
        std::mem::swap(&mut pending, &mut self.pending_deltas);
        let before = match pending.get(&id) {
            Some(e) => *e,
            None => (0u64, 0u64),
        };
        pending.insert(id, (before.0.saturating_add(upload), before.1.saturating_add(download)));
        self.pending_deltas = pending;
    }
}


// ---------------------------------------------------------------------------
// Laws
// ---------------------------------------------------------------------------

/// What is left pending for a user after the payload taken at `taken` is
/// committed against `now`: the increase since the payload was taken (for a
/// user the payload covered), or everything (for a user it did not).
pub open spec fn increase_since(
    taken: Map<u32, (u64, u64)>,
    now: Map<u32, (u64, u64)>,
    id: u32,
) -> (u64, u64) {
    if taken.contains_key(id) {
        ((now[id].0 - taken[id].0) as u64, (now[id].1 - taken[id].1) as u64)
    } else {
        now[id]
    }
}

/// The pending map that committing the payload of `taken` leaves when the
/// buffer has meanwhile grown to `now`.
pub open spec fn left_after_commit(taken: Map<u32, (u64, u64)>, now: Map<u32, (u64, u64)>) -> Map<
    u32,
    (u64, u64),
> {
    Map::new(
        |id: u32| now.contains_key(id) && increase_since(taken, now, id) != (0u64, 0u64),
        |id: u32| increase_since(taken, now, id),
    )
}

/// `now` holds at least what `taken` holds, user by user.
pub open spec fn grown_from(taken: Map<u32, (u64, u64)>, now: Map<u32, (u64, u64)>) -> bool {
    forall|id: u32| #[trigger]
        taken.contains_key(id) ==> now.contains_key(id) && now[id].0 >= taken[id].0 && now[id].1
            >= taken[id].1
}

/// Facts about each entry of a payload's pairs.
proof fn lemma_payload_pairs(taken: Map<u32, (u64, u64)>, ps: Seq<(Seq<char>, [u64; 2])>)
    requires
        distinct_keys(ps),
        pairs_to_map(ps).map_values(|v: [u64; 2]| v@) == payload_of(taken),
    ensures
        forall|j: int|
            #![trigger ps[j]]
            0 <= j < ps.len() ==> {
                &&& payload_id(ps[j].0) is Some
                &&& parse_u32_spec(ps[j].0) == payload_id(ps[j].0)
                &&& taken.contains_key(payload_id(ps[j].0)->0)
                &&& ps[j].1@ == seq![
                    taken[payload_id(ps[j].0)->0].0,
                    taken[payload_id(ps[j].0)->0].1,
                ]
            },
        forall|a: int, b: int|
            0 <= a < ps.len() && 0 <= b < ps.len() && a != b ==> payload_id(#[trigger] ps[a].0)
                != payload_id(#[trigger] ps[b].0),
        forall|id: u32|
            #[trigger] taken.contains_key(id) && taken[id] != (0u64, 0u64) ==> exists|j: int|
                0 <= j < ps.len() && payload_id(ps[j].0) == Some(id),
{
    lemma_pairs_to_map(ps);
    let m = pairs_to_map(ps);
    assert forall|j: int| #![trigger ps[j]] 0 <= j < ps.len() implies {
        &&& payload_id(ps[j].0) is Some
        &&& parse_u32_spec(ps[j].0) == payload_id(ps[j].0)
        &&& taken.contains_key(payload_id(ps[j].0)->0)
        &&& ps[j].1@ == seq![taken[payload_id(ps[j].0)->0].0, taken[payload_id(ps[j].0)->0].1]
    } by {
        assert(m.contains_key(ps[j].0));
        assert(m.map_values(|v: [u64; 2]| v@).contains_key(ps[j].0));
        assert(m.map_values(|v: [u64; 2]| v@)[ps[j].0] == ps[j].1@);
    }
    assert forall|a: int, b: int|
        0 <= a < ps.len() && 0 <= b < ps.len() && a != b implies payload_id(#[trigger] ps[a].0)
        != payload_id(#[trigger] ps[b].0) by {
        assert(ps[a] == ps[a]);
        assert(ps[b] == ps[b]);
        if payload_id(ps[a].0) == payload_id(ps[b].0) {
            assert(ps[a].0 == decimal(payload_id(ps[a].0)->0 as nat));
            assert(ps[b].0 == decimal(payload_id(ps[b].0)->0 as nat));
        }
    }
    assert forall|id: u32| #[trigger] taken.contains_key(id) && taken[id] != (0u64, 0u64) implies exists|j: int|
        0 <= j < ps.len() && payload_id(ps[j].0) == Some(id) by {
        lemma_payload_key(id);
        let k = decimal(id as nat);
        assert(payload_of(taken).contains_key(k));
        assert(m.map_values(|v: [u64; 2]| v@).contains_key(k));
        assert(m.contains_key(k));
        let j = choose|j: int| 0 <= j < ps.len() && ps[j].0 == k;
        assert(payload_id(ps[j].0) == Some(id));
    }
}

/// The state after committing the first `n` entries of the payload.
proof fn lemma_settle_prefix(
    taken: Map<u32, (u64, u64)>,
    now: Map<u32, (u64, u64)>,
    ps: Seq<(Seq<char>, [u64; 2])>,
    n: int,
)
    requires
        0 <= n <= ps.len(),
        grown_from(taken, now),
        forall|j: int|
            #![trigger ps[j]]
            0 <= j < ps.len() ==> {
                &&& payload_id(ps[j].0) is Some
                &&& parse_u32_spec(ps[j].0) == payload_id(ps[j].0)
                &&& taken.contains_key(payload_id(ps[j].0)->0)
                &&& ps[j].1@ == seq![
                    taken[payload_id(ps[j].0)->0].0,
                    taken[payload_id(ps[j].0)->0].1,
                ]
            },
        forall|a: int, b: int|
            0 <= a < ps.len() && 0 <= b < ps.len() && a != b ==> payload_id(#[trigger] ps[a].0)
                != payload_id(#[trigger] ps[b].0),
    ensures
        settle(now, ps.take(n)) == Map::new(
            |id: u32|
                now.contains_key(id) && ((exists|j: int|
                    0 <= j < n && payload_id(ps[j].0) == Some(id)) ==> increase_since(taken, now, id)
                    != (0u64, 0u64)),
            |id: u32|
                if exists|j: int| 0 <= j < n && payload_id(ps[j].0) == Some(id) {
                    increase_since(taken, now, id)
                } else {
                    now[id]
                },
        ),
    decreases n,
{
    let goal = Map::new(
        |id: u32|
            now.contains_key(id) && ((exists|j: int| 0 <= j < n && payload_id(ps[j].0) == Some(id))
                ==> increase_since(taken, now, id) != (0u64, 0u64)),
        |id: u32|
            if exists|j: int| 0 <= j < n && payload_id(ps[j].0) == Some(id) {
                increase_since(taken, now, id)
            } else {
                now[id]
            },
    );
    if n == 0 {
        assert(ps.take(0) =~= Seq::<(Seq<char>, [u64; 2])>::empty());
        assert(settle(now, ps.take(0)) =~= goal);
    } else {
        lemma_settle_prefix(taken, now, ps, n - 1);
        let prev = settle(now, ps.take(n - 1));
        assert(ps.take(n).drop_last() =~= ps.take(n - 1));
        assert(ps.take(n).last() == ps[n - 1]);
        let (k, v) = ps[n - 1];
        let id = payload_id(k)->0;
        assert(ps[n - 1] == ps[n - 1]);
        assert(!(exists|j: int| 0 <= j < n - 1 && payload_id(ps[j].0) == Some(id))) by {
            if exists|j: int| 0 <= j < n - 1 && payload_id(ps[j].0) == Some(id) {
                let j = choose|j: int| 0 <= j < n - 1 && payload_id(ps[j].0) == Some(id);
                assert(ps[j] == ps[j]);
            }
        }
        assert(prev.contains_key(id));
        assert(prev[id] == now[id]);
        assert(v@[0] == taken[id].0);
        assert(v@[1] == taken[id].1);
        let cur = settle(now, ps.take(n));
        assert forall|x: u32| #[trigger] cur.contains_key(x) <==> goal.contains_key(x) by {
            if x != id {
                assert((exists|j: int| 0 <= j < n && payload_id(ps[j].0) == Some(x)) <==> (exists|j: int|
                    0 <= j < n - 1 && payload_id(ps[j].0) == Some(x)));
            } else {
                assert(payload_id(ps[n - 1].0) == Some(x));
            }
        }
        assert forall|x: u32| #[trigger] cur.contains_key(x) implies cur[x] == goal[x] by {
            if x != id {
                assert((exists|j: int| 0 <= j < n && payload_id(ps[j].0) == Some(x)) <==> (exists|j: int|
                    0 <= j < n - 1 && payload_id(ps[j].0) == Some(x)));
            } else {
                assert(payload_id(ps[n - 1].0) == Some(x));
            }
        }
        assert(cur =~= goal);
    }
}

/// `law_commit_keeps_later_traffic`, over the payload's entries.
proof fn lemma_commit_pairs(
    taken: Map<u32, (u64, u64)>,
    now: Map<u32, (u64, u64)>,
    ps: Seq<(Seq<char>, [u64; 2])>,
)
    requires
        distinct_keys(ps),
        pairs_to_map(ps).map_values(|v: [u64; 2]| v@) == payload_of(taken),
        no_zero_entries(taken),
        no_zero_entries(now),
        grown_from(taken, now),
    ensures
        settle(now, ps) == left_after_commit(taken, now),
{
    lemma_payload_pairs(taken, ps);
    lemma_settle_prefix(taken, now, ps, ps.len() as int);
    assert(ps.take(ps.len() as int) =~= ps);
    let a = settle(now, ps);
    let b = left_after_commit(taken, now);
    assert forall|id: u32| now.contains_key(id) implies #[trigger] taken.contains_key(id) <==> exists|j: int|
        0 <= j < ps.len() && payload_id(ps[j].0) == Some(id) by {
        if exists|j: int| 0 <= j < ps.len() && payload_id(ps[j].0) == Some(id) {
            let j = choose|j: int| 0 <= j < ps.len() && payload_id(ps[j].0) == Some(id);
            assert(ps[j] == ps[j]);
        }
    }
    assert forall|id: u32| #[trigger] a.contains_key(id) <==> b.contains_key(id) by {
        if now.contains_key(id) && taken.contains_key(id) {
            assert(taken[id] != (0u64, 0u64));
        }
    }
    assert forall|id: u32| #[trigger] a.contains_key(id) implies a[id] == b[id] by {
        if taken.contains_key(id) {
            assert(taken[id] != (0u64, 0u64));
        }
    }
    assert(a =~= b);
}

/// Committing a payload only takes away what it carried: when the buffer has
/// grown from `taken` (the state the payload was taken from) to `now`,
/// committing that payload leaves exactly the increase since it was taken.
pub proof fn law_commit_keeps_later_traffic(
    taken: Map<u32, (u64, u64)>,
    now: Map<u32, (u64, u64)>,
    payload: StrMap<[u64; 2]>,
)
    requires
        payload.well_formed(),
        payload@.map_values(|v: [u64; 2]| v@) == payload_of(taken),
        no_zero_entries(taken),
        no_zero_entries(now),
        grown_from(taken, now),
    ensures
        settle(now, payload.pairs()) == left_after_commit(taken, now),
{
    payload.lemma_wf();
    lemma_commit_pairs(taken, now, payload.pairs());
}

/// Committing the payload just taken empties the buffer.
pub proof fn law_commit_of_current_payload_empties(
    pending: Map<u32, (u64, u64)>,
    payload: StrMap<[u64; 2]>,
)
    requires
        payload.well_formed(),
        payload@.map_values(|v: [u64; 2]| v@) == payload_of(pending),
        no_zero_entries(pending),
    ensures
        settle(pending, payload.pairs()) == Map::<u32, (u64, u64)>::empty(),
{
    law_commit_keeps_later_traffic(pending, pending, payload);
    assert(left_after_commit(pending, pending) =~= Map::<u32, (u64, u64)>::empty());
}

/// Accumulating a report never takes anything away: every user keeps at
/// least what was pending.
pub proof fn law_accrue_only_grows(
    pending: Map<u32, (u64, u64)>,
    users: Map<Seq<char>, UserRecord>,
    snapshot: Map<Seq<char>, TrafficRecord>,
    stats: Seq<(Seq<char>, TrafficRecord)>,
)
    ensures
        grown_from(pending, accrue(pending, users, snapshot, stats)),
        no_zero_entries(pending) ==> no_zero_entries(accrue(pending, users, snapshot, stats)),
    decreases stats.len(),
{
    if stats.len() > 0 {
        law_accrue_only_grows(pending, users, snapshot, stats.drop_last());
    }
}


/// A report identical to the last one adds nothing: no counter moved.
pub proof fn law_repeated_report_adds_nothing(
    pending: Map<u32, (u64, u64)>,
    users: Map<Seq<char>, UserRecord>,
    stats: Seq<(Seq<char>, TrafficRecord)>,
)
    requires
        distinct_keys(stats),
    ensures
        accrue(pending, users, pairs_to_map(stats), stats) == pending,
        active_entries(users, pairs_to_map(stats), stats) == 0,
{
    lemma_pairs_to_map(stats);
    lemma_repeated_prefix(pending, users, stats, stats.len() as int);
    assert(stats.take(stats.len() as int) =~= stats);
}

proof fn lemma_repeated_prefix(
    pending: Map<u32, (u64, u64)>,
    users: Map<Seq<char>, UserRecord>,
    stats: Seq<(Seq<char>, TrafficRecord)>,
    m: int,
)
    requires
        distinct_keys(stats),
        0 <= m <= stats.len(),
    ensures
        accrue(pending, users, pairs_to_map(stats), stats.take(m)) == pending,
        active_entries(users, pairs_to_map(stats), stats.take(m)) == 0,
    decreases m,
{
    if m > 0 {
        lemma_repeated_prefix(pending, users, stats, m - 1);
        lemma_pairs_to_map(stats);
        let p = stats.take(m);
        assert(p.drop_last() =~= stats.take(m - 1));
        assert(p.last() == stats[m - 1]);
        assert(pairs_to_map(stats).contains_key(stats[m - 1].0));
    } else {
        assert(stats.take(0) =~= Seq::<(Seq<char>, TrafficRecord)>::empty());
    }
}


/// Whether some entry of `stats` contributes to user `id`.
pub open spec fn contributes_to(
    users: Map<Seq<char>, UserRecord>,
    snapshot: Map<Seq<char>, TrafficRecord>,
    stats: Seq<(Seq<char>, TrafficRecord)>,
    id: u32,
) -> bool
    decreases stats.len(),
{
    if stats.len() == 0 {
        false
    } else {
        contributes_to(users, snapshot, stats.drop_last(), id) || (contribution(
            users,
            snapshot,
            stats.last().0,
            stats.last().1,
        ) matches Some((j, _, _)) && j == id)
    }
}

/// The sum, without saturation, of the upload (`upload`) or download
/// increments that the entries of `stats` contribute to user `id`.
pub open spec fn contributed(
    users: Map<Seq<char>, UserRecord>,
    snapshot: Map<Seq<char>, TrafficRecord>,
    stats: Seq<(Seq<char>, TrafficRecord)>,
    id: u32,
    upload: bool,
) -> nat
    decreases stats.len(),
{
    if stats.len() == 0 {
        0
    } else {
        contributed(users, snapshot, stats.drop_last(), id, upload) + match contribution(
            users,
            snapshot,
            stats.last().0,
            stats.last().1,
        ) {
            Some((j, up, down)) => if j == id {
                (if upload {
                    up
                } else {
                    down
                }) as nat
            } else {
                0nat
            },
            None => 0nat,
        }
    }
}

/// What is pending for `id` in `pending`, zeros where nothing is.
pub open spec fn pending_of(pending: Map<u32, (u64, u64)>, id: u32) -> (u64, u64) {
    if pending.contains_key(id) {
        pending[id]
    } else {
        (0u64, 0u64)
    }
}

/// Accumulating a report, user by user: a user has an entry afterwards
/// exactly when it had one or some report entry contributes to it, and the
/// entry is what was pending plus the sum of the user's contributions, in each
/// direction, capped at `u64::MAX`.
pub proof fn law_accrue_per_user(
    pending: Map<u32, (u64, u64)>,
    users: Map<Seq<char>, UserRecord>,
    snapshot: Map<Seq<char>, TrafficRecord>,
    stats: Seq<(Seq<char>, TrafficRecord)>,
    id: u32,
)
    ensures
        accrue(pending, users, snapshot, stats).contains_key(id) <==> (pending.contains_key(id)
            || contributes_to(users, snapshot, stats, id)),
        pending_of(accrue(pending, users, snapshot, stats), id) == (
            saturate(pending_of(pending, id).0 as nat + contributed(users, snapshot, stats, id, true)),
            saturate(pending_of(pending, id).1 as nat + contributed(users, snapshot, stats, id, false)),
        ),
    decreases stats.len(),
{
    if stats.len() > 0 {
        law_accrue_per_user(pending, users, snapshot, stats.drop_last(), id);
    }
}


/// One tick of the push loop: a report processed against the whitelist
/// `users`, then, where `pushed`, the pending payload `payload` (taken right
/// after the report) acknowledged by the panel.
pub struct Tick {
    pub users: Map<Seq<char>, UserRecord>,
    pub stats: Seq<(Seq<char>, TrafficRecord)>,
    pub pushed: bool,
    pub payload: Seq<(Seq<char>, [u64; 2])>,
}

/// The pending buffer and the snapshot after `ticks`, starting from
/// `pending` and `snapshot` (what `process_raw_stats` and `settle_push` do).
pub open spec fn after_ticks(
    pending: Map<u32, (u64, u64)>,
    snapshot: Map<Seq<char>, TrafficRecord>,
    ticks: Seq<Tick>,
) -> (Map<u32, (u64, u64)>, Map<Seq<char>, TrafficRecord>)
    decreases ticks.len(),
{
    if ticks.len() == 0 {
        (pending, snapshot)
    } else {
        let (p, snap) = after_ticks(pending, snapshot, ticks.drop_last());
        let t = ticks.last();
        let a = accrue(p, t.users, snap, t.stats);
        (
            if t.pushed {
                settle(a, t.payload)
            } else {
                a
            },
            pairs_to_map(t.stats),
        )
    }
}

/// What the buffer holds right after the last tick's report (before its push).
pub open spec fn accrued_at_last(
    pending: Map<u32, (u64, u64)>,
    snapshot: Map<Seq<char>, TrafficRecord>,
    ticks: Seq<Tick>,
) -> Map<u32, (u64, u64)>
    recommends
        ticks.len() > 0,
{
    let (p, snap) = after_ticks(pending, snapshot, ticks.drop_last());
    accrue(p, ticks.last().users, snap, ticks.last().stats)
}

/// Every pushed payload is the payload of what was pending when it was taken.
pub open spec fn payloads_taken_fresh(
    pending: Map<u32, (u64, u64)>,
    snapshot: Map<Seq<char>, TrafficRecord>,
    ticks: Seq<Tick>,
) -> bool
    decreases ticks.len(),
{
    ticks.len() > 0 ==> {
        &&& payloads_taken_fresh(pending, snapshot, ticks.drop_last())
        &&& ticks.last().pushed ==> {
            &&& distinct_keys(ticks.last().payload)
            &&& pairs_to_map(ticks.last().payload).map_values(|v: [u64; 2]| v@) == payload_of(
                accrued_at_last(pending, snapshot, ticks),
            )
        }
    }
}

pub open spec fn component(v: (u64, u64), upload: bool) -> nat {
    if upload {
        v.0 as nat
    } else {
        v.1 as nat
    }
}

/// Total increments that the reports of `ticks` brought user `id`, uncapped.
pub open spec fn total_accrued(
    pending: Map<u32, (u64, u64)>,
    snapshot: Map<Seq<char>, TrafficRecord>,
    ticks: Seq<Tick>,
    id: u32,
    upload: bool,
) -> nat
    decreases ticks.len(),
{
    if ticks.len() == 0 {
        0
    } else {
        let (p, snap) = after_ticks(pending, snapshot, ticks.drop_last());
        total_accrued(pending, snapshot, ticks.drop_last(), id, upload) + contributed(
            ticks.last().users,
            snap,
            ticks.last().stats,
            id,
            upload,
        )
    }
}

/// Total that the acknowledged pushes of `ticks` carried for user `id`.
pub open spec fn total_acknowledged(
    pending: Map<u32, (u64, u64)>,
    snapshot: Map<Seq<char>, TrafficRecord>,
    ticks: Seq<Tick>,
    id: u32,
    upload: bool,
) -> nat
    decreases ticks.len(),
{
    if ticks.len() == 0 {
        0
    } else {
        total_acknowledged(pending, snapshot, ticks.drop_last(), id, upload) + if ticks.last().pushed {
            component(pending_of(accrued_at_last(pending, snapshot, ticks), id), upload)
        } else {
            0nat
        }
    }
}

/// No report of `ticks` pushes user `id`'s pending amount past `u64::MAX`.
pub open spec fn never_capped(
    pending: Map<u32, (u64, u64)>,
    snapshot: Map<Seq<char>, TrafficRecord>,
    ticks: Seq<Tick>,
    id: u32,
) -> bool
    decreases ticks.len(),
{
    ticks.len() > 0 ==> {
        let (p, snap) = after_ticks(pending, snapshot, ticks.drop_last());
        &&& never_capped(pending, snapshot, ticks.drop_last(), id)
        &&& pending_of(p, id).0 as nat + contributed(ticks.last().users, snap, ticks.last().stats, id, true)
            <= u64::MAX
        &&& pending_of(p, id).1 as nat + contributed(ticks.last().users, snap, ticks.last().stats, id, false)
            <= u64::MAX
    }
}

/// No traffic is lost or counted twice over a run of the push loop: for each
/// user and direction, what is still pending plus what the panel acknowledged
/// equals what was pending at the start plus everything the reports brought,
/// whichever pushes failed (as long as no amount reached `u64::MAX`).
pub proof fn law_run_conserves_traffic(
    pending: Map<u32, (u64, u64)>,
    snapshot: Map<Seq<char>, TrafficRecord>,
    ticks: Seq<Tick>,
    id: u32,
)
    requires
        no_zero_entries(pending),
        payloads_taken_fresh(pending, snapshot, ticks),
        never_capped(pending, snapshot, ticks, id),
    ensures
        no_zero_entries(after_ticks(pending, snapshot, ticks).0),
        component(pending_of(after_ticks(pending, snapshot, ticks).0, id), true) + total_acknowledged(
            pending,
            snapshot,
            ticks,
            id,
            true,
        ) == component(pending_of(pending, id), true) + total_accrued(pending, snapshot, ticks, id, true),
        component(pending_of(after_ticks(pending, snapshot, ticks).0, id), false) + total_acknowledged(
            pending,
            snapshot,
            ticks,
            id,
            false,
        ) == component(pending_of(pending, id), false) + total_accrued(pending, snapshot, ticks, id, false),
    decreases ticks.len(),
{
    if ticks.len() > 0 {
        let q = ticks.drop_last();
        law_run_conserves_traffic(pending, snapshot, q, id);
        let (p, snap) = after_ticks(pending, snapshot, q);
        let t = ticks.last();
        let a = accrue(p, t.users, snap, t.stats);
        law_accrue_per_user(p, t.users, snap, t.stats, id);
        law_accrue_only_grows(p, t.users, snap, t.stats);
        if t.pushed {
            lemma_commit_pairs(a, a, t.payload);
            assert(left_after_commit(a, a) =~= Map::<u32, (u64, u64)>::empty());
        }
    }
}


/// No two entries of `pushed` name the same user.
pub open spec fn distinct_pushed_ids(pushed: Seq<(Seq<char>, [u64; 2])>) -> bool {
    forall|a: int, b: int|
        0 <= a < b < pushed.len() && parse_u32_spec(#[trigger] pushed[a].0) is Some ==> parse_u32_spec(
            pushed[a].0,
        ) != parse_u32_spec(#[trigger] pushed[b].0)
}

/// The amounts that the last entry of `pushed` naming user `id` carries.
pub open spec fn pushed_amount(pushed: Seq<(Seq<char>, [u64; 2])>, id: u32) -> Option<Seq<u64>>
    decreases pushed.len(),
{
    if pushed.len() == 0 {
        None
    } else if parse_u32_spec(pushed.last().0) == Some(id) {
        Some(pushed.last().1@)
    } else {
        pushed_amount(pushed.drop_last(), id)
    }
}

/// What is left pending for user `id` (`None`: nothing) after `amount` was
/// acknowledged for it, from `pending`.
pub open spec fn left_for(pending: Map<u32, (u64, u64)>, id: u32, amount: Option<Seq<u64>>) -> Option<
    (u64, u64),
> {
    if !pending.contains_key(id) {
        None
    } else {
        match amount {
            None => Some(pending[id]),
            Some(v) => {
                let e = (pending[id].0.saturating_sub(v[0]), pending[id].1.saturating_sub(v[1]));
                if e == (0u64, 0u64) {
                    None
                } else {
                    Some(e)
                }
            },
        }
    }
}

proof fn lemma_pushed_amount_names(pushed: Seq<(Seq<char>, [u64; 2])>, id: u32)
    ensures
        pushed_amount(pushed, id) is Some ==> exists|j: int|
            0 <= j < pushed.len() && parse_u32_spec(#[trigger] pushed[j].0) == Some(id),
    decreases pushed.len(),
{
    if pushed.len() > 0 {
        let q = pushed.drop_last();
        lemma_pushed_amount_names(q, id);
        if parse_u32_spec(pushed.last().0) == Some(id) {
            assert(parse_u32_spec(pushed[pushed.len() - 1].0) == Some(id));
        } else if pushed_amount(q, id) is Some {
            let j = choose|j: int| 0 <= j < q.len() && parse_u32_spec(#[trigger] q[j].0) == Some(id);
            assert(pushed[j] == q[j]);
        }
    }
}

/// Committing a payload, user by user: where no two entries name the same
/// user, each user named by an entry loses what the entry carries (saturating
/// at zero) and is dropped when nothing is left; every other user keeps its
/// entry.
pub proof fn law_commit_per_user(pending: Map<u32, (u64, u64)>, pushed: Seq<(Seq<char>, [u64; 2])>, id: u32)
    requires
        distinct_pushed_ids(pushed),
    ensures
        (if settle(pending, pushed).contains_key(id) {
            Some(settle(pending, pushed)[id])
        } else {
            None
        }) == left_for(pending, id, pushed_amount(pushed, id)),
    decreases pushed.len(),
{
    if pushed.len() > 0 {
        let q = pushed.drop_last();
        assert(distinct_pushed_ids(q)) by {
            assert forall|a: int, b: int|
                0 <= a < b < q.len() && parse_u32_spec(#[trigger] q[a].0) is Some implies parse_u32_spec(
                    q[a].0,
                ) != parse_u32_spec(#[trigger] q[b].0) by {
                assert(q[a] == pushed[a] && q[b] == pushed[b]);
            }
        }
        law_commit_per_user(pending, q, id);
        let last = pushed[pushed.len() - 1];
        assert(last == pushed.last());
        if parse_u32_spec(last.0) == Some(id) {
            lemma_pushed_amount_names(q, id);
            if pushed_amount(q, id) is Some {
                let j = choose|j: int| 0 <= j < q.len() && parse_u32_spec(#[trigger] q[j].0) == Some(id);
                assert(q[j] == pushed[j]);
                assert(parse_u32_spec(pushed[j].0) != parse_u32_spec(pushed[pushed.len() - 1].0));
            }
        }
    }
}


/// How much a cumulative counter grew from `last` to `now`: the difference,
/// or the whole new value where it went down (the core restarted).
pub open spec fn growth(now: u64, last: u64) -> nat {
    if now >= last {
        (now - last) as nat
    } else {
        now as nat
    }
}

/// The counters last seen under `key`: `(rx, tx)`, zeros where none were.
pub open spec fn last_seen(snapshot: Map<Seq<char>, TrafficRecord>, key: Seq<char>) -> (u64, u64) {
    if snapshot.contains_key(key) {
        (snapshot[key].rx, snapshot[key].tx)
    } else {
        (0u64, 0u64)
    }
}

/// The upload (`rx`, where `upload`) or download (`tx`) growth, since
/// `snapshot`, summed over the entries of `stats` whose key resolves to user
/// `id`.
pub open spec fn growth_of_user(
    users: Map<Seq<char>, UserRecord>,
    snapshot: Map<Seq<char>, TrafficRecord>,
    stats: Seq<(Seq<char>, TrafficRecord)>,
    id: u32,
    upload: bool,
) -> nat
    decreases stats.len(),
{
    if stats.len() == 0 {
        0
    } else {
        let (key, now) = stats.last();
        growth_of_user(users, snapshot, stats.drop_last(), id, upload) + if resolve_user(users, key) == Some(id) {
            if upload {
                growth(now.rx, last_seen(snapshot, key).0)
            } else {
                growth(now.tx, last_seen(snapshot, key).1)
            }
        } else {
            0nat
        }
    }
}

/// The entries of `stats` that resolve to a user and whose upload or
/// download counter grew.
pub open spec fn growing_entries(
    users: Map<Seq<char>, UserRecord>,
    snapshot: Map<Seq<char>, TrafficRecord>,
    stats: Seq<(Seq<char>, TrafficRecord)>,
) -> nat
    decreases stats.len(),
{
    if stats.len() == 0 {
        0
    } else {
        let (key, now) = stats.last();
        growing_entries(users, snapshot, stats.drop_last()) + if resolve_user(users, key) is Some && (growth(
            now.rx,
            last_seen(snapshot, key).0,
        ) > 0 || growth(now.tx, last_seen(snapshot, key).1) > 0) {
            1nat
        } else {
            0nat
        }
    }
}

proof fn lemma_contributed_is_growth(
    users: Map<Seq<char>, UserRecord>,
    snapshot: Map<Seq<char>, TrafficRecord>,
    stats: Seq<(Seq<char>, TrafficRecord)>,
    id: u32,
)
    ensures
        contributed(users, snapshot, stats, id, true) == growth_of_user(users, snapshot, stats, id, true),
        contributed(users, snapshot, stats, id, false) == growth_of_user(users, snapshot, stats, id, false),
        active_entries(users, snapshot, stats) == growing_entries(users, snapshot, stats),
    decreases stats.len(),
{
    if stats.len() > 0 {
        lemma_contributed_is_growth(users, snapshot, stats.drop_last(), id);
    }
}

/// A report credits every user, in each direction, with the growth of its
/// counters: the user's pending upload becomes what was pending plus the `rx`
/// growth of the entries that resolve to the user (and the download likewise
/// with `tx`), capped at `u64::MAX`; an entry counts as active when it
/// resolves to a user and its upload or its download grew.
pub proof fn law_report_credits_growth(
    pending: Map<u32, (u64, u64)>,
    users: Map<Seq<char>, UserRecord>,
    snapshot: Map<Seq<char>, TrafficRecord>,
    stats: Seq<(Seq<char>, TrafficRecord)>,
    id: u32,
)
    ensures
        pending_of(accrue(pending, users, snapshot, stats), id).0 == saturate(
            pending_of(pending, id).0 as nat + growth_of_user(users, snapshot, stats, id, true),
        ),
        pending_of(accrue(pending, users, snapshot, stats), id).1 == saturate(
            pending_of(pending, id).1 as nat + growth_of_user(users, snapshot, stats, id, false),
        ),
        active_entries(users, snapshot, stats) == growing_entries(users, snapshot, stats),
{
    law_accrue_per_user(pending, users, snapshot, stats, id);
    lemma_contributed_is_growth(users, snapshot, stats, id);
}


/// The push payload lists every user with something pending, under the
/// user's ID in decimal, as `[upload, download]`, and nothing else.
pub proof fn law_payload_lists_pending(pending: Map<u32, (u64, u64)>, id: u32, k: Seq<char>)
    ensures
        pending.contains_key(id) && pending[id] != (0u64, 0u64) ==> payload_of(pending).contains_key(
            decimal(id as nat),
        ) && payload_of(pending)[decimal(id as nat)] == seq![pending[id].0, pending[id].1],
        !(pending.contains_key(id) && pending[id] != (0u64, 0u64)) ==> !payload_of(pending).contains_key(
            decimal(id as nat),
        ),
        payload_of(pending).contains_key(k) ==> (parse_u32_spec(k) matches Some(n) && k == decimal(n as nat)
            && pending.contains_key(n) && pending[n] != (0u64, 0u64)),
{
    lemma_payload_key(id);
}

/// A report key that is a user ID in decimal is that user, whatever the
/// whitelist holds.
pub proof fn law_numeric_key_is_the_user_id(users: Map<Seq<char>, UserRecord>, id: u32)
    ensures
        resolve_user(users, decimal(id as nat)) == Some(id),
{
    lemma_parse_decimal(id as nat, u32::MAX as nat);
}


/// Nothing pending totals zero, and pending one more user adds exactly that
/// user's upload to the upload total and its download to the download total.
pub proof fn law_pending_totals_add_up(
    p: Map<u32, (u64, u64)>,
    s: Seq<(u32, (u64, u64))>,
    id: u32,
    v: (u64, u64),
)
    requires
        enumerates(s, p),
        !p.contains_key(id),
    ensures
        pending_total(Map::<u32, (u64, u64)>::empty(), true) == 0,
        pending_total(Map::<u32, (u64, u64)>::empty(), false) == 0,
        pending_total(p.insert(id, v), true) == pending_total(p, true) + v.0 as nat,
        pending_total(p.insert(id, v), false) == pending_total(p, false) + v.1 as nat,
{
    let e = Seq::<(u32, (u64, u64))>::empty();
    assert(e.to_set() =~= Map::<u32, (u64, u64)>::empty().kv_pairs());
    lemma_pending_total(Map::<u32, (u64, u64)>::empty(), e);
    lemma_pending_total(p, s);
    let s2 = s.push((id, v));
    assert(!s.contains((id, v))) by {
        if s.contains((id, v)) {
            assert(s.to_set().contains((id, v)));
        }
    }
    assert(s2.no_duplicates()) by {
        assert forall|a: int, b: int| 0 <= a < s2.len() && 0 <= b < s2.len() && a != b implies s2[a] != s2[b] by {
            if a < s.len() && b < s.len() {
                assert(s2[a] == s[a] && s2[b] == s[b]);
            } else if a < s.len() {
                assert(s.contains(s2[a]));
            } else {
                assert(s.contains(s2[b]));
            }
        }
    }
    assert(s2.to_set() =~= p.insert(id, v).kv_pairs()) by {
        assert forall|x: (u32, (u64, u64))| s2.to_set().contains(x) <==> p.insert(id, v).kv_pairs().contains(x) by {
            if s.contains(x) {
                assert(s.to_set().contains(x));
                assert(p.kv_pairs().contains(x));
            }
            if p.kv_pairs().contains(x) && x.0 != id {
                assert(s.to_set().contains(x));
                let i = choose|i: int| 0 <= i < s.len() && s[i] == x;
                assert(s2[i] == x);
            }
            if s2.contains(x) {
                let i = choose|i: int| 0 <= i < s2.len() && s2[i] == x;
                if i < s.len() {
                    assert(s[i] == x);
                    assert(s.to_set().contains(x));
                }
            }
            if x == (id, v) {
                assert(s2[s.len() as int] == x);
            }
        }
    }
    lemma_pending_total(p.insert(id, v), s2);
    assert(s2.drop_last() =~= s);
}

} // verus!
