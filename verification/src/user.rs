//! User whitelist: authentication by UUID and synchronization with the panel.
//!
//! Users are kept in a concurrent map keyed by their normalized UUID (trimmed,
//! then lowercased), with a reverse index from user ID to normalized UUID.
use crate::strmap::StrMap;
use crate::tables::{
    ids_get, ids_insert, ids_new, ids_retain, id_table, users_get, users_insert, users_len, users_new,
    users_retain, users_values, uuid_table,
};
use crate::text::{chars_of, lowercase, string_of, to_lowercase, trim, trim_chars};
use dashmap::DashMap;
use std::collections::HashSet;
use vstd::prelude::*;

verus! {

broadcast use vstd::std_specs::hash::group_hash_axioms;

/// User metadata retrieved from the panel's UniProxy API.
#[derive(Debug, Clone, PartialEq, Eq)]
pub struct UserInfo {
    /// Panel user ID.
    pub id: u32,
    /// User UUID / password for the Hysteria 2 connection.
    pub uuid: String,
    /// Speed limit (0 for unlimited).
    pub speed_limit: u32,
}

/// What a `UserInfo` holds, as plain values.
pub struct UserRecord {
    pub id: u32,
    pub uuid: Seq<char>,
    pub speed_limit: u32,
}

impl View for UserInfo {
    type V = UserRecord;

    open spec fn view(&self) -> UserRecord {
        UserRecord { id: self.id, uuid: self.uuid@, speed_limit: self.speed_limit }
    }
}

impl UserInfo {
    /// A copy of this user.
    pub fn duplicate(&self) -> (r: UserInfo)
        ensures
            r@ == self@,
    {
        UserInfo { id: self.id, uuid: self.uuid.clone(), speed_limit: self.speed_limit }
    }

    /// Whether two users hold the same values.
    pub fn same_as(&self, other: &UserInfo) -> (b: bool)
        ensures
            b == (self@ == other@),
    {
        self.id == other.id && self.speed_limit == other.speed_limit && self.uuid == other.uuid
    }
}

pub open spec fn opt_view(o: Option<UserInfo>) -> Option<UserRecord> {
    match o {
        Some(u) => Some(u@),
        None => None,
    }
}

/// The key under which a UUID is stored: trimmed, then lowercased.
pub open spec fn normalize(uuid: Seq<char>) -> Seq<char> {
    lowercase(trim(uuid))
}

/// What a lookup finds given the trimmed token `t` and its lowercase form
/// `l`: the entry under `t`, or else, where `l` differs from `t`, the entry
/// under `l`.
pub open spec fn lookup_forms(users: Map<Seq<char>, UserRecord>, t: Seq<char>, l: Seq<char>) -> Option<
    UserRecord,
> {
    if users.contains_key(t) {
        Some(users[t])
    } else if l != t && users.contains_key(l) {
        Some(users[l])
    } else {
        None
    }
}

/// What authenticating `token` against `users` finds: the entry under the
/// trimmed token, or else, where lowercasing changes it, the entry under its
/// lowercase form.
pub open spec fn lookup_token(users: Map<Seq<char>, UserRecord>, token: Seq<char>) -> Option<
    UserRecord,
> {
    lookup_forms(users, trim(token), lowercase(trim(token)))
}

/// The whitelist after storing each user of `list` under its normalized UUID,
/// in order, starting from `before`.
pub open spec fn stored_users(before: Map<Seq<char>, UserRecord>, list: Seq<UserRecord>) -> Map<
    Seq<char>,
    UserRecord,
>
    decreases list.len(),
{
    if list.len() == 0 {
        before
    } else {
        stored_users(before, list.drop_last()).insert(normalize(list.last().uuid), list.last())
    }
}

/// The reverse index after recording each user of `list`, in order.
pub open spec fn stored_ids(before: Map<u32, Seq<char>>, list: Seq<UserRecord>) -> Map<
    u32,
    Seq<char>,
>
    decreases list.len(),
{
    if list.len() == 0 {
        before
    } else {
        stored_ids(before, list.drop_last()).insert(list.last().id, normalize(list.last().uuid))
    }
}

/// How many users of `list` were new or different from what the whitelist
/// held under their key when they were reached.
pub open spec fn changes(before: Map<Seq<char>, UserRecord>, list: Seq<UserRecord>) -> nat
    decreases list.len(),
{
    if list.len() == 0 {
        0
    } else {
        let prev = stored_users(before, list.drop_last());
        let u = list.last();
        let k = normalize(u.uuid);
        changes(before, list.drop_last()) + if prev.contains_key(k) && prev[k] == u {
            0nat
        } else {
            1nat
        }
    }
}

/// The normalized UUIDs of the users of `list`.
pub open spec fn uuid_keys(list: Seq<UserRecord>) -> Set<Seq<char>>
    decreases list.len(),
{
    if list.len() == 0 {
        Set::empty()
    } else {
        uuid_keys(list.drop_last()).insert(normalize(list.last().uuid))
    }
}

/// The IDs of the users of `list`.
pub open spec fn user_ids(list: Seq<UserRecord>) -> Set<u32>
    decreases list.len(),
{
    if list.len() == 0 {
        Set::empty()
    } else {
        user_ids(list.drop_last()).insert(list.last().id)
    }
}

/// The last user of `list` whose UUID normalizes to `k`.
pub open spec fn last_with_uuid(list: Seq<UserRecord>, k: Seq<char>) -> UserRecord
    recommends
        uuid_keys(list).contains(k),
    decreases list.len(),
{
    if list.len() == 0 {
        arbitrary()
    } else if normalize(list.last().uuid) == k {
        list.last()
    } else {
        last_with_uuid(list.drop_last(), k)
    }
}

/// The last user of `list` with ID `id`.
pub open spec fn last_with_id(list: Seq<UserRecord>, id: u32) -> UserRecord
    recommends
        user_ids(list).contains(id),
    decreases list.len(),
{
    if list.len() == 0 {
        arbitrary()
    } else if list.last().id == id {
        list.last()
    } else {
        last_with_id(list.drop_last(), id)
    }
}

/// The whitelist that a synchronization with `list` leaves: each normalized
/// UUID of the list, with the last user of the list that has it.
pub open spec fn synced_whitelist(list: Seq<UserRecord>) -> Map<Seq<char>, UserRecord> {
    Map::new(|k: Seq<char>| uuid_keys(list).contains(k), |k: Seq<char>| last_with_uuid(list, k))
}

/// The reverse index that a synchronization with `list` leaves: each user ID
/// of the list, with the normalized UUID of the last user that has it.
pub open spec fn synced_id_index(list: Seq<UserRecord>) -> Map<u32, Seq<char>> {
    Map::new(
        |id: u32| user_ids(list).contains(id),
        |id: u32| normalize(last_with_id(list, id).uuid),
    )
}

pub proof fn lemma_uuid_keys(list: Seq<UserRecord>)
    ensures
        uuid_keys(list).finite(),
        forall|k: Seq<char>|
            #![trigger uuid_keys(list).contains(k)]
            uuid_keys(list).contains(k) <==> exists|i: int|
                0 <= i < list.len() && normalize(list[i].uuid) == k,
    decreases list.len(),
{
    if list.len() > 0 {
        let q = list.drop_last();
        lemma_uuid_keys(q);
        assert forall|k: Seq<char>| uuid_keys(list).contains(k) <==> exists|i: int|
            0 <= i < list.len() && normalize(list[i].uuid) == k by {
            if uuid_keys(list).contains(k) && k != normalize(list.last().uuid) {
                let i = choose|i: int| 0 <= i < q.len() && normalize(q[i].uuid) == k;
                assert(list[i] == q[i]);
            }
            if exists|i: int| 0 <= i < list.len() && normalize(list[i].uuid) == k {
                let i = choose|i: int| 0 <= i < list.len() && normalize(list[i].uuid) == k;
                if i < list.len() - 1 {
                    assert(list[i] == q[i]);
                }
            }
        }
    }
}

pub proof fn lemma_user_ids(list: Seq<UserRecord>)
    ensures
        user_ids(list).finite(),
        forall|id: u32|
            #![trigger user_ids(list).contains(id)]
            user_ids(list).contains(id) <==> exists|i: int| 0 <= i < list.len() && list[i].id == id,
    decreases list.len(),
{
    if list.len() > 0 {
        let q = list.drop_last();
        lemma_user_ids(q);
        assert forall|id: u32| user_ids(list).contains(id) <==> exists|i: int|
            0 <= i < list.len() && list[i].id == id by {
            if user_ids(list).contains(id) && id != list.last().id {
                let i = choose|i: int| 0 <= i < q.len() && q[i].id == id;
                assert(list[i] == q[i]);
            }
            if exists|i: int| 0 <= i < list.len() && list[i].id == id {
                let i = choose|i: int| 0 <= i < list.len() && list[i].id == id;
                if i < list.len() - 1 {
                    assert(list[i] == q[i]);
                }
            }
        }
    }
}

/// Restricted to the keys of the list, storing the list's users in order
/// leaves exactly the last user for each key, whatever was there before.
pub proof fn lemma_stored_users_restrict(before: Map<Seq<char>, UserRecord>, list: Seq<UserRecord>)
    ensures
        stored_users(before, list).restrict(uuid_keys(list)) == synced_whitelist(list),
    decreases list.len(),
{
    if list.len() > 0 {
        let q = list.drop_last();
        lemma_stored_users_restrict(before, q);
        let m = stored_users(before, list).restrict(uuid_keys(list));
        let w = synced_whitelist(list);
        assert forall|k: Seq<char>| #[trigger] m.contains_key(k) <==> w.contains_key(k) by {
            if uuid_keys(q).contains(k) {
                assert(stored_users(before, q).restrict(uuid_keys(q)).contains_key(k));
            }
        }
        assert forall|k: Seq<char>| #[trigger] m.contains_key(k) implies m[k] == w[k] by {
            if k != normalize(list.last().uuid) {
                assert(stored_users(before, q).restrict(uuid_keys(q)).contains_key(k));
                assert(stored_users(before, q).restrict(uuid_keys(q))[k] == synced_whitelist(q)[k]);
            }
        }
        assert(m =~= w);
    } else {
        assert(stored_users(before, list).restrict(uuid_keys(list)) =~= synced_whitelist(list));
    }
}

/// Restricted to the IDs of the list, recording the list's users in order
/// leaves exactly the key of the last user for each ID.
pub proof fn lemma_stored_ids_restrict(before: Map<u32, Seq<char>>, list: Seq<UserRecord>)
    ensures
        stored_ids(before, list).restrict(user_ids(list)) == synced_id_index(list),
    decreases list.len(),
{
    if list.len() > 0 {
        let q = list.drop_last();
        lemma_stored_ids_restrict(before, q);
        let m = stored_ids(before, list).restrict(user_ids(list));
        let w = synced_id_index(list);
        assert forall|id: u32| #[trigger] m.contains_key(id) <==> w.contains_key(id) by {
            if user_ids(q).contains(id) {
                assert(stored_ids(before, q).restrict(user_ids(q)).contains_key(id));
            }
        }
        assert forall|id: u32| #[trigger] m.contains_key(id) implies m[id] == w[id] by {
            if id != list.last().id {
                assert(stored_ids(before, q).restrict(user_ids(q)).contains_key(id));
                assert(stored_ids(before, q).restrict(user_ids(q))[id] == synced_id_index(q)[id]);
            }
        }
        assert(m =~= w);
    } else {
        assert(stored_ids(before, list).restrict(user_ids(list)) =~= synced_id_index(list));
    }
}

/// Whether `keep` holds `id` (used to filter the reverse index).
pub fn id_set_contains(keep: &HashSet<u32>, id: u32) -> (b: bool)
    ensures
        b == keep@.contains(id),
{
    keep.contains(&id)
}

/// The key under which a UUID is stored: trimmed, then lowercased.
pub fn normalize_uuid(uuid: &str) -> (k: String)
    ensures
        k@ == normalize(uuid@),
{
    let cs = chars_of(uuid);
    let t = trim_chars(&cs);
    let ts = string_of(&t);
    to_lowercase(ts.as_str())
}

/// Thread-safe user cache for authentication and ID mapping.
pub struct UserManager {
    /// Normalized UUID -> user (the key for authentication).
    users_by_uuid: DashMap<String, UserInfo>,
    /// User ID -> normalized UUID.
    uuid_by_id: DashMap<u32, String>,
}

impl UserManager {
    /// The whitelist: normalized UUID -> user.
    pub closed spec fn users(&self) -> Map<Seq<char>, UserRecord> {
        uuid_table(self.users_by_uuid)
    }

    /// The reverse index: user ID -> normalized UUID.
    pub closed spec fn ids(&self) -> Map<u32, Seq<char>> {
        id_table(self.uuid_by_id)
    }

    /// Creates an empty manager.
    pub fn new() -> (m: Self)
        ensures
            m.users() == Map::<Seq<char>, UserRecord>::empty(),
            m.ids() == Map::<u32, Seq<char>>::empty(),
    {
        UserManager { users_by_uuid: users_new(), uuid_by_id: ids_new() }
    }

    /// Authenticates a token (the user's UUID) against the whitelist: first
    /// by the trimmed token as it is, then by its lowercase form.
    pub fn authenticate(&self, auth_token: &str) -> (r: Option<UserInfo>)
        ensures
            opt_view(r) == lookup_token(self.users(), auth_token@),
    {
        let cs = chars_of(auth_token);
        let t = trim_chars(&cs);
        let trimmed = string_of(&t);
        let lower = to_lowercase(trimmed.as_str());
        self.lookup_trimmed(trimmed.as_str(), lower.as_str())
    }

    /// Looks up a token given trimmed (`trimmed`) and lowercased (`lower`):
    /// first under `trimmed`, then, where `lower` differs, under `lower`.
    pub fn lookup_trimmed(&self, trimmed: &str, lower: &str) -> (r: Option<UserInfo>)
        ensures
            opt_view(r) == lookup_forms(self.users(), trimmed@, lower@),
    {
        match users_get(&self.users_by_uuid, trimmed) {
            Some(user) => {
                return Some(user);
            },
            None => {},
        }
        if !crate::strmap::str_eq(lower, trimmed) {
            match users_get(&self.users_by_uuid, lower) {
                Some(user) => {
                    return Some(user);
                },
                None => {},
            }
        }
        None
    }

    /// Records `user` under `key`: the reverse index maps the user's ID to
    /// `key`, and the whitelist takes the user where it held nothing or
    /// something different under `key`. Returns whether the whitelist changed.
    pub fn record_user(&mut self, key: String, user: &UserInfo) -> (changed: bool)
        ensures
            changed == !(old(self).users().contains_key(key@) && old(self).users()[key@] == user@),
            final(self).users() == (if changed {
                old(self).users().insert(key@, user@)
            } else {
                old(self).users()
            }),
            final(self).ids() == old(self).ids().insert(user.id, key@),
    {
        ids_insert(&mut self.uuid_by_id, user.id, key.clone());
        let needs_insert = match users_get(&self.users_by_uuid, key.as_str()) {
            Some(existing) => !existing.same_as(user),
            None => true,
        };
        if needs_insert {
            users_insert(&mut self.users_by_uuid, key, user.duplicate());
        }
        needs_insert
    }

    /// The ID of the user that `uuid` authenticates as.
    pub fn get_user_id_by_uuid(&self, uuid: &str) -> (r: Option<u32>)
        ensures
            r == (match lookup_token(self.users(), uuid@) {
                Some(u) => Some(u.id),
                None => None,
            }),
    {
        match self.authenticate(uuid) {
            Some(user) => Some(user.id),
            None => None,
        }
    }

    /// The user that `uuid` authenticates as.
    pub fn get_user_by_uuid(&self, uuid: &str) -> (r: Option<UserInfo>)
        ensures
            opt_view(r) == lookup_token(self.users(), uuid@),
    {
        self.authenticate(uuid)
    }

    /// The user recorded under user ID `id`.
    pub fn get_user_by_id(&self, id: u32) -> (r: Option<UserInfo>)
        ensures
            opt_view(r) == (if self.ids().contains_key(id) && self.users().contains_key(
                self.ids()[id],
            ) {
                Some(self.users()[self.ids()[id]])
            } else {
                None
            }),
    {
        match ids_get(&self.uuid_by_id, id) {
            Some(uuid) => users_get(&self.users_by_uuid, uuid.as_str()),
            None => None,
        }
    }

    /// Replaces the whitelist with the users of `new_users`: each is stored
    /// under its normalized UUID (the last one wins where two share it), and
    /// users no longer listed are evicted.
    ///
    /// Returns `(total_active_users, updated_or_added_count)`.
    pub fn update_users(&mut self, new_users: Vec<UserInfo>) -> (r: (usize, usize))
        ensures
            final(self).users() == synced_whitelist(new_users@.map_values(|u: UserInfo| u@)),
            final(self).ids() == synced_id_index(new_users@.map_values(|u: UserInfo| u@)),
            r.0 == uuid_keys(new_users@.map_values(|u: UserInfo| u@)).len(),
            r.1 == changes(old(self).users(), new_users@.map_values(|u: UserInfo| u@)),
    {
        let ghost list = new_users@.map_values(|u: UserInfo| u@);
        let ghost before_users = self.users();
        let ghost before_ids = self.ids();
        let mut active_uuids: StrMap<()> = StrMap::new();
        let mut active_ids: HashSet<u32> = HashSet::new();
        let mut updated_or_added: usize = 0;
        let n = new_users.len();
        for i in 0..n
            invariant
                n == new_users@.len() == list.len(),
                list == new_users@.map_values(|u: UserInfo| u@),
                self.users() == stored_users(before_users, list.take(i as int)),
                self.ids() == stored_ids(before_ids, list.take(i as int)),
                updated_or_added as nat == changes(before_users, list.take(i as int)),
                updated_or_added <= i,
                active_uuids@.dom() == uuid_keys(list.take(i as int)),
                active_ids@ == user_ids(list.take(i as int)),
        {
            let user = &new_users[i];
            let ghost prefix = list.take(i as int);
            let ghost next = list.take(i + 1);
            assert(next.drop_last() =~= prefix);
            assert(next.last() == user@);
            let normalized = normalize_uuid(user.uuid.as_str());
            active_uuids.insert(normalized.clone(), ());
            active_ids.insert(user.id);
            let changed = self.record_user(normalized, user);
            if changed {
                updated_or_added += 1;
            } else {
                assert(self.users() =~= stored_users(before_users, next));
            }
            assert(active_uuids@.dom() =~= uuid_keys(next));
        }
        assert(list.take(n as int) =~= list);
        users_retain(&mut self.users_by_uuid, &active_uuids);
        ids_retain(&mut self.uuid_by_id, &active_ids);
        proof {
            lemma_stored_users_restrict(before_users, list);
            lemma_stored_ids_restrict(before_ids, list);
            lemma_uuid_keys(list);
            assert(synced_whitelist(list).dom() =~= uuid_keys(list));
        }
        let total = users_len(&self.users_by_uuid);
        (total, updated_or_added)
    }

    /// Number of users in the whitelist.
    pub fn user_count(&self) -> (n: usize)
        ensures
            n == self.users().len(),
    {
        users_len(&self.users_by_uuid)
    }

    /// A snapshot of all users in the whitelist, each once, in the order in
    /// which the map is walked.
    pub fn all_users(&self) -> (r: Vec<UserInfo>)
        ensures
            exists|keys: Seq<Seq<char>>|
                #![trigger keys.len()]
                {
                    &&& keys.no_duplicates()
                    &&& keys.to_set() == self.users().dom()
                    &&& keys.len() == r@.len()
                    &&& forall|i: int|
                        0 <= i < keys.len() ==> #[trigger] r@[i]@ == self.users()[keys[i]]
                },
    {
        users_values(&self.users_by_uuid)
    }
}


// ---------------------------------------------------------------------------
// Laws
// ---------------------------------------------------------------------------

/// No two users of `list` share a normalized UUID.
pub open spec fn distinct_uuid_keys(list: Seq<UserRecord>) -> bool {
    forall|i: int, j: int|
        0 <= i < j < list.len() ==> normalize(#[trigger] list[i].uuid) != normalize(
            #[trigger] list[j].uuid,
        )
}

/// With distinct keys, the last user with a listed user's key is that user.
proof fn lemma_last_with_uuid_distinct(list: Seq<UserRecord>, j: int)
    requires
        distinct_uuid_keys(list),
        0 <= j < list.len(),
    ensures
        last_with_uuid(list, normalize(list[j].uuid)) == list[j],
    decreases list.len(),
{
    if j < list.len() - 1 {
        let q = list.drop_last();
        assert(normalize(list[j].uuid) != normalize(list[list.len() - 1].uuid));
        assert(distinct_uuid_keys(q)) by {
            assert forall|a: int, b: int| 0 <= a < b < q.len() implies normalize(#[trigger] q[a].uuid)
                != normalize(#[trigger] q[b].uuid) by {
                assert(q[a] == list[a] && q[b] == list[b]);
            }
        }
        lemma_last_with_uuid_distinct(q, j);
        assert(q[j] == list[j]);
    }
}

/// A user stored under a key without surrounding whitespace authenticates
/// with exactly that key.
pub proof fn law_stored_key_authenticates(users: Map<Seq<char>, UserRecord>, k: Seq<char>)
    requires
        users.contains_key(k),
        crate::text::is_trimmed(k),
    ensures
        lookup_token(users, k) == Some(users[k]),
{
    crate::text::lemma_trim_of_trimmed(k);
}

/// Synchronizing again with the same list, when no two of its users share a
/// normalized UUID, changes nothing and reports no user as updated or added.
pub proof fn law_resync_is_unchanged(list: Seq<UserRecord>)
    requires
        distinct_uuid_keys(list),
    ensures
        changes(synced_whitelist(list), list) == 0,
        stored_users(synced_whitelist(list), list).restrict(uuid_keys(list)) == synced_whitelist(list),
{
    let w = synced_whitelist(list);
    lemma_uuid_keys(list);
    assert forall|m: int| 0 <= m <= list.len() implies #[trigger] stored_users(w, list.take(m)) == w
        && changes(w, list.take(m)) == 0 by {
        lemma_resync_prefix(list, m);
    }
    assert(list.take(list.len() as int) =~= list);
    lemma_stored_users_restrict(w, list);
}

proof fn lemma_resync_prefix(list: Seq<UserRecord>, m: int)
    requires
        distinct_uuid_keys(list),
        0 <= m <= list.len(),
    ensures
        stored_users(synced_whitelist(list), list.take(m)) == synced_whitelist(list),
        changes(synced_whitelist(list), list.take(m)) == 0,
    decreases m,
{
    let w = synced_whitelist(list);
    if m == 0 {
        assert(list.take(0) =~= Seq::<UserRecord>::empty());
    } else {
        lemma_resync_prefix(list, m - 1);
        let p = list.take(m);
        assert(p.drop_last() =~= list.take(m - 1));
        assert(p.last() == list[m - 1]);
        lemma_uuid_keys(list);
        let k = normalize(list[m - 1].uuid);
        assert(uuid_keys(list).contains(k));
        lemma_last_with_uuid_distinct(list, m - 1);
        assert(w.contains_key(k) && w[k] == list[m - 1]);
        assert(w.insert(k, list[m - 1]) =~= w);
    }
}

/// After a synchronization, every ID in the reverse index points at a user
/// in the whitelist.
pub proof fn law_id_index_points_into_whitelist(list: Seq<UserRecord>)
    ensures
        forall|id: u32| #[trigger]
            synced_id_index(list).contains_key(id) ==> synced_whitelist(list).contains_key(
                synced_id_index(list)[id],
            ),
{
    lemma_uuid_keys(list);
    lemma_user_ids(list);
    assert forall|id: u32| #[trigger] synced_id_index(list).contains_key(id) implies synced_whitelist(
        list,
    ).contains_key(synced_id_index(list)[id]) by {
        let j = lemma_last_with_id_in_list(list, id);
        assert(normalize(list[j].uuid) == synced_id_index(list)[id]);
    }
}

proof fn lemma_last_with_id_in_list(list: Seq<UserRecord>, id: u32) -> (j: int)
    requires
        user_ids(list).contains(id),
    ensures
        0 <= j < list.len(),
        list[j] == last_with_id(list, id),
    decreases list.len(),
{
    lemma_user_ids(list);
    if list.last().id == id {
        list.len() - 1
    } else {
        let q = list.drop_last();
        lemma_user_ids(q);
        let i = choose|i: int| 0 <= i < list.len() && list[i].id == id;
        assert(q[i].id == id);
        let j = lemma_last_with_id_in_list(q, id);
        assert(list[j] == q[j]);
        j
    }
}


/// After a synchronization with `list`: a listed key without surrounding
/// whitespace authenticates as the last listed user with that key, and a
/// token whose trimmed form and lowercase form are both unlisted is rejected
/// (users missing from the list are evicted).
pub proof fn law_sync_authenticates(list: Seq<UserRecord>, k: Seq<char>, t: Seq<char>)
    ensures
        uuid_keys(list).contains(k) && crate::text::is_trimmed(k) ==> lookup_token(
            synced_whitelist(list),
            k,
        ) == Some(last_with_uuid(list, k)),
        !uuid_keys(list).contains(trim(t)) && !uuid_keys(list).contains(lowercase(trim(t)))
            ==> lookup_token(synced_whitelist(list), t) is None,
{
    if uuid_keys(list).contains(k) && crate::text::is_trimmed(k) {
        law_stored_key_authenticates(synced_whitelist(list), k);
    }
}


proof fn lemma_last_with_uuid_is_last(list: Seq<UserRecord>, k: Seq<char>) -> (i: int)
    requires
        uuid_keys(list).contains(k),
    ensures
        0 <= i < list.len(),
        list[i] == last_with_uuid(list, k),
        normalize(list[i].uuid) == k,
        forall|j: int| i < j < list.len() ==> normalize(#[trigger] list[j].uuid) != k,
    decreases list.len(),
{
    if normalize(list.last().uuid) == k {
        list.len() - 1
    } else {
        let q = list.drop_last();
        let i = lemma_last_with_uuid_is_last(q, k);
        assert(list[i] == q[i]);
        assert forall|j: int| i < j < list.len() implies normalize(#[trigger] list[j].uuid) != k by {
            if j < list.len() - 1 {
                assert(list[j] == q[j]);
            }
        }
        i
    }
}

proof fn lemma_last_with_id_is_last(list: Seq<UserRecord>, id: u32) -> (i: int)
    requires
        user_ids(list).contains(id),
    ensures
        0 <= i < list.len(),
        list[i] == last_with_id(list, id),
        list[i].id == id,
        forall|j: int| i < j < list.len() ==> (#[trigger] list[j]).id != id,
    decreases list.len(),
{
    if list.last().id == id {
        list.len() - 1
    } else {
        let q = list.drop_last();
        let i = lemma_last_with_id_is_last(q, id);
        assert(list[i] == q[i]);
        assert forall|j: int| i < j < list.len() implies (#[trigger] list[j]).id != id by {
            if j < list.len() - 1 {
                assert(list[j] == q[j]);
            }
        }
        i
    }
}

/// After a synchronization with `list`, the whitelist holds a key exactly
/// when some listed user's UUID normalizes to it, and under it the last such
/// user; the reverse index holds an ID exactly when some listed user has it,
/// and maps it to the normalized UUID of the last such user.
pub proof fn law_sync_keeps_the_last_listed(list: Seq<UserRecord>, k: Seq<char>, id: u32)
    ensures
        synced_whitelist(list).contains_key(k) <==> exists|i: int|
            0 <= i < list.len() && normalize(#[trigger] list[i].uuid) == k,
        synced_whitelist(list).contains_key(k) ==> exists|i: int|
            {
                &&& 0 <= i < list.len()
                &&& list[i] == synced_whitelist(list)[k]
                &&& normalize(list[i].uuid) == k
                &&& forall|j: int| i < j < list.len() ==> normalize(#[trigger] list[j].uuid) != k
            },
        synced_id_index(list).contains_key(id) <==> exists|i: int| 0 <= i < list.len() && (#[trigger] list[i]).id == id,
        synced_id_index(list).contains_key(id) ==> exists|i: int|
            {
                &&& 0 <= i < list.len()
                &&& list[i].id == id
                &&& synced_id_index(list)[id] == normalize(list[i].uuid)
                &&& forall|j: int| i < j < list.len() ==> (#[trigger] list[j]).id != id
            },
{
    lemma_uuid_keys(list);
    lemma_user_ids(list);
    if uuid_keys(list).contains(k) {
        let i = lemma_last_with_uuid_is_last(list, k);
        assert(list[i] == synced_whitelist(list)[k]);
    }
    if exists|i: int| 0 <= i < list.len() && normalize(#[trigger] list[i].uuid) == k {
        let i = choose|i: int| 0 <= i < list.len() && normalize(#[trigger] list[i].uuid) == k;
        assert(uuid_keys(list).contains(k));
    }
    if user_ids(list).contains(id) {
        let i = lemma_last_with_id_is_last(list, id);
        assert(synced_id_index(list)[id] == normalize(list[i].uuid));
    }
    if exists|i: int| 0 <= i < list.len() && (#[trigger] list[i]).id == id {
        let i = choose|i: int| 0 <= i < list.len() && (#[trigger] list[i]).id == id;
        assert(user_ids(list).contains(id));
    }
}

/// Authentication tries the trimmed token first and, only where that finds
/// nothing and lowercasing changes it, the lowercase form.
pub proof fn law_lookup_tries_trimmed_then_lowercase(users: Map<Seq<char>, UserRecord>, token: Seq<char>)
    ensures
        users.contains_key(trim(token)) ==> lookup_token(users, token) == Some(users[trim(token)]),
        !users.contains_key(trim(token)) && lowercase(trim(token)) != trim(token) && users.contains_key(
            lowercase(trim(token)),
        ) ==> lookup_token(users, token) == Some(users[lowercase(trim(token))]),
        !users.contains_key(trim(token)) && (lowercase(trim(token)) == trim(token) || !users.contains_key(
            lowercase(trim(token)),
        )) ==> lookup_token(users, token) is None,
{
}


proof fn lemma_stored_from_empty_keys(list: Seq<UserRecord>)
    ensures
        stored_users(Map::empty(), list).dom() == uuid_keys(list),
    decreases list.len(),
{
    if list.len() > 0 {
        lemma_stored_from_empty_keys(list.drop_last());
        assert(stored_users(Map::empty(), list).dom() =~= uuid_keys(list));
    } else {
        assert(stored_users(Map::empty(), list).dom() =~= uuid_keys(list));
    }
}

/// A first synchronization (empty whitelist) with users whose normalized
/// UUIDs are distinct adds every one of them: it reports as many active
/// users and as many added users as the list holds.
pub proof fn law_first_sync_adds_every_user(list: Seq<UserRecord>)
    requires
        distinct_uuid_keys(list),
    ensures
        changes(Map::empty(), list) == list.len(),
        uuid_keys(list).len() == list.len(),
    decreases list.len(),
{
    if list.len() > 0 {
        let q = list.drop_last();
        assert(distinct_uuid_keys(q)) by {
            assert forall|a: int, b: int| 0 <= a < b < q.len() implies normalize(#[trigger] q[a].uuid)
                != normalize(#[trigger] q[b].uuid) by {
                assert(q[a] == list[a] && q[b] == list[b]);
            }
        }
        law_first_sync_adds_every_user(q);
        lemma_stored_from_empty_keys(q);
        lemma_uuid_keys(q);
        let k = normalize(list.last().uuid);
        assert(!uuid_keys(q).contains(k)) by {
            if uuid_keys(q).contains(k) {
                let i = choose|i: int| 0 <= i < q.len() && normalize(q[i].uuid) == k;
                assert(q[i] == list[i]);
                assert(normalize(list[i].uuid) != normalize(list[list.len() - 1].uuid));
            }
        }
    }
}

} // verus!
