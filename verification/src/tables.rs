//! The concurrent maps of the `dashmap` crate, as this library uses them.
//!
//! `DashMap` is opaque to the verifier. For each instantiation that the
//! library holds, a name gives its contents as a `Map` of plain values, and
//! each method that the library calls has a wrapper whose contract states,
//! over that name, what the method does (as `dashmap`'s source shows it).
//! Methods that mutate through `&self` in `dashmap` are wrapped with a `&mut`
//! argument, so that the contract can relate the contents before and after.
use crate::strmap::StrMap;
use crate::user::{id_set_contains, UserInfo, UserRecord};
use dashmap::DashMap;
use std::collections::HashSet;
use vstd::prelude::*;

verus! {

#[verifier::external_type_specification]
#[verifier::external_body]
#[verifier::reject_recursive_types(K)]
#[verifier::reject_recursive_types(V)]
#[verifier::reject_recursive_types(S)]
pub struct ExDashMap<K, V, S>(DashMap<K, V, S>);

/// Contents of a user whitelist: normalized UUID -> user.
pub uninterp spec fn uuid_table(m: DashMap<String, UserInfo>) -> Map<Seq<char>, UserRecord>;

/// Contents of a reverse index: user ID -> normalized UUID.
pub uninterp spec fn id_table(m: DashMap<u32, String>) -> Map<u32, Seq<char>>;

/// Contents of a node index by tag: tag -> position in the node list.
pub uninterp spec fn tag_table(m: DashMap<String, usize>) -> Map<Seq<char>, usize>;

/// Contents of a node index by node ID: node ID -> position in the node list.
pub uninterp spec fn node_id_table(m: DashMap<u32, usize>) -> Map<u32, usize>;

// ---------------------------------------------------------------------------
// DashMap<String, UserInfo>
// ---------------------------------------------------------------------------

/// `DashMap::new`: an empty map.
#[verifier::external_body]
pub(crate) fn users_new() -> (r: DashMap<String, UserInfo>)
    ensures
        uuid_table(r) == (Map::<Seq<char>, UserRecord>::empty()),
{
    DashMap::new()
}

/// `DashMap::get`, with the found value copied out of the guard: the user
/// stored under `k`, if any.
#[verifier::external_body]
pub(crate) fn users_get(m: &DashMap<String, UserInfo>, k: &str) -> (r: Option<UserInfo>)
    ensures
        match r {
            Some(u) => uuid_table(*m).contains_key(k@) && u@ == uuid_table(*m)[k@],
            None => !uuid_table(*m).contains_key(k@),
        },
{
    match m.get(k) {
        Some(entry) => Some(entry.value().clone()),
        None => None,
    }
}

/// `DashMap::insert`: stores `u` under `k`, replacing any previous value.
#[verifier::external_body]
pub(crate) fn users_insert(m: &mut DashMap<String, UserInfo>, k: String, u: UserInfo)
    ensures
        uuid_table(*final(m)) == uuid_table(*old(m)).insert(k@, u@),
{
    m.insert(k, u);
}

/// `DashMap::retain`: keeps exactly the entries whose key is in `keep`.
#[verifier::external_body]
pub(crate) fn users_retain(m: &mut DashMap<String, UserInfo>, keep: &StrMap<()>)
    ensures
        uuid_table(*final(m)) == uuid_table(*old(m)).restrict(keep@.dom()),
{
    m.retain(|k, _| keep.contains_key(k));
}

/// `DashMap::len`: the number of entries.
#[verifier::external_body]
pub(crate) fn users_len(m: &DashMap<String, UserInfo>) -> (n: usize)
    ensures
        n == uuid_table(*m).len(),
{
    m.len()
}

/// `DashMap::iter`, with every value copied out: each stored user once, in
/// the order in which the iterator visits the entries (which the contract
/// leaves open).
#[verifier::external_body]
pub(crate) fn users_values(m: &DashMap<String, UserInfo>) -> (r: Vec<UserInfo>)
    ensures
        exists|keys: Seq<Seq<char>>|
            #![trigger keys.len()]
            {
                &&& keys.no_duplicates()
                &&& keys.to_set() == uuid_table(*m).dom()
                &&& keys.len() == r@.len()
                &&& forall|i: int|
                    0 <= i < keys.len() ==> #[trigger] r@[i]@ == uuid_table(*m)[keys[i]]
            },
{
    let mut out = Vec::new();
    for entry in m.iter() {
        out.push(entry.value().clone());
    }
    out
}

// ---------------------------------------------------------------------------
// DashMap<u32, String>
// ---------------------------------------------------------------------------

/// `DashMap::new`: an empty map.
#[verifier::external_body]
pub(crate) fn ids_new() -> (r: DashMap<u32, String>)
    ensures
        id_table(r) == (Map::<u32, Seq<char>>::empty()),
{
    DashMap::new()
}

/// `DashMap::get`, with the found value copied out of the guard.
#[verifier::external_body]
pub(crate) fn ids_get(m: &DashMap<u32, String>, id: u32) -> (r: Option<String>)
    ensures
        match r {
            Some(s) => id_table(*m).contains_key(id) && s@ == id_table(*m)[id],
            None => !id_table(*m).contains_key(id),
        },
{
    match m.get(&id) {
        Some(entry) => Some(entry.value().clone()),
        None => None,
    }
}

/// `DashMap::insert`: stores `s` under `id`, replacing any previous value.
#[verifier::external_body]
pub(crate) fn ids_insert(m: &mut DashMap<u32, String>, id: u32, s: String)
    ensures
        id_table(*final(m)) == id_table(*old(m)).insert(id, s@),
{
    m.insert(id, s);
}

/// `DashMap::retain`: keeps exactly the entries whose key is in `keep`.
#[verifier::external_body]
pub(crate) fn ids_retain(m: &mut DashMap<u32, String>, keep: &HashSet<u32>)
    ensures
        id_table(*final(m)) == id_table(*old(m)).restrict(keep@),
{
    m.retain(|id, _| id_set_contains(keep, *id));
}

// ---------------------------------------------------------------------------
// DashMap<String, usize> and DashMap<u32, usize>
// ---------------------------------------------------------------------------

/// `DashMap::new`: an empty map.
#[verifier::external_body]
pub(crate) fn tags_new() -> (r: DashMap<String, usize>)
    ensures
        tag_table(r) == (Map::<Seq<char>, usize>::empty()),
{
    DashMap::new()
}

/// `DashMap::get`, with the found value copied out of the guard.
#[verifier::external_body]
pub(crate) fn tags_get(m: &DashMap<String, usize>, k: &str) -> (r: Option<usize>)
    ensures
        match r {
            Some(i) => tag_table(*m).contains_key(k@) && i == tag_table(*m)[k@],
            None => !tag_table(*m).contains_key(k@),
        },
{
    match m.get(k) {
        Some(entry) => Some(*entry.value()),
        None => None,
    }
}

/// `DashMap::insert`: stores `i` under `k`, replacing any previous value.
#[verifier::external_body]
pub(crate) fn tags_insert(m: &mut DashMap<String, usize>, k: String, i: usize)
    ensures
        tag_table(*final(m)) == tag_table(*old(m)).insert(k@, i),
{
    m.insert(k, i);
}

/// `DashMap::new`: an empty map.
#[verifier::external_body]
pub(crate) fn node_ids_new() -> (r: DashMap<u32, usize>)
    ensures
        node_id_table(r) == (Map::<u32, usize>::empty()),
{
    DashMap::new()
}

/// `DashMap::get`, with the found value copied out of the guard.
#[verifier::external_body]
pub(crate) fn node_ids_get(m: &DashMap<u32, usize>, id: u32) -> (r: Option<usize>)
    ensures
        match r {
            Some(i) => node_id_table(*m).contains_key(id) && i == node_id_table(*m)[id],
            None => !node_id_table(*m).contains_key(id),
        },
{
    match m.get(&id) {
        Some(entry) => Some(*entry.value()),
        None => None,
    }
}

/// `DashMap::insert`: stores `i` under `id`, replacing any previous value.
#[verifier::external_body]
pub(crate) fn node_ids_insert(m: &mut DashMap<u32, usize>, id: u32, i: usize)
    ensures
        node_id_table(*final(m)) == node_id_table(*old(m)).insert(id, i),
{
    m.insert(id, i);
}

} // verus!
