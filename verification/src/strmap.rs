//! A map keyed by strings that keeps its entries in insertion order.
//!
//! It stands where a `HashMap<String, V>` is used for plain data (traffic
//! snapshots, push payloads, grouping by URL): its view is a `Map` from the
//! key's characters to the value, and its `pairs` give the entries in the
//! order in which their keys were first inserted.
use vstd::prelude::*;

verus! {

/// No key occurs twice.
pub open spec fn distinct_keys<V>(p: Seq<(Seq<char>, V)>) -> bool {
    forall|i: int, j: int| 0 <= i < j < p.len() ==> #[trigger] p[i].0 != #[trigger] p[j].0
}

/// The map that a sequence of entries describes (a later entry wins).
pub open spec fn pairs_to_map<V>(p: Seq<(Seq<char>, V)>) -> Map<Seq<char>, V>
    decreases p.len(),
{
    if p.len() == 0 {
        Map::empty()
    } else {
        pairs_to_map(p.drop_last()).insert(p.last().0, p.last().1)
    }
}

/// Position of key `k` among the entries, if it occurs.
pub open spec fn key_index<V>(p: Seq<(Seq<char>, V)>, k: Seq<char>) -> Option<int>
    decreases p.len(),
{
    if p.len() == 0 {
        None
    } else if p.last().0 == k {
        Some(p.len() - 1)
    } else {
        key_index(p.drop_last(), k)
    }
}

/// The entries with distinct keys describe a finite map with one key per entry.
pub proof fn lemma_pairs_to_map<V>(p: Seq<(Seq<char>, V)>)
    requires
        distinct_keys(p),
    ensures
        pairs_to_map(p).dom().finite(),
        pairs_to_map(p).len() == p.len(),
        forall|i: int|
            0 <= i < p.len() ==> #[trigger] pairs_to_map(p).contains_key(p[i].0) && pairs_to_map(
                p,
            )[p[i].0] == p[i].1,
        forall|k: Seq<char>| #[trigger]
            pairs_to_map(p).contains_key(k) ==> exists|i: int| 0 <= i < p.len() && p[i].0 == k,
    decreases p.len(),
{
    if p.len() > 0 {
        let q = p.drop_last();
        assert(distinct_keys(q));
        lemma_pairs_to_map(q);
        let m = pairs_to_map(q);
        assert(!m.contains_key(p.last().0)) by {
            if m.contains_key(p.last().0) {
                let i = choose|i: int| 0 <= i < q.len() && q[i].0 == p.last().0;
                assert(p[i].0 == p[p.len() - 1].0);
            }
        }
        assert forall|i: int| 0 <= i < p.len() implies #[trigger] pairs_to_map(p).contains_key(
            p[i].0,
        ) && pairs_to_map(p)[p[i].0] == p[i].1 by {
            if i < p.len() - 1 {
                assert(q[i] == p[i]);
                assert(p[i].0 != p[p.len() - 1].0);
            }
        }
        assert forall|k: Seq<char>| #[trigger]
            pairs_to_map(p).contains_key(k) implies exists|i: int| 0 <= i < p.len() && p[i].0 == k by {
            if k != p.last().0 {
                let i = choose|i: int| 0 <= i < q.len() && q[i].0 == k;
                assert(p[i].0 == k);
            } else {
                assert(p[p.len() - 1].0 == k);
            }
        }
    }
}

/// `key_index` finds the entry that holds the key.
pub proof fn lemma_key_index<V>(p: Seq<(Seq<char>, V)>, k: Seq<char>)
    requires
        distinct_keys(p),
    ensures
        key_index(p, k) matches Some(i) ==> 0 <= i < p.len() && p[i].0 == k,
        key_index(p, k) is None ==> forall|i: int| 0 <= i < p.len() ==> p[i].0 != k,
        forall|i: int| 0 <= i < p.len() && p[i].0 == k ==> key_index(p, k) == Some(i),
    decreases p.len(),
{
    if p.len() > 0 {
        let q = p.drop_last();
        assert(distinct_keys(q));
        lemma_key_index(q, k);
        assert forall|i: int| 0 <= i < p.len() && p[i].0 == k implies key_index(p, k) == Some(
            i,
        ) by {
            if i < p.len() - 1 {
                assert(q[i] == p[i]);
                assert(p[i].0 != p[p.len() - 1].0);
            }
        }
        if key_index(p, k) is None {
            assert forall|i: int| 0 <= i < p.len() implies p[i].0 != k by {
                if i < p.len() - 1 {
                    assert(q[i] == p[i]);
                }
            }
        }
    }
}

/// A string-keyed map whose entries keep the order in which their keys were
/// first inserted.
pub struct StrMap<V> {
    entries: Vec<(String, V)>,
}

impl<V> View for StrMap<V> {
    type V = Map<Seq<char>, V>;

    closed spec fn view(&self) -> Map<Seq<char>, V> {
        pairs_to_map(self.pairs())
    }
}

impl<V> StrMap<V> {
    /// The entries, as (key characters, value), in insertion order.
    pub closed spec fn pairs(&self) -> Seq<(Seq<char>, V)> {
        self.entries@.map_values(|e: (String, V)| (e.0@, e.1))
    }

    /// No key occurs twice among the entries; every `StrMap` keeps this.
    #[verifier::type_invariant]
    pub closed spec fn well_formed(&self) -> bool {
        distinct_keys(self.pairs())
    }

    /// What a well-formed map's entries say of its view.
    pub proof fn lemma_wf(&self)
        requires
            self.well_formed(),
        ensures
            distinct_keys(self.pairs()),
            self@ == pairs_to_map(self.pairs()),
            self@.dom().finite(),
            self@.len() == self.pairs().len(),
            forall|i: int|
                0 <= i < self.pairs().len() ==> #[trigger] self@.contains_key(self.pairs()[i].0)
                    && self@[self.pairs()[i].0] == self.pairs()[i].1,
            forall|k: Seq<char>| #[trigger]
                self@.contains_key(k) ==> exists|i: int|
                    0 <= i < self.pairs().len() && self.pairs()[i].0 == k,
    {
        let p = self.pairs();
        lemma_pairs_to_map(p);
        assert forall|i: int| 0 <= i < p.len() implies #[trigger] self@.contains_key(p[i].0)
            && self@[p[i].0] == p[i].1 by {
            assert(pairs_to_map(p).contains_key(p[i].0));
        }
    }

    /// An empty map.
    pub fn new() -> (m: Self)
        ensures
            m.pairs() == Seq::<(Seq<char>, V)>::empty(),
            m@ == Map::<Seq<char>, V>::empty(),
    {
        let m = StrMap { entries: Vec::new() };
        assert(m.pairs() =~= Seq::<(Seq<char>, V)>::empty());
        m
    }

    /// Number of entries.
    pub fn len(&self) -> (n: usize)
        ensures
            n == self.pairs().len(),
            n == self@.len(),
    {
        proof {
            use_type_invariant(self);
            self.lemma_wf();
        }
        self.entries.len()
    }

    pub fn is_empty(&self) -> (b: bool)
        ensures
            b == (self@.len() == 0),
    {
        self.len() == 0
    }

    /// The key and value of the entry at position `i`.
    pub fn entry_at(&self, i: usize) -> (r: (&String, &V))
        requires
            i < self.pairs().len(),
        ensures
            (r.0@, *r.1) == self.pairs()[i as int],
    {
        let e = &self.entries[i];
        (&e.0, &e.1)
    }

    /// Position of the entry with key `k`.
    pub fn position(&self, k: &str) -> (r: Option<usize>)
        ensures
            r matches Some(i) ==> key_index(self.pairs(), k@) == Some(i as int),
            r is None ==> key_index(self.pairs(), k@) is None,
            r is None <==> !self@.contains_key(k@),
    {
        proof {
            use_type_invariant(self);
            self.lemma_wf();
            lemma_key_index(self.pairs(), k@);
        }
        let n = self.entries.len();
        for i in 0..n
            invariant
                n == self.pairs().len(),
                forall|j: int| 0 <= j < i ==> self.pairs()[j].0 != k@,
                forall|j: int| 0 <= j < n ==> #[trigger] self@.contains_key(self.pairs()[j].0),
                forall|j: int| 0 <= j < n && self.pairs()[j].0 == k@ ==> key_index(self.pairs(), k@) == Some(j),
                key_index(self.pairs(), k@) is None ==> forall|j: int| 0 <= j < n ==> self.pairs()[j].0 != k@,
        {
            let key: &str = self.entries[i].0.as_str();
            assert(self.pairs()[i as int] == (self.entries@[i as int].0@, self.entries@[i as int].1));
            if str_eq(key, k) {
                return Some(i);
            }
        }
        None
    }

    pub fn contains_key(&self, k: &str) -> (b: bool)
        ensures
            b == self@.contains_key(k@),
    {
        self.position(k).is_some()
    }

    /// The value stored under `k`.
    pub fn get(&self, k: &str) -> (r: Option<&V>)
        ensures
            r matches Some(v) ==> self@.contains_key(k@) && *v == self@[k@],
            r is None ==> !self@.contains_key(k@),
    {
        proof {
            use_type_invariant(self);
            self.lemma_wf();
            lemma_key_index(self.pairs(), k@);
        }
        match self.position(k) {
            Some(i) => Some(&self.entries[i].1),
            None => None,
        }
    }

    /// Stores `v` under `k`: an existing entry keeps its position and takes
    /// the new value, a new key goes last.
    pub fn insert(&mut self, k: String, v: V)
        ensures
            final(self)@ == old(self)@.insert(k@, v),
            final(self).pairs() == (match key_index(old(self).pairs(), k@) {
                Some(i) => old(self).pairs().update(i, (k@, v)),
                None => old(self).pairs().push((k@, v)),
            }),
    {
        proof {
            use_type_invariant(&*self);
            self.lemma_wf();
            lemma_key_index(self.pairs(), k@);
        }
        let ghost old_pairs = self.pairs();
        let pos = self.position(k.as_str());
        let ghost new_pairs = match key_index(old_pairs, k@) {
            Some(i) => old_pairs.update(i, (k@, v)),
            None => old_pairs.push((k@, v)),
        };
        proof {
            assert forall|i: int, j: int| 0 <= i < j < new_pairs.len() implies #[trigger] new_pairs[i].0
                != #[trigger] new_pairs[j].0 by {
                if pos is Some {
                    let p = pos->0 as int;
                    if i != p && j != p {
                        assert(new_pairs[i] == old_pairs[i]);
                        assert(new_pairs[j] == old_pairs[j]);
                    } else if i == p {
                        assert(new_pairs[j] == old_pairs[j]);
                    } else {
                        assert(new_pairs[i] == old_pairs[i]);
                    }
                } else {
                    if j < old_pairs.len() {
                        assert(new_pairs[i] == old_pairs[i]);
                        assert(new_pairs[j] == old_pairs[j]);
                    } else {
                        assert(new_pairs[i] == old_pairs[i]);
                    }
                }
            }
            lemma_pairs_to_map(new_pairs);
        }
        let mut entries: Vec<(String, V)> = Vec::new();
        std::mem::swap(&mut entries, &mut self.entries);
        match pos {
            Some(i) => {
                entries.set(i, (k, v));
            },
            None => {
                entries.push((k, v));
            },
        }
        assert(entries@.map_values(|e: (String, V)| (e.0@, e.1)) =~= new_pairs);
        self.entries = entries;
        proof {
            use_type_invariant(&*self);
            self.lemma_wf();
            assert(self.pairs() == new_pairs);
            assert(self@ =~= old(self)@.insert(k@, v)) by {
                assert forall|key: Seq<char>| #[trigger] self@.contains_key(key) implies old(self)@.insert(k@, v).contains_key(key) && self@[key] == old(self)@.insert(k@, v)[key] by {
                    let i = choose|i: int| 0 <= i < new_pairs.len() && new_pairs[i].0 == key;
                    if key != k@ {
                        if pos is Some {
                            assert(i != pos->0);
                            assert(new_pairs[i] == old_pairs[i]);
                        } else {
                            assert(i < old_pairs.len());
                            assert(new_pairs[i] == old_pairs[i]);
                        }
                    } else {
                        if pos is Some {
                            assert(new_pairs[pos->0 as int] == (k@, v));
                        } else {
                            assert(new_pairs[old_pairs.len() as int] == (k@, v));
                        }
                    }
                }
                assert forall|key: Seq<char>| #[trigger] old(self)@.insert(k@, v).contains_key(key) implies self@.contains_key(key) by {
                    if key != k@ {
                        let i = choose|i: int| 0 <= i < old_pairs.len() && old_pairs[i].0 == key;
                        if pos is Some {
                            assert(i != pos->0);
                        }
                        assert(new_pairs[i] == old_pairs[i]);
                        assert(self@.contains_key(self.pairs()[i].0));
                    } else {
                        if pos is Some {
                            assert(new_pairs[pos->0 as int] == (k@, v));
                            assert(self@.contains_key(self.pairs()[pos->0 as int].0));
                        } else {
                            assert(new_pairs[old_pairs.len() as int] == (k@, v));
                            assert(self@.contains_key(self.pairs()[old_pairs.len() as int].0));
                        }
                    }
                }
            }
        }
    }
}

/// String slice equality by characters.
pub fn str_eq(a: &str, b: &str) -> (r: bool)
    ensures
        r == (a@ == b@),
{
    let x = a.to_string();
    let y = b.to_string();
    proof {
        vstd::string::to_string_from_display_ensures_for_str(a, x);
        vstd::string::to_string_from_display_ensures_for_str(b, y);
    }
    x == y
}

} // verus!
