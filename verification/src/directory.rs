//! String-keyed tables.
//!
//! `dashmap` answers which keys a table holds; the values themselves live in a
//! vector that the map points into, so that verified code can reach and change
//! them in place.
use dashmap::DashMap;
use vstd::prelude::*;

verus! {

/// `dashmap::DashMap`, seen from outside only.
#[verifier::external_type_specification]
#[verifier::external_body]
#[verifier::reject_recursive_types(K)]
#[verifier::reject_recursive_types(V)]
#[verifier::reject_recursive_types(S)]
pub struct ExDashMap<K, V, S>(dashmap::DashMap<K, V, S>);

/// The entries that a `DashMap` holds.
pub uninterp spec fn dash_contents(m: DashMap<String, u64>) -> Map<Seq<char>, u64>;

/// `walk` names every member of `keys` once, in some order.
pub open spec fn enumerates(walk: Seq<Seq<char>>, keys: Set<Seq<char>>) -> bool {
    &&& walk.no_duplicates()
    &&& walk.to_set() == keys
}

/// What a list of strings says.
pub open spec fn texts(list: Seq<String>) -> Seq<Seq<char>> {
    list.map_values(|s: String| s@)
}

/// What a list of entries says.
pub open spec fn entries_said(entries: Seq<(String, u64)>) -> Seq<(Seq<char>, u64)> {
    entries.map_values(|e: (String, u64)| (e.0@, e.1))
}

/// The keys of a list of entries.
pub open spec fn keys_of(entries: Seq<(Seq<char>, u64)>) -> Seq<Seq<char>> {
    entries.map_values(|e: (Seq<char>, u64)| e.0)
}

/// `walk` lists every entry of `m` once, in some order.
pub open spec fn walks(walk: Seq<(Seq<char>, u64)>, m: Map<Seq<char>, u64>) -> bool {
    &&& enumerates(keys_of(walk), m.dom())
    &&& forall|i: int| 0 <= i < walk.len() ==> m[(#[trigger] walk[i]).0] == walk[i].1
}

/// A walk is as long as there are entries.
pub proof fn lemma_walk_len(walk: Seq<(Seq<char>, u64)>, m: Map<Seq<char>, u64>)
    requires
        walks(walk, m),
    ensures
        m.dom().finite(),
        walk.len() == m.len(),
{
    keys_of(walk).unique_seq_to_set();
    vstd::seq_lib::seq_to_set_is_finite(keys_of(walk));
}

/// Calls `DashMap::new`: the new map holds nothing.
#[verifier::external_body]
pub(crate) fn dash_new() -> (m: DashMap<String, u64>)
    ensures
        (dash_contents(m) == Map::<Seq<char>, u64>::empty()),
{
    DashMap::new()
}

/// Calls `DashMap::insert`: the key is then bound to the value, whatever it was
/// bound to before, and the earlier value is handed back.
#[verifier::external_body]
pub(crate) fn dash_insert(m: &mut DashMap<String, u64>, key: String, value: u64) -> (old_value:
    Option<u64>)
    ensures
        dash_contents(*final(m)) == dash_contents(*old(m)).insert(key@, value),
        old_value == (if dash_contents(*old(m)).contains_key(key@) {
            Some(dash_contents(*old(m))[key@])
        } else {
            None
        }),
{
    m.insert(key, value)
}

/// Calls `DashMap::remove`: the key is then unbound, and the entry it had is
/// handed back.
#[verifier::external_body]
pub(crate) fn dash_remove(m: &mut DashMap<String, u64>, key: &str) -> (entry: Option<
    (String, u64),
>)
    ensures
        dash_contents(*final(m)) == dash_contents(*old(m)).remove(key@),
        entry is Some == dash_contents(*old(m)).contains_key(key@),
        entry matches Some(e) ==> e.0@ == key@ && e.1 == dash_contents(*old(m))[key@],
{
    m.remove(key)
}

/// Calls `DashMap::get`: the value that the key is bound to, if it is bound.
#[verifier::external_body]
pub(crate) fn dash_get(m: &DashMap<String, u64>, key: &str) -> (value: Option<u64>)
    ensures
        value == (if dash_contents(*m).contains_key(key@) {
            Some(dash_contents(*m)[key@])
        } else {
            None
        }),
{
    m.get(key).map(|entry| *entry.value())
}

/// Calls `DashMap::contains_key`: whether the key is bound.
#[verifier::external_body]
pub(crate) fn dash_contains_key(m: &DashMap<String, u64>, key: &str) -> (found: bool)
    ensures
        found == dash_contents(*m).contains_key(key@),
{
    m.contains_key(key)
}

/// Calls `DashMap::iter`: every entry once. The order is the map's own and is
/// left open.
#[verifier::external_body]
pub(crate) fn dash_iter(m: &DashMap<String, u64>) -> (entries: Vec<(String, u64)>)
    ensures
        walks(entries_said(entries@), dash_contents(*m)),
{
    m.iter().map(|entry| (entry.key().clone(), *entry.value())).collect()
}

/// Calls `DashMap::len`: how many entries there are.
#[verifier::external_body]
pub(crate) fn dash_len(m: &DashMap<String, u64>) -> (len: usize)
    ensures
        len == dash_contents(*m).len(),
{
    m.len()
}

/// Calls `DashMap::is_empty`: whether no key is bound.
#[verifier::external_body]
pub(crate) fn dash_is_empty(m: &DashMap<String, u64>) -> (empty: bool)
    ensures
        empty == (dash_contents(*m) == Map::<Seq<char>, u64>::empty()),
{
    m.is_empty()
}

/// Calls `DashMap::clear`: no key is bound any more.
#[verifier::external_body]
pub(crate) fn dash_clear(m: &mut DashMap<String, u64>)
    ensures
        (dash_contents(*final(m)) == Map::<Seq<char>, u64>::empty()),
{
    m.clear()
}

/// A table from strings to values of `V`.
#[verifier::reject_recursive_types(V)]
pub struct Directory<V> {
    /// Where in `slots` the value of each key is.
    index: DashMap<String, u64>,
    /// The values; `None` where nothing is kept.
    slots: Vec<Option<V>>,
    /// The slots that keep nothing.
    free: Vec<usize>,
}

impl<V> Directory<V> {
    /// Each key has a value in a slot of its own, and the free slots, each listed once,
    /// keep nothing.
    pub closed spec fn wf(self) -> bool {
        let at = dash_contents(self.index);
        &&& forall|k: Seq<char>| #[trigger]
            at.contains_key(k) ==> at[k] < self.slots.len() && self.slots[at[k] as int] is Some
        &&& forall|j: Seq<char>, k: Seq<char>| #[trigger]
            at.contains_key(j) && #[trigger] at.contains_key(k) && at[j] == at[k] ==> j == k
        &&& forall|i: int|
            0 <= i < self.free.len() ==> (#[trigger] self.free[i]) < self.slots.len()
                && self.slots[self.free[i] as int] is None
        &&& self.free@.no_duplicates()
    }

    pub closed spec fn contents(self) -> Map<Seq<char>, V> {
        let at = dash_contents(self.index);
        Map::new(|k: Seq<char>| at.contains_key(k), |k: Seq<char>| self.slots[at[k] as int]->0)
    }

    pub fn new() -> (table: Self)
        ensures
            table.wf(),
            table@ == Map::<Seq<char>, V>::empty(),
    {
        let table = Directory { index: dash_new(), slots: Vec::new(), free: Vec::new() };
        assert(table@ =~= Map::<Seq<char>, V>::empty());
        table
    }

    pub fn contains_key(&self, key: &str) -> (found: bool)
        requires
            self.wf(),
        ensures
            found == self@.contains_key(key@),
    {
        dash_contains_key(&self.index, key)
    }

    pub fn get(&self, key: &str) -> (value: Option<&V>)
        requires
            self.wf(),
        ensures
            value is Some == self@.contains_key(key@),
            value matches Some(v) ==> *v == self@[key@],
    {
        match dash_get(&self.index, key) {
            Some(at) => {
                assert(dash_contents(self.index).contains_key(key@));
                self.slots[at as usize].as_ref()
            },
            None => None,
        }
    }

    pub fn get_mut(&mut self, key: &str) -> (value: Option<&mut V>)
        requires
            old(self).wf(),
        ensures
            final(self).wf(),
            value is Some == old(self)@.contains_key(key@),
            value matches Some(v) ==> *v == old(self)@[key@] && final(self)@ == old(self)@.insert(
                key@,
                *final(v),
            ),
            value is None ==> final(self)@ == old(self)@,
    {
        match dash_get(&self.index, key) {
            Some(at) => {
                assert(dash_contents(self.index).contains_key(key@));
                self.slots[at as usize].as_mut()
            },
            None => None,
        }
    }

    /// Binds the key to the value, whatever it was bound to before.
    pub fn insert(&mut self, key: String, value: V)
        requires
            old(self).wf(),
        ensures
            final(self).wf(),
            final(self)@ == old(self)@.insert(key@, value),
    {
        let ghost before = dash_contents(self.index);
        match dash_get(&self.index, key.as_str()) {
            Some(at) => {
                assert(before.contains_key(key@));
                self.slots[at as usize] = Some(value);
            },
            None => {
                let at: usize = match self.free.pop() {
                    Some(at) => {
                        assert(at == old(self).free[old(self).free.len() - 1]);
                        self.slots[at] = Some(value);
                        at
                    },
                    None => {
                        self.slots.push(Some(value));
                        self.slots.len() - 1
                    },
                };
                let _replaced = dash_insert(&mut self.index, key, at as u64);
                assert(forall|k: Seq<char>| #[trigger]
                    dash_contents(self.index).contains_key(k) && k != key@
                        ==> before.contains_key(k));
            },
        }
        assert(self@ =~= old(self)@.insert(key@, value));
    }

    /// Unbinds the key and hands back what it was bound to.
    pub fn remove(&mut self, key: &str) -> (value: Option<V>)
        requires
            old(self).wf(),
        ensures
            final(self).wf(),
            final(self)@ == old(self)@.remove(key@),
            value is Some == old(self)@.contains_key(key@),
            value matches Some(v) ==> v == old(self)@[key@],
    {
        let ghost before = dash_contents(self.index);
        let value = match dash_remove(&mut self.index, key) {
            Some(entry) => {
                assert(before.contains_key(key@));
                self.free.push(entry.1 as usize);
                self.slots[entry.1 as usize].take()
            },
            None => None,
        };
        assert(forall|k: Seq<char>| #[trigger]
            dash_contents(self.index).contains_key(k) ==> before.contains_key(k));
        assert(self@ =~= old(self)@.remove(key@));
        value
    }

    /// Every key once, in an order that is left open.
    pub fn keys(&self) -> (keys: Vec<String>)
        requires
            self.wf(),
        ensures
            enumerates(texts(keys@), self@.dom()),
    {
        let entries = dash_iter(&self.index);
        let mut keys: Vec<String> = Vec::new();
        let mut i: usize = 0;
        while i < entries.len()
            invariant
                i <= entries.len(),
                keys.len() == i,
                forall|j: int| 0 <= j < i ==> (#[trigger] keys[j])@ == entries[j].0@,
            decreases entries.len() - i,
        {
            keys.push(entries[i].0.clone());
            i = i + 1;
        }
        assert(texts(keys@) =~= keys_of(entries_said(entries@)));
        assert(self@.dom() =~= dash_contents(self.index).dom());
        keys
    }

    /// Unbinds every key.
    pub fn clear(&mut self)
        ensures
            final(self).wf(),
            final(self)@ == Map::<Seq<char>, V>::empty(),
    {
        dash_clear(&mut self.index);
        self.slots.clear();
        self.free.clear();
        assert(self@ =~= Map::<Seq<char>, V>::empty());
    }
}

impl<V> View for Directory<V> {
    type V = Map<Seq<char>, V>;

    open spec fn view(&self) -> Map<Seq<char>, V> {
        self.contents()
    }
}

} // verus!
