//! A cache of bounded size that gives up the entry that was used longest ago.
//! It is an accelerator in front of a store and never the record of anything.

use vstd::prelude::*;

verus! {

/// `im::HashMap`, taken as it is: nothing is known of what is inside but what
/// the functions below say.
#[verifier::external_type_specification]
#[verifier::external_body]
#[verifier::reject_recursive_types(K)]
#[verifier::reject_recursive_types(V)]
#[verifier::reject_recursive_types(S)]
pub struct ExHashMap<K, V, S>(im::HashMap<K, V, S>);

/// `im::OrdMap`, taken as it is: nothing is known of what is inside but what
/// the functions below say.
#[verifier::external_type_specification]
#[verifier::external_body]
#[verifier::reject_recursive_types(K)]
#[verifier::reject_recursive_types(V)]
pub struct ExOrdMap<K, V>(im::OrdMap<K, V>);

/// What a map of entries holds: under each key the tick of its last use and
/// its value.
pub uninterp spec fn entry_map(m: im::HashMap<Vec<u8>, (usize, Vec<u8>)>) -> Map<
    Seq<u8>,
    (usize, Seq<u8>),
>;

/// What a map of priorities holds: under each tick the key that was used then.
pub uninterp spec fn priority_map(m: im::OrdMap<usize, Vec<u8>>) -> Map<usize, Seq<u8>>;

/// The map of entries that holds nothing.
pub open spec fn no_entries() -> Map<Seq<u8>, (usize, Seq<u8>)> {
    Map::empty()
}

/// The map of priorities that holds nothing.
pub open spec fn no_priorities() -> Map<usize, Seq<u8>> {
    Map::empty()
}

/// The map has finitely many keys, `n` of them.
pub open spec fn counts(n: usize, m: Map<Seq<u8>, (usize, Seq<u8>)>) -> bool {
    m.dom().finite() && m.len() == n
}

/// `im::HashMap::new`: a map that holds nothing.
#[verifier::external_body]
fn entries_new() -> (made: im::HashMap<Vec<u8>, (usize, Vec<u8>)>)
    ensures
        entry_map(made) == no_entries(),
{
    im::HashMap::new()
}

/// `im::HashMap::get`: what the map holds under the key, if anything.
#[verifier::external_body]
fn entries_get(m: &im::HashMap<Vec<u8>, (usize, Vec<u8>)>, key: &Vec<u8>) -> (r: Option<
    (usize, Vec<u8>),
>)
    ensures
        match r {
            Some((tick, value)) => entry_map(*m).contains_key(key@) && entry_map(*m)[key@] == (
                tick,
                value@,
            ),
            None => !entry_map(*m).contains_key(key@),
        },
{
    m.get(key).cloned()
}

/// `im::HashMap::update`: the map with the value under the key, in place of
/// what was there.
#[verifier::external_body]
fn entries_update(
    m: &im::HashMap<Vec<u8>, (usize, Vec<u8>)>,
    key: Vec<u8>,
    tick: usize,
    value: Vec<u8>,
) -> (r: im::HashMap<Vec<u8>, (usize, Vec<u8>)>)
    ensures
        entry_map(r) == entry_map(*m).insert(key@, (tick, value@)),
{
    m.update(key, (tick, value))
}

/// `im::HashMap::without`: the map without the key.
#[verifier::external_body]
fn entries_without(m: &im::HashMap<Vec<u8>, (usize, Vec<u8>)>, key: &Vec<u8>) -> (r: im::HashMap<
    Vec<u8>,
    (usize, Vec<u8>),
>)
    ensures
        entry_map(r) == entry_map(*m).remove(key@),
{
    m.without(key)
}

/// `im::HashMap::len`: how many keys the map holds.
#[verifier::external_body]
fn entries_len(m: &im::HashMap<Vec<u8>, (usize, Vec<u8>)>) -> (n: usize)
    ensures
        counts(n, entry_map(*m)),
{
    m.len()
}

/// `im::OrdMap::new`: a map that holds nothing.
#[verifier::external_body]
fn priority_new() -> (made: im::OrdMap<usize, Vec<u8>>)
    ensures
        priority_map(made) == no_priorities(),
{
    im::OrdMap::new()
}

/// `im::OrdMap::update`: the map with the key under the tick, in place of
/// what was there.
#[verifier::external_body]
fn priority_update(m: &im::OrdMap<usize, Vec<u8>>, tick: usize, key: Vec<u8>) -> (r: im::OrdMap<
    usize,
    Vec<u8>,
>)
    ensures
        priority_map(r) == priority_map(*m).insert(tick, key@),
{
    m.update(tick, key)
}

/// `im::OrdMap::without`: the map without the tick.
#[verifier::external_body]
fn priority_without(m: &im::OrdMap<usize, Vec<u8>>, tick: usize) -> (r: im::OrdMap<usize, Vec<u8>>)
    ensures
        priority_map(r) == priority_map(*m).remove(tick),
{
    m.without(&tick)
}

/// `im::OrdMap::get_min`: the smallest tick of the map with its key, if the
/// map holds anything.
#[verifier::external_body]
fn priority_min(m: &im::OrdMap<usize, Vec<u8>>) -> (r: Option<(usize, Vec<u8>)>)
    ensures
        match r {
            Some((tick, key)) => {
                &&& priority_map(*m).contains_key(tick)
                &&& priority_map(*m)[tick] == key@
                &&& forall|t: usize| priority_map(*m).contains_key(t) ==> tick <= t
            },
            None => forall|t: usize| !priority_map(*m).contains_key(t),
        },
{
    m.get_min().cloned()
}

/// The state of a cache at one moment.
pub struct LRUData {
    entries: im::HashMap<Vec<u8>, (usize, Vec<u8>)>,
    priority: im::OrdMap<usize, Vec<u8>>,
    tick: usize,
}

/// The cache.
pub struct LRU {
    data: LRUData,
    capacity: usize,
}

/// The state of a cache as maps: each key with the tick of its last use and
/// its value, each tick in use with its key, and the last tick given out.
pub struct Recency {
    pub entries: Map<Seq<u8>, (usize, Seq<u8>)>,
    pub priority: Map<usize, Seq<u8>>,
    pub tick: usize,
}

impl Recency {
    /// Entries and priorities speak of the same keys and ticks, no tick is
    /// ahead of the counter, and the keys are finitely many.
    pub open spec fn well_formed(self) -> bool {
        &&& self.entries.dom().finite()
        &&& forall|k: Seq<u8>| #[trigger]
            self.entries.contains_key(k) ==> self.priority.contains_key(self.entries[k].0)
                && self.priority[self.entries[k].0] == k
        &&& forall|t: usize| #[trigger]
            self.priority.contains_key(t) ==> t <= self.tick && self.entries.contains_key(
                self.priority[t],
            ) && self.entries[self.priority[t]].0 == t
    }

    /// The values under their keys.
    pub open spec fn values(self) -> Map<Seq<u8>, Seq<u8>> {
        Map::new(|k: Seq<u8>| self.entries.contains_key(k), |k: Seq<u8>| self.entries[k].1)
    }

    /// The tick is in use and no tick in use is before it.
    pub open spec fn is_oldest(self, t: usize) -> bool {
        self.priority.contains_key(t) && forall|u: usize|
            self.priority.contains_key(u) ==> t <= u
    }

    /// The state after `key` was used: it moves to the next tick.
    pub open spec fn touched(self, key: Seq<u8>, value: Seq<u8>) -> Recency {
        let next = (self.tick + 1) as usize;
        Recency {
            entries: self.entries.insert(key, (next, value)),
            priority: (if self.entries.contains_key(key) {
                self.priority.remove(self.entries[key].0)
            } else {
                self.priority
            }).insert(next, key),
            tick: next,
        }
    }

    /// The state without the entry of the tick `t`.
    pub open spec fn evicted(self, t: usize) -> Recency {
        Recency {
            entries: self.entries.remove(self.priority[t]),
            priority: self.priority.remove(t),
            tick: self.tick,
        }
    }
}

impl LRUData {
    /// The state as maps.
    pub closed spec fn view(&self) -> Recency {
        Recency {
            entries: entry_map(self.entries),
            priority: priority_map(self.priority),
            tick: self.tick,
        }
    }
}

impl LRU {
    /// The state of the cache as maps.
    pub closed spec fn view(&self) -> Recency {
        self.data@
    }

    /// How many entries the cache keeps at most.
    pub closed spec fn limit(&self) -> usize {
        self.capacity
    }

    /// The state is consistent and within the limit.
    pub open spec fn well_formed(&self) -> bool {
        self@.well_formed() && self@.entries.len() <= self.limit()
    }

    /// An empty cache that keeps `capacity` entries at most.
    pub fn new(capacity: usize) -> (c: Self)
        ensures
            c.well_formed(),
            c.limit() == capacity,
            c@.entries == no_entries(),
            c@.priority == no_priorities(),
            c@.tick == 0,
    {
        LRU {
            data: LRUData { entries: entries_new(), priority: priority_new(), tick: 0 },
            capacity,
        }
    }

    /// How many entries the cache holds.
    pub fn len(&self) -> (n: usize)
        requires
            self.well_formed(),
        ensures
            n == self@.entries.len(),
    {
        entries_len(&self.data.entries)
    }

    /// The last tick given out.
    pub fn tick(&self) -> (t: usize)
        ensures
            t == self@.tick,
    {
        self.data.tick
    }

    /// The value under `key`, if the cache holds one. A hit counts as a use:
    /// the key moves to the next tick. A miss changes nothing.
    pub fn get(&mut self, key: &Vec<u8>) -> (r: Option<Vec<u8>>)
        requires
            old(self).well_formed(),
            old(self)@.tick < usize::MAX,
        ensures
            final(self).well_formed(),
            final(self).limit() == old(self).limit(),
            match r {
                Some(value) => {
                    &&& old(self)@.entries.contains_key(key@)
                    &&& value@ == old(self)@.entries[key@].1
                    &&& final(self)@ == old(self)@.touched(key@, value@)
                },
                None => !old(self)@.entries.contains_key(key@) && final(self)@ == old(self)@,
            },
    {
        match entries_get(&self.data.entries, key) {
            Some((tick, value)) => {
                let next = self.data.tick + 1;
                let without = priority_without(&self.data.priority, tick);
                let priority = priority_update(&without, next, key.clone());
                let entries = entries_update(&self.data.entries, key.clone(), next, value.clone());
                proof {
                    lemma_touched_well_formed(self@, key@, value@);
                    assert(self@.entries.insert(key@, (next, value@)).dom() =~= self@.entries.dom());
                }
                self.data = LRUData { entries, priority, tick: next };
                Some(value)
            },
            None => None,
        }
    }

    /// Puts `value` under `key`, which counts as a use of the key. Where the
    /// cache then holds more entries than its limit, the entry whose last use
    /// is longest ago leaves.
    pub fn put(&mut self, key: Vec<u8>, value: Vec<u8>)
        requires
            old(self).well_formed(),
            old(self)@.tick < usize::MAX,
        ensures
            final(self).well_formed(),
            final(self).limit() == old(self).limit(),
            old(self)@.touched(key@, value@).entries.len() <= old(self).limit() ==> final(self)@
                == old(self)@.touched(key@, value@),
            old(self)@.touched(key@, value@).entries.len() > old(self).limit() ==> exists|t: usize|
                old(self)@.touched(key@, value@).is_oldest(t) && final(self)@ == old(
                    self,
                )@.touched(key@, value@).evicted(t),
    {
        let next = self.data.tick + 1;
        let without = match entries_get(&self.data.entries, &key) {
            Some((tick, _)) => priority_without(&self.data.priority, tick),
            None => priority_without(&self.data.priority, next),
        };
        let priority = priority_update(&without, next, key.clone());
        let entries = entries_update(&self.data.entries, key.clone(), next, value.clone());
        let ghost mid = self@.touched(key@, value@);
        proof {
            lemma_touched_well_formed(self@, key@, value@);
            if !self@.entries.contains_key(key@) {
                assert(self@.priority.remove(next) =~= self@.priority);
            }
        }
        if entries_len(&entries) > self.capacity {
            match priority_min(&priority) {
                Some((tick, oldest)) => {
                    let entries = entries_without(&entries, &oldest);
                    let priority = priority_without(&priority, tick);
                    proof {
                        assert(mid.is_oldest(tick));
                        lemma_evicted_well_formed(mid, tick);
                        assert(mid.entries.insert(key@, (next, value@)).dom().finite());
                    }
                    self.data = LRUData { entries, priority, tick: next };
                    proof {
                        assert(self@ == mid.evicted(tick));
                        assert(self@.entries.len() <= self.limit()) by {
                            assert(self@.entries.len() == mid.entries.len() - 1);
                            if old(self)@.entries.contains_key(key@) {
                                assert(mid.entries.dom() =~= old(self)@.entries.dom());
                            }
                        }
                    }
                },
                None => {
                    proof {
                        assert(mid.entries.contains_key(key@));
                        assert(mid.priority.contains_key(next));
                    }
                    self.data = LRUData { entries, priority, tick: next };
                },
            }
        } else {
            self.data = LRUData { entries, priority, tick: next };
        }
    }
}

/// Using a key keeps the state consistent.
pub proof fn lemma_touched_well_formed(s: Recency, key: Seq<u8>, value: Seq<u8>)
    requires
        s.well_formed(),
        s.tick < usize::MAX,
    ensures
        s.touched(key, value).well_formed(),
        s.touched(key, value).entries.len() == s.entries.len() + (if s.entries.contains_key(key) {
            0int
        } else {
            1int
        }),
{
    let n = s.touched(key, value);
    let next = (s.tick + 1) as usize;
    assert forall|k: Seq<u8>| #[trigger] n.entries.contains_key(k) implies n.priority.contains_key(
        n.entries[k].0,
    ) && n.priority[n.entries[k].0] == k by {
        if k != key {
            assert(s.entries.contains_key(k));
            let t = s.entries[k].0;
            assert(s.priority.contains_key(t));
            if s.entries.contains_key(key) && s.entries[key].0 == t {
                assert(s.priority[t] == key);
            }
        }
    }
    assert forall|t: usize| #[trigger] n.priority.contains_key(t) implies t <= n.tick
        && n.entries.contains_key(n.priority[t]) && n.entries[n.priority[t]].0 == t by {
        if t != next {
            assert(s.priority.contains_key(t));
            if s.priority[t] == key {
                assert(s.entries[key].0 == t);
            }
        }
    }
}

/// Giving up the entry of a tick in use keeps the state consistent and makes
/// it one entry smaller.
pub proof fn lemma_evicted_well_formed(s: Recency, t: usize)
    requires
        s.well_formed(),
        s.priority.contains_key(t),
    ensures
        s.evicted(t).well_formed(),
        s.evicted(t).entries.len() == s.entries.len() - 1,
{
    let n = s.evicted(t);
    let gone = s.priority[t];
    assert(s.entries.contains_key(gone));
    assert forall|k: Seq<u8>| #[trigger] n.entries.contains_key(k) implies n.priority.contains_key(
        n.entries[k].0,
    ) && n.priority[n.entries[k].0] == k by {
        assert(s.entries.contains_key(k));
        if s.entries[k].0 == t {
            assert(s.priority[t] == k);
        }
    }
    assert forall|u: usize| #[trigger] n.priority.contains_key(u) implies u <= n.tick
        && n.entries.contains_key(n.priority[u]) && n.entries[n.priority[u]].0 == u by {
        assert(s.priority.contains_key(u));
        if s.priority[u] == gone {
            assert(s.entries[gone].0 == u);
        }
    }
}

} // verus!
