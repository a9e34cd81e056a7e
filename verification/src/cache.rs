//! A keyed store whose entries expire.
//!
//! Every entry carries the instant at which it stops being served. Reading
//! never removes anything; [`Cache::compact`] drops what has expired.
use crate::clock::now;
use crate::text::texts;
use vstd::prelude::*;

verus! {

/// Time to live of entries stored by [`Cache::default`]'s store: one minute,
/// in nanoseconds.
pub const DEFAULT_TTL: u128 = 60_000_000_000;

/// The instant at which an entry stored at `now` with time to live `ttl`
/// expires: `now + ttl`, or the last instant there is where that is beyond it.
pub open spec fn expiry(now: u128, ttl: u128) -> u128 {
    if now + ttl <= u128::MAX {
        (now + ttl) as u128
    } else {
        u128::MAX
    }
}

/// A stored value and the instant at which it expires.
pub struct CacheEntry<T> {
    /// The stored value.
    pub item: T,
    /// The first instant at which the value is no longer served.
    pub expiration: u128,
}

impl<T> CacheEntry<T> {
    /// Whether the entry is served at `now`.
    pub open spec fn live_at(&self, now: u128) -> bool {
        now < self.expiration
    }
}

/// The entries of `entries` that are served at `now`.
pub open spec fn live_entries<V>(entries: Map<Seq<char>, CacheEntry<V>>, now: u128) -> Map<
    Seq<char>,
    CacheEntry<V>,
> {
    Map::new(|key: Seq<char>| entries.dom().contains(key) && entries[key].live_at(now), |key: Seq<char>| entries[key])
}

/// In a sequence without duplicates an element is found where it stands.
pub proof fn lemma_index_of_unique(names: Seq<Seq<char>>, i: int)
    requires
        names.no_duplicates(),
        0 <= i < names.len(),
    ensures
        names.contains(names[i]),
        names.index_of(names[i]) == i,
{
    assert(names.contains(names[i]));
    let at = names.index_of(names[i]);
    assert(names[at] == names[i]);
}

/// A store from text keys to values with a time to live.
///
/// Keys and entries stand in two vectors, index by index: of a hash map
/// with string keys Verus can prove nothing, since vstd models hashing for
/// integer keys only, and a vector can be swept entry by entry.
pub struct Cache<V> {
    keys: Vec<String>,
    entries: Vec<CacheEntry<V>>,
    ttl: u128,
}

impl<V> View for Cache<V> {
    type V = Map<Seq<char>, CacheEntry<V>>;

    closed spec fn view(&self) -> Map<Seq<char>, CacheEntry<V>> {
        Map::new(
            |key: Seq<char>| texts(self.keys@).contains(key),
            |key: Seq<char>| self.entries@[texts(self.keys@).index_of(key)],
        )
    }
}

impl<V> Cache<V> {
    /// Every key has its entry, and no key is held twice.
    pub closed spec fn wf(&self) -> bool {
        &&& self.keys@.len() == self.entries@.len()
        &&& texts(self.keys@).no_duplicates()
    }

    /// The time to live of entries stored without one of their own.
    pub closed spec fn default_ttl(&self) -> u128 {
        self.ttl
    }

    /// What a lookup of `key` at `now` finds: the stored value, unless there
    /// is none or it has expired.
    pub open spec fn lookup(&self, key: Seq<char>, now: u128) -> Option<V> {
        if self@.dom().contains(key) && self@[key].live_at(now) {
            Some(self@[key].item)
        } else {
            None
        }
    }

    /// The key at index `i` maps to the entry at index `i`.
    proof fn lemma_entry_at(&self, i: int)
        requires
            self.wf(),
            0 <= i < self.keys@.len(),
        ensures
            self@.dom().contains(self.keys@[i]@),
            self@[self.keys@[i]@] == self.entries@[i],
    {
        let names = texts(self.keys@);
        assert(names[i] == self.keys@[i]@);
        lemma_index_of_unique(names, i);
    }

    /// An empty store whose entries live for `ttl` nanoseconds unless they
    /// are stored with a time to live of their own.
    pub fn new(ttl: u128) -> (cache: Cache<V>)
        ensures
            cache.wf(),
            cache@ == Map::<Seq<char>, CacheEntry<V>>::empty(),
            cache.default_ttl() == ttl,
    {
        let cache = Cache { keys: Vec::new(), entries: Vec::new(), ttl };
        assert(cache@ =~= Map::<Seq<char>, CacheEntry<V>>::empty());
        cache
    }

    /// Index of `key` among the keys, if it is held.
    fn position(&self, key: &String) -> (found: Option<usize>)
        requires
            self.wf(),
        ensures
            match found {
                Some(i) => i < self.keys@.len() && self.keys@[i as int]@ == key@,
                None => !self@.dom().contains(key@),
            },
    {
        let mut i: usize = 0;
        while i < self.keys.len()
            invariant
                i <= self.keys.len(),
                forall|k: int| 0 <= k < i ==> self.keys@[k]@ != key@,
            decreases self.keys.len() - i,
        {
            if self.keys[i] == *key {
                return Some(i);
            }
            i += 1;
        }
        proof {
            let names = texts(self.keys@);
            if names.contains(key@) {
                let at = names.index_of(key@);
                assert(names[at] == self.keys@[at]@);
            }
        }
        None
    }
}

impl<V: Clone> Cache<V> {
    /// A copy of the value stored under `key`, if one is stored and `now` is
    /// before its expiration. Nothing is removed.
    pub fn get_at(&self, key: &String, now: u128) -> (found: Option<V>)
        requires
            self.wf(),
        ensures
            match (self.lookup(key@, now), found) {
                (Some(stored), Some(copy)) => cloned(stored, copy),
                (None, None) => true,
                _ => false,
            },
    {
        match self.position(key) {
            None => None,
            Some(i) => {
                proof {
                    self.lemma_entry_at(i as int);
                }
                if now < self.entries[i].expiration {
                    Some(self.entries[i].item.clone())
                } else {
                    None
                }
            },
        }
    }
}

impl<V> Cache<V> {
    /// Stores `value` under `key` as of `now`, to expire `ttl` nanoseconds
    /// later. An entry already held under `key` is replaced.
    pub fn put_at(&mut self, key: String, value: V, ttl: u128, now: u128)
        requires
            old(self).wf(),
        ensures
            final(self).wf(),
            final(self).default_ttl() == old(self).default_ttl(),
            final(self)@ == old(self)@.insert(
                key@,
                (CacheEntry { item: value, expiration: expiry(now, ttl) }),
            ),
    {
        let expiration = if ttl <= u128::MAX - now {
            now + ttl
        } else {
            u128::MAX
        };
        let entry = CacheEntry { item: value, expiration };
        let ghost names = texts(self.keys@);
        let ghost held = self.entries@;
        let ghost before = self@;
        match self.position(&key) {
            Some(i) => {
                self.entries.set(i, entry);
                proof {
                    assert(texts(self.keys@) == names);
                    lemma_index_of_unique(names, i as int);
                    assert forall|k: Seq<char>| names.contains(k) implies #[trigger] self@[k]
                        == before.insert(key@, entry)[k] by {
                        let at = names.index_of(k);
                        if at != i {
                            assert(names[at] != names[i as int]);
                        }
                    }
                    assert(self@ =~= before.insert(key@, entry));
                }
            },
            None => {
                let ghost added = key@;
                self.keys.push(key);
                self.entries.push(entry);
                proof {
                    let grown = texts(self.keys@);
                    assert(grown =~= names.push(added));
                    assert(grown.no_duplicates()) by {
                        assert forall|a: int, b: int|
                            0 <= a < grown.len() && 0 <= b < grown.len() && a != b implies grown[a]
                            != grown[b] by {
                            if a < names.len() {
                                assert(names.contains(names[a]));
                            }
                            if b < names.len() {
                                assert(names.contains(names[b]));
                            }
                        }
                    }
                    assert forall|k: Seq<char>| grown.contains(k) <==> names.contains(k) || k
                        == added by {
                        if names.contains(k) {
                            let at = names.index_of(k);
                            assert(grown[at] == k);
                        }
                        if k == added {
                            assert(grown[names.len() as int] == k);
                        }
                    }
                    assert forall|k: Seq<char>| grown.contains(k) implies #[trigger] self@[k]
                        == before.insert(added, entry)[k] by {
                        let at = grown.index_of(k);
                        lemma_index_of_unique(grown, at);
                        if k == added {
                            lemma_index_of_unique(grown, names.len() as int);
                        } else {
                            assert(names[at] == k);
                            lemma_index_of_unique(names, at);
                        }
                    }
                    assert(self@ =~= before.insert(added, entry));
                }
            },
        }
    }

    /// Stores `value` under `key` to expire `ttl` nanoseconds after the
    /// clock's reading at the time of the call.
    pub fn put_with_ttl(&mut self, key: String, value: V, ttl: u128)
        requires
            old(self).wf(),
        ensures
            final(self).wf(),
            final(self).default_ttl() == old(self).default_ttl(),
            exists|now: u128|
                final(self)@ == old(self)@.insert(
                    key@,
                    (CacheEntry { item: value, expiration: #[trigger] expiry(now, ttl) }),
                ),
    {
        let at = now();
        self.put_at(key, value, ttl, at);
    }

    /// Stores `value` under `key` with the store's own time to live.
    pub fn put(&mut self, key: String, value: V)
        requires
            old(self).wf(),
        ensures
            final(self).wf(),
            final(self).default_ttl() == old(self).default_ttl(),
            exists|now: u128|
                final(self)@ == old(self)@.insert(
                    key@,
                    (CacheEntry {
                        item: value,
                        expiration: #[trigger] expiry(now, old(self).default_ttl()),
                    }),
                ),
    {
        let ttl = self.ttl;
        self.put_with_ttl(key, value, ttl);
    }
}


impl<V: Clone> Cache<V> {
    /// A copy of the value stored under `key`, if one is stored and has not
    /// expired by the clock's reading at the time of the call.
    pub fn get(&self, key: &String) -> (found: Option<V>)
        requires
            self.wf(),
        ensures
            exists|now: u128|
                match (#[trigger] self.lookup(key@, now), found) {
                    (Some(stored), Some(copy)) => cloned(stored, copy),
                    (None, None) => true,
                    _ => false,
                },
    {
        let at = now();
        let found = self.get_at(key, at);
        assert(match (self.lookup(key@, at), found) {
            (Some(stored), Some(copy)) => cloned(stored, copy),
            (None, None) => true,
            _ => false,
        });
        found
    }
}

impl<V> Cache<V> {
    /// Number of entries held, expired ones included.
    pub fn len(&self) -> (n: usize)
        requires
            self.wf(),
        ensures
            n == self@.dom().len(),
            self@.dom().finite(),
    {
        proof {
            let names = texts(self.keys@);
            names.unique_seq_to_set();
            assert(self@.dom() =~= names.to_set());
        }
        self.keys.len()
    }

    /// Drops every entry that has expired by `now`; the others stay as they
    /// are.
    pub fn compact_at(&mut self, now: u128)
        requires
            old(self).wf(),
        ensures
            final(self).wf(),
            final(self).default_ttl() == old(self).default_ttl(),
            final(self)@ == live_entries(old(self)@, now),
    {
        let ghost names = texts(self.keys@);
        let ghost held = self.entries@;
        let ghost before = self@;
        let ghost total = self.keys@.len() as int;
        let ghost mut source: Seq<int> = Seq::empty();
        let mut keys: Vec<String> = Vec::new();
        let mut entries: Vec<CacheEntry<V>> = Vec::new();
        while self.keys.len() > 0
            invariant
                self.wf(),
                self.ttl == old(self).ttl,
                names == texts(old(self).keys@),
                names.no_duplicates(),
                held == old(self).entries@,
                total == names.len() == held.len(),
                self.keys@.len() <= total,
                texts(self.keys@) == names.take(self.keys@.len() as int),
                self.entries@ == held.take(self.keys@.len() as int),
                keys@.len() == entries@.len() == source.len(),
                forall|m: int|
                    0 <= m < source.len() ==> {
                        &&& self.keys@.len() <= #[trigger] source[m] < total
                        &&& keys@[m]@ == names[source[m]]
                        &&& entries@[m] == held[source[m]]
                        &&& held[source[m]].live_at(now)
                    },
                forall|a: int, b: int| 0 <= a < b < source.len() ==> source[a] > source[b],
                forall|j: int|
                    self.keys@.len() <= j < total && (#[trigger] held[j]).live_at(now)
                        ==> source.contains(j),
            decreases self.keys.len(),
        {
            let ghost rest = self.keys@.len() - 1;
            let ghost old_source = source;
            let ghost old_keys = self.keys@;
            let key = self.keys.pop().unwrap();
            let entry = self.entries.pop().unwrap();
            proof {
                assert(texts(old_keys)[rest] == key@);
                assert(names.take(rest + 1)[rest] == names[rest]);
                assert(held.take(rest + 1)[rest] == held[rest]);
                assert(texts(self.keys@) =~= names.take(rest));
                assert(self.entries@ =~= held.take(rest));
                assert(texts(self.keys@).no_duplicates());
            }
            if now < entry.expiration {
                keys.push(key);
                entries.push(entry);
                proof {
                    source = source.push(rest);
                    assert forall|j: int|
                        rest <= j < total && (#[trigger] held[j]).live_at(now) implies source.contains(
                        j,
                    ) by {
                        if j == rest {
                            assert(source[old_source.len() as int] == j);
                        } else {
                            assert(old_source.contains(j));
                            let at = old_source.index_of(j);
                            assert(source[at] == j);
                        }
                    }
                }
            }
        }
        self.keys = keys;
        self.entries = entries;
        proof {
            let kept = texts(self.keys@);
            assert forall|a: int, b: int|
                0 <= a < kept.len() && 0 <= b < kept.len() && a != b implies kept[a] != kept[b] by {
                assert(kept[a] == names[source[a]]);
                assert(kept[b] == names[source[b]]);
                if a < b {
                    assert(source[a] > source[b]);
                } else {
                    assert(source[b] > source[a]);
                }
            }
            assert(kept.no_duplicates());
            let wanted = live_entries(before, now);
            assert forall|k: Seq<char>| kept.contains(k) <==> wanted.dom().contains(k) by {
                if kept.contains(k) {
                    let m = kept.index_of(k);
                    assert(kept[m] == names[source[m]]);
                    lemma_index_of_unique(names, source[m]);
                }
                if wanted.dom().contains(k) {
                    let j = names.index_of(k);
                    assert(held[j].live_at(now));
                    assert(source.contains(j));
                    let m = source.index_of(j);
                    assert(kept[m] == k);
                }
            }
            assert forall|k: Seq<char>| kept.contains(k) implies #[trigger] self@[k] == wanted[k] by {
                let m = kept.index_of(k);
                lemma_index_of_unique(kept, m);
                assert(kept[m] == names[source[m]]);
                lemma_index_of_unique(names, source[m]);
            }
            assert(self@ =~= wanted);
        }
    }

    /// Drops every entry that has expired by the clock's reading at the time
    /// of the call. Nothing calls this on its own: a store whose keys keep
    /// changing grows until its owner compacts it.
    pub fn compact(&mut self)
        requires
            old(self).wf(),
        ensures
            final(self).wf(),
            final(self).default_ttl() == old(self).default_ttl(),
            exists|now: u128| final(self)@ == #[trigger] live_entries(old(self)@, now),
    {
        let at = now();
        self.compact_at(at);
    }
}

impl<V> Default for Cache<V> {
    /// An empty store whose entries live for [`DEFAULT_TTL`].
    fn default() -> (cache: Cache<V>)
        ensures
            cache.wf(),
            cache@ == Map::<Seq<char>, CacheEntry<V>>::empty(),
            cache.default_ttl() == DEFAULT_TTL,
    {
        Cache::new(DEFAULT_TTL)
    }
}


/// A value stored at `now` with time to live `ttl` is found at every instant
/// before `now + ttl` and at none from then on; lookups of other keys find
/// what they found before.
pub proof fn lemma_stored_value_lives_for_ttl<V>(
    before: Cache<V>,
    after: Cache<V>,
    key: Seq<char>,
    value: V,
    ttl: u128,
    now: u128,
    other: Seq<char>,
    at: u128,
)
    requires
        after@ == before@.insert(key, (CacheEntry { item: value, expiration: expiry(now, ttl) })),
    ensures
        at < expiry(now, ttl) ==> after.lookup(key, at) == Some(value),
        at >= expiry(now, ttl) ==> after.lookup(key, at) is None,
        now + ttl <= u128::MAX ==> (after.lookup(key, at) is Some <==> at < now + ttl),
        other != key ==> after.lookup(other, at) == before.lookup(other, at),
{
}

/// Compaction at `now` changes no lookup made at `now` or later.
pub proof fn lemma_compaction_keeps_lookups<V>(
    before: Cache<V>,
    after: Cache<V>,
    now: u128,
    key: Seq<char>,
    at: u128,
)
    requires
        after@ == live_entries(before@, now),
        now <= at,
    ensures
        after.lookup(key, at) == before.lookup(key, at),
{
}

/// After compaction at `now` every entry left is one that a lookup at `now`
/// would serve.
pub proof fn lemma_compaction_leaves_only_live<V>(
    before: Cache<V>,
    after: Cache<V>,
    now: u128,
    key: Seq<char>,
)
    requires
        after@ == live_entries(before@, now),
    ensures
        after@.dom().contains(key) <==> before.lookup(key, now) is Some,
{
}


} // verus!
