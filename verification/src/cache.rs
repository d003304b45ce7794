//! Time-to-live cache.
//!
//! Every entry is stamped with an expiry instant when it is stored; a read
//! returns the value only while "now" lies before that instant.  Expired
//! entries are logically absent at once but physically reclaimed only by an
//! overwrite, an explicit removal or the periodic [`Cache::cleanup`] sweep
//! (lazy expiry).  The caller supplies "now" from its monotonic clock; the
//! cache itself never reads a clock.

use vstd::prelude::*;

use crate::kvmap::{kv_distinct, kv_map, lemma_kv_contains, lemma_kv_push, lemma_kv_remove,
    lemma_kv_update, lemma_kv_value_at};

verus! {

/// A stored value together with the instant it expires.
pub struct CacheEntry<T> {
    pub(crate) data: T,
    pub(crate) expires_at: u64,
}

/// Abstract cache state: each key maps to its value's characters and its
/// expiry instant; `ttl` is the lifetime every store grants.
pub ghost struct CacheState {
    /// Stored entries: key to `(value, expires_at)`.
    pub entries: Map<Seq<char>, (Seq<char>, u64)>,
    /// Milliseconds of life each `set` grants.
    pub ttl: nat,
}

/// Whether an entry expiring at `expires_at` is still observable at `now`.
pub open spec fn entry_live(expires_at: u64, now: u64) -> bool {
    now < expires_at
}

/// The cache entries as their mathematical reading.
spec fn entry_views(s: Seq<(String, CacheEntry<String>)>) -> Seq<(Seq<char>, (Seq<char>, u64))> {
    s.map_values(|e: (String, CacheEntry<String>)| (e.0@, (e.1.data@, e.1.expires_at)))
}

/// What the sweep leaves: exactly the entries whose expiry lies after `now`.
spec fn retain_live(
    s: Seq<(Seq<char>, (Seq<char>, u64))>,
    now: u64,
) -> Seq<(Seq<char>, (Seq<char>, u64))>
    decreases s.len(),
{
    if s.len() == 0 {
        Seq::empty()
    } else {
        let rest = retain_live(s.drop_last(), now);
        if entry_live(s.last().1.1, now) {
            rest.push(s.last())
        } else {
            rest
        }
    }
}

/// String-keyed store of values that expire `ttl` milliseconds after they
/// are stored.
pub struct Cache {
    data: Vec<(String, CacheEntry<String>)>,
    ttl: u64,
}

impl View for Cache {
    type V = CacheState;

    closed spec fn view(&self) -> CacheState {
        CacheState { entries: kv_map(entry_views(self.data@)), ttl: self.ttl as nat }
    }
}

impl Cache {
    /// Internal shape: every key is stored at most once.  Established by
    /// `new` and preserved by every method.
    pub closed spec fn wf(&self) -> bool {
        kv_distinct(entry_views(self.data@))
    }

    /// Creates an empty cache whose entries live `ttl_ms` milliseconds.
    pub fn new(ttl_ms: u64) -> (r: Self)
        ensures
            r.wf(),
            r@.entries == Map::<Seq<char>, (Seq<char>, u64)>::empty(),
            r@.ttl == ttl_ms as nat,
    {
        let r = Cache { data: Vec::new(), ttl: ttl_ms };
        proof {
            assert(entry_views(r.data@) =~= Seq::<(Seq<char>, (Seq<char>, u64))>::empty());
        }
        r
    }

    /// Returns the stored value while it is still live at `now_ms`; an
    /// expired entry is as good as absent, even if it is still physically
    /// present.
    pub fn get(&self, key: &str, now_ms: u64) -> (r: Option<String>)
        requires
            self.wf(),
        ensures
            match r {
                Some(v) => self@.entries.contains_key(key@) && entry_live(
                    self@.entries[key@].1,
                    now_ms,
                ) && v@ == self@.entries[key@].0,
                None => !(self@.entries.contains_key(key@) && entry_live(
                    self@.entries[key@].1,
                    now_ms,
                )),
            },
    {
        let k = key.to_owned();
        match Self::find_index(&self.data, &k) {
            Some(i) => {
                proof {
                    lemma_kv_value_at(entry_views(self.data@), i as int);
                }
                if now_ms < self.data[i].1.expires_at {
                    Some(self.data[i].1.data.clone())
                } else {
                    None
                }
            },
            None => {
                proof {
                    lemma_kv_contains(entry_views(self.data@), key@);
                }
                None
            },
        }
    }

    /// Stores `value` under `key`, overwriting any previous entry and
    /// stamping the expiry `now_ms + ttl`.
    pub fn set(&mut self, key: &str, value: String, now_ms: u64)
        requires
            old(self).wf(),
            now_ms + old(self)@.ttl <= u64::MAX,
        ensures
            final(self).wf(),
            final(self)@.ttl == old(self)@.ttl,
            final(self)@.entries == old(self)@.entries.insert(
                key@,
                (value@, (now_ms + old(self)@.ttl) as u64),
            ),
    {
        let k = key.to_owned();
        let expires_at = now_ms + self.ttl;
        let ghost vs0 = entry_views(self.data@);
        let ghost e = (key@, (value@, expires_at));
        match Self::find_index(&self.data, &k) {
            Some(i) => {
                self.data[i] = (k, CacheEntry { data: value, expires_at });
                proof {
                    assert(entry_views(self.data@) =~= vs0.update(i as int, e));
                    lemma_kv_update(vs0, i as int, e);
                    assert forall|a: int, b: int|
                        0 <= a < b < entry_views(self.data@).len() implies entry_views(
                        self.data@,
                    )[a].0 != entry_views(self.data@)[b].0 by {
                        assert(vs0[a].0 == entry_views(self.data@)[a].0);
                        assert(vs0[b].0 == entry_views(self.data@)[b].0);
                    }
                }
            },
            None => {
                self.data.push((k, CacheEntry { data: value, expires_at }));
                proof {
                    assert(entry_views(self.data@) =~= vs0.push(e));
                    lemma_kv_push(vs0, e);
                    lemma_kv_contains(vs0, key@);
                    assert forall|a: int, b: int|
                        0 <= a < b < entry_views(self.data@).len() implies entry_views(
                        self.data@,
                    )[a].0 != entry_views(self.data@)[b].0 by {
                        if b < vs0.len() {
                            assert(vs0[a].0 != vs0[b].0);
                        } else {
                            assert(entry_views(self.data@)[b].0 == key@);
                            assert(entry_views(self.data@)[a].0 == vs0[a].0);
                        }
                    }
                }
            },
        }
    }

    /// Physically removes `key`'s entry, live or not.
    pub fn remove(&mut self, key: &str)
        requires
            old(self).wf(),
        ensures
            final(self).wf(),
            final(self)@.ttl == old(self)@.ttl,
            final(self)@.entries == old(self)@.entries.remove(key@),
    {
        let k = key.to_owned();
        let ghost vs0 = entry_views(self.data@);
        match Self::find_index(&self.data, &k) {
            Some(i) => {
                self.data.remove(i);
                proof {
                    assert(entry_views(self.data@) =~= vs0.remove(i as int));
                    lemma_kv_remove(vs0, i as int);
                    assert forall|a: int, b: int|
                        0 <= a < b < entry_views(self.data@).len() implies entry_views(
                        self.data@,
                    )[a].0 != entry_views(self.data@)[b].0 by {
                        let a0: int = if a < i {
                            a
                        } else {
                            a + 1
                        };
                        let b0: int = if b < i {
                            b
                        } else {
                            b + 1
                        };
                        assert(entry_views(self.data@)[a] == vs0[a0]);
                        assert(entry_views(self.data@)[b] == vs0[b0]);
                    }
                }
            },
            None => {
                proof {
                    lemma_kv_contains(vs0, key@);
                    assert(old(self)@.entries =~= old(self)@.entries.remove(key@));
                }
            },
        }
    }

    /// Drops every entry at once.
    pub fn clear(&mut self)
        ensures
            final(self).wf(),
            final(self)@.ttl == old(self)@.ttl,
            final(self)@.entries == Map::<Seq<char>, (Seq<char>, u64)>::empty(),
    {
        self.data.clear();
        proof {
            assert(entry_views(self.data@) =~= Seq::<(Seq<char>, (Seq<char>, u64))>::empty());
        }
    }

    /// The periodic sweep: physically deletes every entry whose expiry is at
    /// or before `now_ms` and leaves every live entry untouched, so memory
    /// is not held by values nobody re-reads.
    pub fn cleanup(&mut self, now_ms: u64)
        requires
            old(self).wf(),
        ensures
            final(self).wf(),
            final(self)@.ttl == old(self)@.ttl,
            forall|k: Seq<char>| #[trigger]
                final(self)@.entries.contains_key(k) <==> (old(self)@.entries.contains_key(k)
                    && entry_live(old(self)@.entries[k].1, now_ms)),
            forall|k: Seq<char>| #[trigger]
                final(self)@.entries.contains_key(k) ==> final(self)@.entries[k] == old(
                    self,
                )@.entries[k],
    {
        let ghost vs0 = entry_views(self.data@);
        let mut kept: Vec<(String, CacheEntry<String>)> = Vec::new();
        let mut i: usize = 0;
        while i < self.data.len()
            invariant
                *self == *old(self),
                old(self).wf(),
                i <= self.data@.len(),
                vs0 == entry_views(self.data@),
                entry_views(kept@) == retain_live(vs0.take(i as int), now_ms),
            decreases self.data@.len() - i,
        {
            let ghost pre = vs0.take(i as int);
            let ghost e = vs0[i as int];
            proof {
                assert(vs0.take(i as int + 1).drop_last() =~= pre);
                assert(vs0.take(i as int + 1).last() == e);
            }
            if now_ms < self.data[i].1.expires_at {
                let ghost keptpre = entry_views(kept@);
                kept.push(
                    (
                        self.data[i].0.clone(),
                        CacheEntry {
                            data: self.data[i].1.data.clone(),
                            expires_at: self.data[i].1.expires_at,
                        },
                    ),
                );
                proof {
                    assert(entry_views(kept@) =~= keptpre.push(e));
                }
            }
            i += 1;
        }
        self.data = kept;
        proof {
            assert(vs0.take(vs0.len() as int) =~= vs0);
            lemma_retain_live(vs0, now_ms);
        }
    }

    /// Returns the live value under `key` if there is one; otherwise invokes
    /// `compute`, stores its result with a fresh expiry and returns it.
    /// Absence of a live entry always leads to one computation here — there
    /// is no protection against concurrent callers computing the same key
    /// twice; the later store simply wins.
    pub fn get_or_insert_with<F: FnOnce() -> String>(&mut self, key: &str, now_ms: u64, compute: F)
        -> (r: String)
        requires
            old(self).wf(),
            now_ms + old(self)@.ttl <= u64::MAX,
            call_requires(compute, ()),
        ensures
            final(self).wf(),
            final(self)@.ttl == old(self)@.ttl,
            old(self)@.entries.contains_key(key@) && entry_live(
                old(self)@.entries[key@].1,
                now_ms,
            ) ==> r@ == old(self)@.entries[key@].0 && final(self)@ == old(self)@,
            !(old(self)@.entries.contains_key(key@) && entry_live(
                old(self)@.entries[key@].1,
                now_ms,
            )) ==> call_ensures(compute, (), r) && final(self)@.entries == old(
                self,
            )@.entries.insert(key@, (r@, (now_ms + old(self)@.ttl) as u64)),
    {
        match self.get(key, now_ms) {
            Some(v) => v,
            None => {
                let value = compute();
                self.set(key, value.clone(), now_ms);
                value
            },
        }
    }

    /// Index of the entry stored under `key`, if any.
    fn find_index(data: &Vec<(String, CacheEntry<String>)>, key: &String) -> (r: Option<usize>)
        ensures
            match r {
                Some(i) => i < data@.len() && data@[i as int].0@ == key@,
                None => !kv_map(entry_views(data@)).contains_key(key@),
            },
    {
        let mut i: usize = 0;
        while i < data.len()
            invariant
                i <= data@.len(),
                forall|j: int| 0 <= j < i ==> data@[j].0@ != key@,
            decreases data@.len() - i,
        {
            if data[i].0 == *key {
                return Some(i);
            }
            i += 1;
        }
        proof {
            lemma_kv_contains(entry_views(data@), key@);
            assert forall|j: int| 0 <= j < entry_views(data@).len() implies entry_views(
                data@,
            )[j].0 != key@ by {
                assert(entry_views(data@)[j].0 == data@[j].0@);
            }
        }
        None
    }
}

/// What the sweep leaves, read at the map level: exactly the live entries
/// survive, unchanged.
proof fn lemma_retain_live(s: Seq<(Seq<char>, (Seq<char>, u64))>, now: u64)
    requires
        kv_distinct(s),
    ensures
        kv_distinct(retain_live(s, now)),
        forall|k: Seq<char>| #[trigger]
            kv_map(retain_live(s, now)).contains_key(k) <==> (kv_map(s).contains_key(k)
                && entry_live(kv_map(s)[k].1, now)),
        forall|k: Seq<char>| #[trigger]
            kv_map(retain_live(s, now)).contains_key(k) ==> kv_map(retain_live(s, now))[k]
                == kv_map(s)[k],
    decreases s.len(),
{
    if s.len() > 0 {
        let dl = s.drop_last();
        let e = s.last();
        let c = retain_live(s, now);
        let cdl = retain_live(dl, now);
        assert(forall|i: int, j: int| 0 <= i < j < dl.len() ==> dl[i].0 != dl[j].0);
        lemma_retain_live(dl, now);
        assert(forall|i: int| 0 <= i < dl.len() ==> dl[i] == s[i]);
        assert(forall|i: int| 0 <= i < dl.len() ==> dl[i].0 != e.0);
        lemma_kv_contains(dl, e.0);
        assert(!kv_map(dl).contains_key(e.0));
        assert(kv_map(s) == kv_map(dl).insert(e.0, e.1));
        if entry_live(e.1.1, now) {
            assert(c == cdl.push(e));
            lemma_kv_push(cdl, e);
            assert(!kv_map(cdl).contains_key(e.0));
            lemma_kv_contains(cdl, e.0);
            assert forall|i: int, j: int| 0 <= i < j < c.len() implies c[i].0 != c[j].0 by {
                if j < cdl.len() {
                    assert(c[i] == cdl[i] && c[j] == cdl[j]);
                } else {
                    assert(c[j].0 == e.0);
                    assert(c[i] == cdl[i]);
                }
            }
            assert forall|k: Seq<char>| #[trigger]
                kv_map(c).contains_key(k) <==> (kv_map(s).contains_key(k) && entry_live(
                    kv_map(s)[k].1,
                    now,
                )) by {
                if k == e.0 {
                    assert(kv_map(c).contains_key(k));
                    assert(kv_map(s)[k] == e.1);
                } else {
                    assert(kv_map(c).contains_key(k) == kv_map(cdl).contains_key(k));
                    assert(kv_map(s).contains_key(k) == kv_map(dl).contains_key(k));
                    assert(kv_map(s).contains_key(k) ==> kv_map(s)[k] == kv_map(dl)[k]);
                }
            }
        } else {
            assert(c == cdl);
            assert forall|k: Seq<char>| #[trigger]
                kv_map(c).contains_key(k) <==> (kv_map(s).contains_key(k) && entry_live(
                    kv_map(s)[k].1,
                    now,
                )) by {
                if k == e.0 {
                    assert(!kv_map(cdl).contains_key(k));
                    assert(kv_map(s)[k] == e.1);
                } else {
                    assert(kv_map(s).contains_key(k) == kv_map(dl).contains_key(k));
                    assert(kv_map(s).contains_key(k) ==> kv_map(s)[k] == kv_map(dl)[k]);
                }
            }
        }
    }
}

} // verus!
