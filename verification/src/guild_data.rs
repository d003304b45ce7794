//! Per-guild settings store.
//!
//! Each guild (identified by its numeric id) owns a table of string
//! settings.  Writing to an unknown guild creates its table; clearing a
//! guild drops the table whole; removing a key leaves the table in place,
//! even empty.  Locking around concurrent callers is the caller's business.

use vstd::prelude::*;

use crate::kvmap::{kv_distinct, kv_map, lemma_kv_contains, lemma_kv_push, lemma_kv_remove,
    lemma_kv_update, lemma_kv_value_at};

verus! {

/// The setting entries of one guild as their mathematical reading.
spec fn pair_views(s: Seq<(String, String)>) -> Seq<(Seq<char>, Seq<char>)> {
    s.map_values(|e: (String, String)| (e.0@, e.1@))
}

/// The guild entries as their mathematical reading.
spec fn guild_views(
    s: Seq<(u64, Vec<(String, String)>)>,
) -> Seq<(u64, Map<Seq<char>, Seq<char>>)> {
    s.map_values(|e: (u64, Vec<(String, String)>)| (e.0, kv_map(pair_views(e.1@))))
}

/// String settings per guild.
pub struct GuildData {
    data: Vec<(u64, Vec<(String, String)>)>,
}

impl View for GuildData {
    type V = Map<u64, Map<Seq<char>, Seq<char>>>;

    closed spec fn view(&self) -> Map<u64, Map<Seq<char>, Seq<char>>> {
        kv_map(guild_views(self.data@))
    }
}

impl GuildData {
    /// Internal shape: each guild is stored at most once, each key at most
    /// once within its guild.  Established by `new` and preserved by every
    /// method.
    pub closed spec fn wf(&self) -> bool {
        &&& kv_distinct(guild_views(self.data@))
        &&& forall|i: int| 0 <= i < self.data@.len() ==> kv_distinct(
            pair_views(#[trigger] self.data@[i].1@),
        )
    }

    /// Creates a store with no guilds.
    pub fn new() -> (r: Self)
        ensures
            r.wf(),
            r@ == Map::<u64, Map<Seq<char>, Seq<char>>>::empty(),
    {
        let r = GuildData { data: Vec::new() };
        proof {
            assert(guild_views(r.data@) =~= Seq::<(u64, Map<Seq<char>, Seq<char>>)>::empty());
        }
        r
    }

    /// Stores `value` under `key` for `guild_id`, creating the guild's
    /// table on first use and overwriting any previous value.
    pub fn set(&mut self, guild_id: u64, key: &str, value: &str)
        requires
            old(self).wf(),
        ensures
            final(self).wf(),
            final(self)@ == old(self)@.insert(
                guild_id,
                (if old(self)@.contains_key(guild_id) {
                    old(self)@[guild_id]
                } else {
                    Map::<Seq<char>, Seq<char>>::empty()
                }).insert(key@, value@),
            ),
    {
        let k = key.to_owned();
        let v = value.to_owned();
        let ghost gs0 = guild_views(self.data@);
        match Self::find_guild(&self.data, guild_id) {
            Some(i) => {
                proof {
                    lemma_kv_value_at(gs0, i as int);
                }
                let updated = upsert_pair(&self.data[i].1, k, v);
                let ghost e = (guild_id, kv_map(pair_views(updated@)));
                self.data[i] = (guild_id, updated);
                proof {
                    assert(guild_views(self.data@) =~= gs0.update(i as int, e));
                    lemma_kv_update(gs0, i as int, e);
                    assert forall|a: int, b: int|
                        0 <= a < b < guild_views(self.data@).len() implies guild_views(
                        self.data@,
                    )[a].0 != guild_views(self.data@)[b].0 by {
                        assert(gs0[a].0 == guild_views(self.data@)[a].0);
                        assert(gs0[b].0 == guild_views(self.data@)[b].0);
                    }
                }
            },
            None => {
                let mut table: Vec<(String, String)> = Vec::new();
                table.push((k, v));
                let ghost e = (guild_id, kv_map(pair_views(table@)));
                proof {
                    assert(pair_views(table@) =~= Seq::<(Seq<char>, Seq<char>)>::empty().push(
                        (key@, value@),
                    ));
                    lemma_kv_push(Seq::<(Seq<char>, Seq<char>)>::empty(), (key@, value@));
                    assert(kv_map(pair_views(table@)) == Map::<Seq<char>, Seq<char>>::empty().insert(
                        key@,
                        value@,
                    ));
                }
                self.data.push((guild_id, table));
                proof {
                    assert(guild_views(self.data@) =~= gs0.push(e));
                    lemma_kv_push(gs0, e);
                    lemma_kv_contains(gs0, guild_id);
                    assert forall|a: int, b: int|
                        0 <= a < b < guild_views(self.data@).len() implies guild_views(
                        self.data@,
                    )[a].0 != guild_views(self.data@)[b].0 by {
                        if b < gs0.len() {
                            assert(gs0[a].0 != gs0[b].0);
                        } else {
                            assert(guild_views(self.data@)[b].0 == guild_id);
                            assert(guild_views(self.data@)[a].0 == gs0[a].0);
                        }
                    }
                }
            },
        }
    }

    /// The value stored under `key` for `guild_id`, if any.
    pub fn get(&self, guild_id: u64, key: &str) -> (r: Option<String>)
        requires
            self.wf(),
        ensures
            match r {
                Some(v) => self@.contains_key(guild_id) && self@[guild_id].contains_key(key@)
                    && v@ == self@[guild_id][key@],
                None => !(self@.contains_key(guild_id) && self@[guild_id].contains_key(key@)),
            },
    {
        let k = key.to_owned();
        match Self::find_guild(&self.data, guild_id) {
            Some(i) => {
                proof {
                    lemma_kv_value_at(guild_views(self.data@), i as int);
                }
                match find_pair(&self.data[i].1, &k) {
                    Some(j) => {
                        proof {
                            lemma_kv_value_at(pair_views(self.data@[i as int].1@), j as int);
                        }
                        Some(self.data[i].1[j].1.clone())
                    },
                    None => None,
                }
            },
            None => {
                proof {
                    lemma_kv_contains(guild_views(self.data@), guild_id);
                }
                None
            },
        }
    }

    /// Forgets `key` for `guild_id`; the guild's table stays, even empty.
    pub fn remove(&mut self, guild_id: u64, key: &str)
        requires
            old(self).wf(),
        ensures
            final(self).wf(),
            old(self)@.contains_key(guild_id) ==> final(self)@ == old(self)@.insert(
                guild_id,
                old(self)@[guild_id].remove(key@),
            ),
            !old(self)@.contains_key(guild_id) ==> final(self)@ == old(self)@,
    {
        let k = key.to_owned();
        let ghost gs0 = guild_views(self.data@);
        match Self::find_guild(&self.data, guild_id) {
            Some(i) => {
                proof {
                    lemma_kv_value_at(gs0, i as int);
                }
                let updated = remove_pair(&self.data[i].1, &k);
                let ghost e = (guild_id, kv_map(pair_views(updated@)));
                self.data[i] = (guild_id, updated);
                proof {
                    assert(guild_views(self.data@) =~= gs0.update(i as int, e));
                    lemma_kv_update(gs0, i as int, e);
                    assert forall|a: int, b: int|
                        0 <= a < b < guild_views(self.data@).len() implies guild_views(
                        self.data@,
                    )[a].0 != guild_views(self.data@)[b].0 by {
                        assert(gs0[a].0 == guild_views(self.data@)[a].0);
                        assert(gs0[b].0 == guild_views(self.data@)[b].0);
                    }
                }
            },
            None => {
                proof {
                    lemma_kv_contains(gs0, guild_id);
                }
            },
        }
    }

    /// All settings of `guild_id`, if the guild has a table.
    pub fn get_all(&self, guild_id: u64) -> (r: Option<Vec<(String, String)>>)
        requires
            self.wf(),
        ensures
            r is Some <==> self@.contains_key(guild_id),
            r matches Some(v) ==> kv_map(
                v@.map_values(|e: (String, String)| (e.0@, e.1@)),
            ) == self@[guild_id],
    {
        match Self::find_guild(&self.data, guild_id) {
            Some(i) => {
                proof {
                    lemma_kv_value_at(guild_views(self.data@), i as int);
                }
                let copy = clone_pairs(&self.data[i].1);
                Some(copy)
            },
            None => {
                proof {
                    lemma_kv_contains(guild_views(self.data@), guild_id);
                }
                None
            },
        }
    }

    /// Drops `guild_id`'s table whole.
    pub fn clear(&mut self, guild_id: u64)
        requires
            old(self).wf(),
        ensures
            final(self).wf(),
            final(self)@ == old(self)@.remove(guild_id),
    {
        let ghost gs0 = guild_views(self.data@);
        match Self::find_guild(&self.data, guild_id) {
            Some(i) => {
                self.data.remove(i);
                proof {
                    assert(guild_views(self.data@) =~= gs0.remove(i as int));
                    lemma_kv_remove(gs0, i as int);
                    assert forall|a: int, b: int|
                        0 <= a < b < guild_views(self.data@).len() implies guild_views(
                        self.data@,
                    )[a].0 != guild_views(self.data@)[b].0 by {
                        let a0: int = if a < i {
                            a
                        } else {
                            a + 1
                        };
                        let b0: int = if b < i {
                            b
                        } else {
                            b + 1
                        };
                        assert(guild_views(self.data@)[a] == gs0[a0]);
                        assert(guild_views(self.data@)[b] == gs0[b0]);
                    }
                    assert forall|a: int|
                        0 <= a < self.data@.len() implies kv_distinct(
                        pair_views(#[trigger] self.data@[a].1@),
                    ) by {
                        let a0: int = if a < i {
                            a
                        } else {
                            a + 1
                        };
                        assert(self.data@[a] == old(self).data@[a0]);
                    }
                }
            },
            None => {
                proof {
                    lemma_kv_contains(gs0, guild_id);
                    assert(old(self)@ =~= old(self)@.remove(guild_id));
                }
            },
        }
    }

    /// Whether `guild_id` has a value stored under `key`.
    pub fn has_key(&self, guild_id: u64, key: &str) -> (r: bool)
        requires
            self.wf(),
        ensures
            r == (self@.contains_key(guild_id) && self@[guild_id].contains_key(key@)),
    {
        let k = key.to_owned();
        match Self::find_guild(&self.data, guild_id) {
            Some(i) => {
                proof {
                    lemma_kv_value_at(guild_views(self.data@), i as int);
                }
                match find_pair(&self.data[i].1, &k) {
                    Some(j) => {
                        proof {
                            lemma_kv_value_at(pair_views(self.data@[i as int].1@), j as int);
                        }
                        true
                    },
                    None => false,
                }
            },
            None => {
                proof {
                    lemma_kv_contains(guild_views(self.data@), guild_id);
                }
                false
            },
        }
    }

    /// Index of `guild_id`'s entry, if any.
    fn find_guild(data: &Vec<(u64, Vec<(String, String)>)>, guild_id: u64) -> (r: Option<usize>)
        ensures
            match r {
                Some(i) => i < data@.len() && data@[i as int].0 == guild_id,
                None => !kv_map(guild_views(data@)).contains_key(guild_id),
            },
    {
        let mut i: usize = 0;
        while i < data.len()
            invariant
                i <= data@.len(),
                forall|j: int| 0 <= j < i ==> data@[j].0 != guild_id,
            decreases data@.len() - i,
        {
            if data[i].0 == guild_id {
                return Some(i);
            }
            i += 1;
        }
        proof {
            lemma_kv_contains(guild_views(data@), guild_id);
            assert forall|j: int| 0 <= j < guild_views(data@).len() implies guild_views(
                data@,
            )[j].0 != guild_id by {
                assert(guild_views(data@)[j].0 == data@[j].0);
            }
        }
        None
    }
}

/// Index of the pair stored under `key`, if any.
fn find_pair(pairs: &Vec<(String, String)>, key: &String) -> (r: Option<usize>)
    ensures
        match r {
            Some(i) => i < pairs@.len() && pairs@[i as int].0@ == key@,
            None => !kv_map(pair_views(pairs@)).contains_key(key@),
        },
{
    let mut i: usize = 0;
    while i < pairs.len()
        invariant
            i <= pairs@.len(),
            forall|j: int| 0 <= j < i ==> pairs@[j].0@ != key@,
        decreases pairs@.len() - i,
    {
        if pairs[i].0 == *key {
            return Some(i);
        }
        i += 1;
    }
    proof {
        lemma_kv_contains(pair_views(pairs@), key@);
        assert forall|j: int| 0 <= j < pair_views(pairs@).len() implies pair_views(
            pairs@,
        )[j].0 != key@ by {
            assert(pair_views(pairs@)[j].0 == pairs@[j].0@);
        }
    }
    None
}

/// A copy of `pairs`, with the same keys and values.
fn clone_pairs(pairs: &Vec<(String, String)>) -> (r: Vec<(String, String)>)
    ensures
        pair_views(r@) == pair_views(pairs@),
{
    let mut r: Vec<(String, String)> = Vec::new();
    let mut i: usize = 0;
    while i < pairs.len()
        invariant
            i <= pairs@.len(),
            pair_views(r@) == pair_views(pairs@).take(i as int),
        decreases pairs@.len() - i,
    {
        let ghost pre = pair_views(r@);
        r.push((pairs[i].0.clone(), pairs[i].1.clone()));
        proof {
            assert(pair_views(r@) =~= pre.push(pair_views(pairs@)[i as int]));
            assert(pair_views(pairs@).take(i as int).push(pair_views(pairs@)[i as int])
                =~= pair_views(pairs@).take(i as int + 1));
        }
        i += 1;
    }
    proof {
        assert(pair_views(pairs@).take(pairs@.len() as int) =~= pair_views(pairs@));
    }
    r
}

/// A copy of `pairs` with `value` stored under `key`, replacing or
/// appending.
fn upsert_pair(pairs: &Vec<(String, String)>, key: String, value: String) -> (r: Vec<
    (String, String),
>)
    requires
        kv_distinct(pair_views(pairs@)),
    ensures
        kv_distinct(pair_views(r@)),
        kv_map(pair_views(r@)) == kv_map(pair_views(pairs@)).insert(key@, value@),
{
    let ghost vs0 = pair_views(pairs@);
    let ghost e = (key@, value@);
    let mut r = clone_pairs(pairs);
    match find_pair(&r, &key) {
        Some(i) => {
            r[i] = (key, value);
            proof {
                assert(pair_views(r@) =~= vs0.update(i as int, e));
                lemma_kv_update(vs0, i as int, e);
                assert forall|a: int, b: int|
                    0 <= a < b < pair_views(r@).len() implies pair_views(r@)[a].0 != pair_views(
                    r@,
                )[b].0 by {
                    assert(vs0[a].0 == pair_views(r@)[a].0);
                    assert(vs0[b].0 == pair_views(r@)[b].0);
                }
            }
        },
        None => {
            r.push((key, value));
            proof {
                assert(pair_views(r@) =~= vs0.push(e));
                lemma_kv_push(vs0, e);
                lemma_kv_contains(vs0, key@);
                assert forall|a: int, b: int|
                    0 <= a < b < pair_views(r@).len() implies pair_views(r@)[a].0 != pair_views(
                    r@,
                )[b].0 by {
                    if b < vs0.len() {
                        assert(vs0[a].0 != vs0[b].0);
                    } else {
                        assert(pair_views(r@)[b].0 == key@);
                        assert(pair_views(r@)[a].0 == vs0[a].0);
                    }
                }
            }
        },
    }
    r
}

/// A copy of `pairs` without `key`.
fn remove_pair(pairs: &Vec<(String, String)>, key: &String) -> (r: Vec<(String, String)>)
    requires
        kv_distinct(pair_views(pairs@)),
    ensures
        kv_distinct(pair_views(r@)),
        kv_map(pair_views(r@)) == kv_map(pair_views(pairs@)).remove(key@),
{
    let ghost vs0 = pair_views(pairs@);
    let mut r = clone_pairs(pairs);
    match find_pair(&r, key) {
        Some(i) => {
            r.remove(i);
            proof {
                assert(pair_views(r@) =~= vs0.remove(i as int));
                lemma_kv_remove(vs0, i as int);
                assert forall|a: int, b: int|
                    0 <= a < b < pair_views(r@).len() implies pair_views(r@)[a].0 != pair_views(
                    r@,
                )[b].0 by {
                    let a0: int = if a < i {
                        a
                    } else {
                        a + 1
                    };
                    let b0: int = if b < i {
                        b
                    } else {
                        b + 1
                    };
                    assert(pair_views(r@)[a] == vs0[a0]);
                    assert(pair_views(r@)[b] == vs0[b0]);
                }
            }
        },
        None => {
            proof {
                lemma_kv_contains(vs0, key@);
                assert(kv_map(vs0) =~= kv_map(vs0).remove(key@));
            }
        },
    }
    r
}

} // verus!
