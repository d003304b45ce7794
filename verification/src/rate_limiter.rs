//! Sliding-window rate limiter.
//!
//! A rule `(quota, window)` is installed per key; each subject (a user
//! identifier) then gets at most `quota` admissions per key within any
//! trailing `window` milliseconds.  Usage is a per-`(key, subject)` sequence
//! of admission timestamps, pruned lazily against "now" on every check.  The
//! caller supplies "now" from its monotonic clock; the limiter itself never
//! reads a clock.

use vstd::prelude::*;

use crate::kvmap::{kv_distinct, kv_map, lemma_kv_contains, lemma_kv_push, lemma_kv_remove,
    lemma_kv_update, lemma_kv_value_at};

verus! {

/// Abstract limiter state: the rule table and the usage windows.
pub ghost struct RateLimiterState {
    /// Installed rules: key to `(quota, window in milliseconds)`.
    pub limits: Map<Seq<char>, (u32, u64)>,
    /// Usage windows: `(key, subject)` to admission timestamps.
    pub usage: Map<(Seq<char>, u64), Seq<u64>>,
}

/// Milliseconds elapsed from `t` to `now`; zero when `t` lies in the future,
/// as a saturating monotonic clock reads it.
pub open spec fn elapsed_ms(now: u64, t: u64) -> int {
    if now >= t {
        now - t
    } else {
        0
    }
}

/// Whether the admission stamped `t` still counts against a rule with the
/// given window at time `now`.
pub open spec fn is_fresh(t: u64, now: u64, window: u64) -> bool {
    elapsed_ms(now, t) < window
}

/// The timestamps of `times` that are still fresh at `now`, in order.
pub open spec fn live_window(times: Seq<u64>, now: u64, window: u64) -> Seq<u64>
    decreases times.len(),
{
    if times.len() == 0 {
        Seq::empty()
    } else {
        let rest = live_window(times.drop_last(), now, window);
        if is_fresh(times.last(), now, window) {
            rest.push(times.last())
        } else {
            rest
        }
    }
}

/// The usage window recorded for `(key, subject)`, or the empty window.
pub open spec fn window_or_empty(
    usage: Map<(Seq<char>, u64), Seq<u64>>,
    key: Seq<char>,
    subject: u64,
) -> Seq<u64> {
    if usage.contains_key((key, subject)) {
        usage[(key, subject)]
    } else {
        Seq::empty()
    }
}

/// Pruning never lengthens a window.
pub proof fn lemma_live_window_len(times: Seq<u64>, now: u64, window: u64)
    ensures
        live_window(times, now, window).len() <= times.len(),
    decreases times.len(),
{
    if times.len() > 0 {
        lemma_live_window_len(times.drop_last(), now, window);
    }
}

/// The window invariant, first half: after pruning, every stamp that is
/// left lies within the trailing window at `now`, and each came from the
/// window as recorded.
pub proof fn lemma_live_window_fresh(times: Seq<u64>, now: u64, window: u64)
    ensures
        forall|i: int| 0 <= i < live_window(times, now, window).len() ==> is_fresh(
            #[trigger] live_window(times, now, window)[i],
            now,
            window,
        ),
        forall|i: int| 0 <= i < live_window(times, now, window).len() ==> times.contains(
            #[trigger] live_window(times, now, window)[i],
        ),
    decreases times.len(),
{
    if times.len() > 0 {
        let dl = times.drop_last();
        let rest = live_window(dl, now, window);
        lemma_live_window_fresh(dl, now, window);
        assert forall|i: int| 0 <= i < rest.len() implies times.contains(#[trigger] rest[i]) by {
            let j = choose|j: int| 0 <= j < dl.len() && dl[j] == rest[i];
            assert(times[j] == rest[i]);
        }
        if is_fresh(times.last(), now, window) {
            assert forall|i: int|
                0 <= i < live_window(times, now, window).len() implies times.contains(
                #[trigger] live_window(times, now, window)[i],
            ) by {
                if i < rest.len() {
                    assert(live_window(times, now, window)[i] == rest[i]);
                } else {
                    assert(live_window(times, now, window)[i] == times.last());
                    assert(times[times.len() - 1] == times.last());
                }
            }
        }
    }
}

/// The window invariant, second half: stamps that never decrease stay that
/// way under pruning, so under a monotone clock every recorded window is
/// non-decreasing.
pub proof fn lemma_live_window_sorted(times: Seq<u64>, now: u64, window: u64)
    requires
        forall|i: int, j: int| 0 <= i < j < times.len() ==> times[i] <= times[j],
    ensures
        forall|i: int, j: int|
            0 <= i < j < live_window(times, now, window).len() ==> live_window(
                times,
                now,
                window,
            )[i] <= live_window(times, now, window)[j],
    decreases times.len(),
{
    if times.len() > 0 {
        let dl = times.drop_last();
        let rest = live_window(dl, now, window);
        assert(forall|i: int| 0 <= i < dl.len() ==> dl[i] == times[i]);
        lemma_live_window_sorted(dl, now, window);
        lemma_live_window_fresh(dl, now, window);
        if is_fresh(times.last(), now, window) {
            let live = live_window(times, now, window);
            assert forall|i: int, j: int| 0 <= i < j < live.len() implies live[i] <= live[j] by {
                if j < rest.len() {
                    assert(live[i] == rest[i] && live[j] == rest[j]);
                } else {
                    assert(live[j] == times.last());
                    assert(live[i] == rest[i]);
                    assert(dl.contains(rest[i]));
                    let c = choose|c: int| 0 <= c < dl.len() && dl[c] == rest[i];
                    assert(times[c] <= times[times.len() - 1]);
                }
            }
        }
    }
}

/// The rule entries as their mathematical reading.
spec fn limit_views(s: Seq<(String, (u32, u64))>) -> Seq<(Seq<char>, (u32, u64))> {
    s.map_values(|e: (String, (u32, u64))| (e.0@, e.1))
}

/// The usage entries as their mathematical reading.
spec fn usage_views(s: Seq<((String, u64), Vec<u64>)>) -> Seq<((Seq<char>, u64), Seq<u64>)> {
    s.map_values(|e: ((String, u64), Vec<u64>)| ((e.0.0@, e.0.1), e.1@))
}

/// What a global sweep leaves of the usage entries: windows pruned at `now`,
/// entries without a rule or without a fresh timestamp dropped.
spec fn clean_view(
    s: Seq<((Seq<char>, u64), Seq<u64>)>,
    limits: Map<Seq<char>, (u32, u64)>,
    now: u64,
) -> Seq<((Seq<char>, u64), Seq<u64>)>
    decreases s.len(),
{
    if s.len() == 0 {
        Seq::empty()
    } else {
        let rest = clean_view(s.drop_last(), limits, now);
        let e = s.last();
        if limits.contains_key(e.0.0) && live_window(e.1, now, limits[e.0.0].1).len() > 0 {
            rest.push((e.0, live_window(e.1, now, limits[e.0.0].1)))
        } else {
            rest
        }
    }
}

/// Per-key, per-subject sliding-window rate limiter.
pub struct RateLimiter {
    limits: Vec<(String, (u32, u64))>,
    usage: Vec<((String, u64), Vec<u64>)>,
}

impl View for RateLimiter {
    type V = RateLimiterState;

    closed spec fn view(&self) -> RateLimiterState {
        RateLimiterState {
            limits: kv_map(limit_views(self.limits@)),
            usage: kv_map(usage_views(self.usage@)),
        }
    }
}

impl RateLimiter {
    /// Internal shape: keys are stored at most once, and no window outgrows
    /// `u32::MAX` stamps (quotas are `u32`, so admissions cannot push one
    /// past that).  Established by `new` and preserved by every method.
    pub closed spec fn wf(&self) -> bool {
        &&& kv_distinct(limit_views(self.limits@))
        &&& kv_distinct(usage_views(self.usage@))
        &&& forall|i: int| 0 <= i < self.usage@.len() ==> #[trigger] self.usage@[i].1@.len()
            <= u32::MAX
    }

    /// Creates a limiter with no rules and no recorded usage.
    pub fn new() -> (r: Self)
        ensures
            r.wf(),
            r@.limits == Map::<Seq<char>, (u32, u64)>::empty(),
            r@.usage == Map::<(Seq<char>, u64), Seq<u64>>::empty(),
    {
        let r = RateLimiter { limits: Vec::new(), usage: Vec::new() };
        proof {
            assert(limit_views(r.limits@) =~= Seq::<(Seq<char>, (u32, u64))>::empty());
            assert(usage_views(r.usage@) =~= Seq::<((Seq<char>, u64), Seq<u64>)>::empty());
        }
        r
    }

    /// Installs or replaces the rule for `key`: at most `count` admissions
    /// per subject within any trailing `window_ms` milliseconds.  Recorded
    /// usage is left alone.
    pub fn add_limit(&mut self, key: &str, count: u32, window_ms: u64)
        requires
            old(self).wf(),
        ensures
            final(self).wf(),
            final(self)@.limits == old(self)@.limits.insert(key@, (count, window_ms)),
            final(self)@.usage == old(self)@.usage,
    {
        let k = key.to_owned();
        let ghost vs0 = limit_views(self.limits@);
        match Self::find_limit_index(&self.limits, &k) {
            Some(i) => {
                self.limits[i] = (k, (count, window_ms));
                proof {
                    assert(limit_views(self.limits@) =~= vs0.update(
                        i as int,
                        (key@, (count, window_ms)),
                    ));
                    lemma_kv_update(vs0, i as int, (key@, (count, window_ms)));
                    assert forall|a: int, b: int|
                        0 <= a < b < limit_views(self.limits@).len() implies limit_views(
                        self.limits@,
                    )[a].0 != limit_views(self.limits@)[b].0 by {
                        assert(vs0[a].0 == limit_views(self.limits@)[a].0);
                        assert(vs0[b].0 == limit_views(self.limits@)[b].0);
                    }
                }
            },
            None => {
                self.limits.push((k, (count, window_ms)));
                proof {
                    assert(limit_views(self.limits@) =~= vs0.push((key@, (count, window_ms))));
                    lemma_kv_push(vs0, (key@, (count, window_ms)));
                    lemma_kv_contains(vs0, key@);
                    assert forall|a: int, b: int|
                        0 <= a < b < limit_views(self.limits@).len() implies limit_views(
                        self.limits@,
                    )[a].0 != limit_views(self.limits@)[b].0 by {
                        if b < vs0.len() {
                            assert(vs0[a].0 != vs0[b].0);
                        } else {
                            assert(limit_views(self.limits@)[b].0 == key@);
                        }
                    }
                }
            },
        }
    }

    /// The admission gate.  Prunes the subject's window at `now_ms`, then:
    /// with no rule for `key` the call is free and records nothing; with a
    /// rule it admits — and stamps `now_ms` — exactly when the pruned window
    /// still has room.  A rejected call records nothing new.
    pub fn check(&mut self, key: &str, user_id: u64, now_ms: u64) -> (admitted: bool)
        requires
            old(self).wf(),
        ensures
            final(self).wf(),
            final(self)@.limits == old(self)@.limits,
            !old(self)@.limits.contains_key(key@) ==> admitted && final(self)@.usage == old(
                self,
            )@.usage,
            old(self)@.limits.contains_key(key@) ==> ({
                let quota = old(self)@.limits[key@].0;
                let window = old(self)@.limits[key@].1;
                let pruned = live_window(
                    window_or_empty(old(self)@.usage, key@, user_id),
                    now_ms,
                    window,
                );
                &&& admitted == (pruned.len() < quota)
                &&& final(self)@.usage == old(self)@.usage.insert(
                    (key@, user_id),
                    if pruned.len() < quota {
                        pruned.push(now_ms)
                    } else {
                        pruned
                    },
                )
            }),
    {
        let k = key.to_owned();
        let rule = match Self::find_limit_index(&self.limits, &k) {
            Some(i) => {
                proof {
                    lemma_kv_value_at(limit_views(self.limits@), i as int);
                }
                self.limits[i].1
            },
            None => {
                return true;
            },
        };
        let quota = rule.0;
        let window = rule.1;
        let ghost us0 = usage_views(self.usage@);
        match Self::find_usage_index(&self.usage, &k, user_id) {
            Some(j) => {
                proof {
                    lemma_kv_value_at(us0, j as int);
                }
                let mut neww = Self::prune_window(&self.usage[j].1, now_ms, window);
                let admitted = neww.len() < quota as usize;
                if admitted {
                    neww.push(now_ms);
                }
                let ghost newv = neww@;
                self.usage[j] = ((k, user_id), neww);
                proof {
                    lemma_live_window_len(us0[j as int].1, now_ms, window);
                    assert(usage_views(self.usage@) =~= us0.update(
                        j as int,
                        ((key@, user_id), newv),
                    ));
                    lemma_kv_update(us0, j as int, ((key@, user_id), newv));
                    assert forall|a: int, b: int|
                        0 <= a < b < usage_views(self.usage@).len() implies usage_views(
                        self.usage@,
                    )[a].0 != usage_views(self.usage@)[b].0 by {
                        assert(us0[a].0 == usage_views(self.usage@)[a].0);
                        assert(us0[b].0 == usage_views(self.usage@)[b].0);
                    }
                }
                admitted
            },
            None => {
                let admitted = 0 < quota;
                let mut neww: Vec<u64> = Vec::new();
                if admitted {
                    neww.push(now_ms);
                }
                let ghost newv = neww@;
                self.usage.push(((k, user_id), neww));
                proof {
                    assert(live_window(Seq::<u64>::empty(), now_ms, window) =~= Seq::<u64>::empty());
                    assert(usage_views(self.usage@) =~= us0.push(((key@, user_id), newv)));
                    lemma_kv_push(us0, ((key@, user_id), newv));
                    lemma_kv_contains(us0, (key@, user_id));
                    assert forall|a: int, b: int|
                        0 <= a < b < usage_views(self.usage@).len() implies usage_views(
                        self.usage@,
                    )[a].0 != usage_views(self.usage@)[b].0 by {
                        if b < us0.len() {
                            assert(us0[a].0 != us0[b].0);
                        } else {
                            assert(usage_views(self.usage@)[b].0 == (key@, user_id));
                            assert(usage_views(self.usage@)[a].0 == us0[a].0);
                        }
                    }
                }
                admitted
            },
        }
    }

    /// Reports how many admissions `(key, user_id)` has left at `now_ms`
    /// without recording anything; `None` when no rule is installed for
    /// `key`.
    pub fn get_remaining(&self, key: &str, user_id: u64, now_ms: u64) -> (r: Option<u32>)
        requires
            self.wf(),
        ensures
            r is Some <==> self@.limits.contains_key(key@),
            self@.limits.contains_key(key@) ==> ({
                let quota = self@.limits[key@].0;
                let window = self@.limits[key@].1;
                let n = live_window(
                    window_or_empty(self@.usage, key@, user_id),
                    now_ms,
                    window,
                ).len();
                r == Some(
                    if n >= quota {
                        0u32
                    } else {
                        (quota - n) as u32
                    },
                )
            }),
    {
        let k = key.to_owned();
        match Self::find_limit_index(&self.limits, &k) {
            Some(i) => {
                proof {
                    lemma_kv_value_at(limit_views(self.limits@), i as int);
                }
                let quota = self.limits[i].1.0;
                let window = self.limits[i].1.1;
                let live: usize = match Self::find_usage_index(&self.usage, &k, user_id) {
                    Some(j) => {
                        proof {
                            lemma_kv_value_at(usage_views(self.usage@), j as int);
                            lemma_live_window_len(
                                usage_views(self.usage@)[j as int].1,
                                now_ms,
                                window,
                            );
                        }
                        Self::count_fresh(&self.usage[j].1, now_ms, window)
                    },
                    None => {
                        proof {
                            assert(live_window(Seq::<u64>::empty(), now_ms, window)
                                =~= Seq::<u64>::empty());
                        }
                        0
                    },
                };
                if live >= quota as usize {
                    Some(0)
                } else {
                    Some(quota - live as u32)
                }
            },
            None => None,
        }
    }

    /// Forgets all recorded usage of `key` by `user_id`; the rule table is
    /// left alone.
    pub fn reset(&mut self, key: &str, user_id: u64)
        requires
            old(self).wf(),
        ensures
            final(self).wf(),
            final(self)@.limits == old(self)@.limits,
            final(self)@.usage == old(self)@.usage.remove((key@, user_id)),
    {
        let k = key.to_owned();
        let ghost us0 = usage_views(self.usage@);
        match Self::find_usage_index(&self.usage, &k, user_id) {
            Some(j) => {
                self.usage.remove(j);
                proof {
                    assert(usage_views(self.usage@) =~= us0.remove(j as int));
                    lemma_kv_remove(us0, j as int);
                    assert forall|a: int, b: int|
                        0 <= a < b < usage_views(self.usage@).len() implies usage_views(
                        self.usage@,
                    )[a].0 != usage_views(self.usage@)[b].0 by {
                        let a0: int = if a < j {
                            a
                        } else {
                            a + 1
                        };
                        let b0: int = if b < j {
                            b
                        } else {
                            b + 1
                        };
                        assert(usage_views(self.usage@)[a] == us0[a0]);
                        assert(usage_views(self.usage@)[b] == us0[b0]);
                    }
                }
            },
            None => {
                proof {
                    assert(old(self)@.usage =~= old(self)@.usage.remove((key@, user_id)));
                }
            },
        }
    }

    /// The periodic sweep: prunes every window at `now_ms` and drops every
    /// entry that has no installed rule or no fresh timestamp left, so that
    /// memory stays bounded by live traffic.
    pub fn clean_up(&mut self, now_ms: u64)
        requires
            old(self).wf(),
        ensures
            final(self).wf(),
            final(self)@.limits == old(self)@.limits,
            forall|p: (Seq<char>, u64)| #[trigger]
                final(self)@.usage.contains_key(p) <==> (old(self)@.usage.contains_key(p) && old(
                    self,
                )@.limits.contains_key(p.0) && live_window(
                    old(self)@.usage[p],
                    now_ms,
                    old(self)@.limits[p.0].1,
                ).len() > 0),
            forall|p: (Seq<char>, u64)| #[trigger]
                final(self)@.usage.contains_key(p) ==> final(self)@.usage[p] == live_window(
                    old(self)@.usage[p],
                    now_ms,
                    old(self)@.limits[p.0].1,
                ),
    {
        let ghost us0 = usage_views(self.usage@);
        let ghost lm = self@.limits;
        let mut kept: Vec<((String, u64), Vec<u64>)> = Vec::new();
        let mut i: usize = 0;
        while i < self.usage.len()
            invariant
                *self == *old(self),
                old(self).wf(),
                i <= self.usage@.len(),
                us0 == usage_views(self.usage@),
                lm == self@.limits,
                usage_views(kept@) == clean_view(us0.take(i as int), lm, now_ms),
                forall|a: int| 0 <= a < kept@.len() ==> #[trigger] kept@[a].1@.len() <= u32::MAX,
            decreases self.usage@.len() - i,
        {
            let ghost pre = us0.take(i as int);
            let ghost e = us0[i as int];
            proof {
                assert(us0.take(i as int + 1).drop_last() =~= pre);
                assert(us0.take(i as int + 1).last() == e);
            }
            match Self::find_limit_index(&self.limits, &self.usage[i].0.0) {
                Some(li) => {
                    proof {
                        lemma_kv_value_at(limit_views(self.limits@), li as int);
                    }
                    let window = self.limits[li].1.1;
                    let pruned = Self::prune_window(&self.usage[i].1, now_ms, window);
                    proof {
                        lemma_live_window_len(e.1, now_ms, window);
                    }
                    if pruned.len() > 0 {
                        let ghost keptpre = usage_views(kept@);
                        let ghost prunedv = pruned@;
                        kept.push(((self.usage[i].0.0.clone(), self.usage[i].0.1), pruned));
                        proof {
                            assert(usage_views(kept@) =~= keptpre.push((e.0, prunedv)));
                        }
                    }
                },
                None => {
                    proof {
                        lemma_kv_contains(limit_views(self.limits@), e.0.0);
                    }
                },
            }
            i += 1;
        }
        self.usage = kept;
        proof {
            assert(us0.take(us0.len() as int) =~= us0);
            lemma_clean_view(us0, lm, now_ms);
        }
    }

    /// Index of the rule for `key`, if one is installed.
    fn find_limit_index(limits: &Vec<(String, (u32, u64))>, key: &String) -> (r: Option<usize>)
        ensures
            match r {
                Some(i) => i < limits@.len() && limits@[i as int].0@ == key@,
                None => !kv_map(limit_views(limits@)).contains_key(key@),
            },
    {
        let mut i: usize = 0;
        while i < limits.len()
            invariant
                i <= limits@.len(),
                forall|j: int| 0 <= j < i ==> limits@[j].0@ != key@,
            decreases limits@.len() - i,
        {
            if limits[i].0 == *key {
                return Some(i);
            }
            i += 1;
        }
        proof {
            lemma_kv_contains(limit_views(limits@), key@);
            assert forall|j: int| 0 <= j < limit_views(limits@).len() implies limit_views(
                limits@,
            )[j].0 != key@ by {
                assert(limit_views(limits@)[j].0 == limits@[j].0@);
            }
        }
        None
    }

    /// Index of the usage window for `(key, user_id)`, if one is recorded.
    fn find_usage_index(usage: &Vec<((String, u64), Vec<u64>)>, key: &String, user_id: u64) -> (r:
        Option<usize>)
        ensures
            match r {
                Some(i) => i < usage@.len() && usage@[i as int].0.0@ == key@ && usage@[i as int].0.1
                    == user_id,
                None => !kv_map(usage_views(usage@)).contains_key((key@, user_id)),
            },
    {
        let mut i: usize = 0;
        while i < usage.len()
            invariant
                i <= usage@.len(),
                forall|j: int| 0 <= j < i ==> !(usage@[j].0.0@ == key@ && usage@[j].0.1 == user_id),
            decreases usage@.len() - i,
        {
            if usage[i].0.0 == *key && usage[i].0.1 == user_id {
                return Some(i);
            }
            i += 1;
        }
        proof {
            lemma_kv_contains(usage_views(usage@), (key@, user_id));
            assert forall|j: int| 0 <= j < usage_views(usage@).len() implies usage_views(
                usage@,
            )[j].0 != (key@, user_id) by {
                assert(usage_views(usage@)[j].0 == (usage@[j].0.0@, usage@[j].0.1));
            }
        }
        None
    }

    /// Whether the admission stamped `t` still counts at `now` for `window`.
    fn fresh_at(t: u64, now: u64, window: u64) -> (b: bool)
        ensures
            b == is_fresh(t, now, window),
    {
        let e: u64 = if now >= t {
            now - t
        } else {
            0
        };
        e < window
    }

    /// The fresh timestamps of `times` at `now`, in order.
    fn prune_window(times: &Vec<u64>, now: u64, window: u64) -> (r: Vec<u64>)
        ensures
            r@ == live_window(times@, now, window),
    {
        let mut r: Vec<u64> = Vec::new();
        let mut i: usize = 0;
        while i < times.len()
            invariant
                i <= times@.len(),
                r@ == live_window(times@.take(i as int), now, window),
            decreases times@.len() - i,
        {
            let ghost pre = times@.take(i as int);
            let t = times[i];
            if Self::fresh_at(t, now, window) {
                r.push(t);
            }
            proof {
                assert(times@.take(i as int + 1).drop_last() =~= pre);
                assert(times@.take(i as int + 1).last() == times@[i as int]);
            }
            i += 1;
        }
        proof {
            assert(times@.take(times@.len() as int) =~= times@);
        }
        r
    }

    /// How many timestamps of `times` are fresh at `now`.
    fn count_fresh(times: &Vec<u64>, now: u64, window: u64) -> (r: usize)
        ensures
            r == live_window(times@, now, window).len(),
    {
        let mut cnt: usize = 0;
        let mut i: usize = 0;
        while i < times.len()
            invariant
                i <= times@.len(),
                cnt == live_window(times@.take(i as int), now, window).len(),
                cnt <= i,
            decreases times@.len() - i,
        {
            let ghost pre = times@.take(i as int);
            if Self::fresh_at(times[i], now, window) {
                cnt += 1;
            }
            proof {
                assert(times@.take(i as int + 1).drop_last() =~= pre);
                assert(times@.take(i as int + 1).last() == times@[i as int]);
            }
            i += 1;
        }
        proof {
            assert(times@.take(times@.len() as int) =~= times@);
        }
        cnt
    }
}

/// What the sweep leaves, read at the map level: exactly the entries that
/// keep a rule and a fresh timestamp survive, with their windows pruned.
proof fn lemma_clean_view(
    s: Seq<((Seq<char>, u64), Seq<u64>)>,
    limits: Map<Seq<char>, (u32, u64)>,
    now: u64,
)
    requires
        kv_distinct(s),
    ensures
        kv_distinct(clean_view(s, limits, now)),
        forall|p: (Seq<char>, u64)| #[trigger]
            kv_map(clean_view(s, limits, now)).contains_key(p) <==> (kv_map(s).contains_key(p)
                && limits.contains_key(p.0) && live_window(
                kv_map(s)[p],
                now,
                limits[p.0].1,
            ).len() > 0),
        forall|p: (Seq<char>, u64)| #[trigger]
            kv_map(clean_view(s, limits, now)).contains_key(p) ==> kv_map(
                clean_view(s, limits, now),
            )[p] == live_window(kv_map(s)[p], now, limits[p.0].1),
    decreases s.len(),
{
    if s.len() > 0 {
        let dl = s.drop_last();
        let e = s.last();
        let c = clean_view(s, limits, now);
        let cdl = clean_view(dl, limits, now);
        assert(forall|i: int, j: int| 0 <= i < j < dl.len() ==> dl[i].0 != dl[j].0);
        lemma_clean_view(dl, limits, now);
        assert(forall|i: int| 0 <= i < dl.len() ==> dl[i] == s[i]);
        assert(forall|i: int| 0 <= i < dl.len() ==> dl[i].0 != e.0);
        lemma_kv_contains(dl, e.0);
        assert(!kv_map(dl).contains_key(e.0));
        assert(kv_map(s) == kv_map(dl).insert(e.0, e.1));
        if limits.contains_key(e.0.0) && live_window(e.1, now, limits[e.0.0].1).len() > 0 {
            let live = live_window(e.1, now, limits[e.0.0].1);
            assert(c == cdl.push((e.0, live)));
            lemma_kv_push(cdl, (e.0, live));
            // The surviving key is fresh among the kept ones.
            assert(!kv_map(cdl).contains_key(e.0));
            lemma_kv_contains(cdl, e.0);
            assert forall|i: int, j: int| 0 <= i < j < c.len() implies c[i].0 != c[j].0 by {
                if j < cdl.len() {
                    assert(c[i] == cdl[i] && c[j] == cdl[j]);
                } else {
                    assert(c[j].0 == e.0);
                    assert(c[i] == cdl[i]);
                }
            }
            assert forall|p: (Seq<char>, u64)| #[trigger]
                kv_map(c).contains_key(p) <==> (kv_map(s).contains_key(p) && limits.contains_key(
                    p.0,
                ) && live_window(kv_map(s)[p], now, limits[p.0].1).len() > 0) by {
                if p == e.0 {
                    assert(kv_map(c).contains_key(p));
                    assert(kv_map(s)[p] == e.1);
                } else {
                    assert(kv_map(c).contains_key(p) == kv_map(cdl).contains_key(p));
                    assert(kv_map(s).contains_key(p) == kv_map(dl).contains_key(p));
                    assert(kv_map(s).contains_key(p) ==> kv_map(s)[p] == kv_map(dl)[p]);
                }
            }
        } else {
            assert(c == cdl);
            assert forall|p: (Seq<char>, u64)| #[trigger]
                kv_map(c).contains_key(p) <==> (kv_map(s).contains_key(p) && limits.contains_key(
                    p.0,
                ) && live_window(kv_map(s)[p], now, limits[p.0].1).len() > 0) by {
                if p == e.0 {
                    assert(!kv_map(cdl).contains_key(p));
                    assert(kv_map(s)[p] == e.1);
                } else {
                    assert(kv_map(s).contains_key(p) == kv_map(dl).contains_key(p));
                    assert(kv_map(s).contains_key(p) ==> kv_map(s)[p] == kv_map(dl)[p]);
                }
            }
        }
    }
}

} // verus!
