//! Bounded-concurrency task scheduler.
//!
//! The scheduler admits uniquely-named units of work, runs at most
//! `max_concurrent_tasks` of them at once, queues the rest in arrival order,
//! and promotes queued names strictly first-in-first-out whenever a running
//! task finishes.  This module owns the admission, queueing and promotion
//! decisions; actually executing, aborting or awaiting the units of work is
//! the caller's business.  The caller reports completions through
//! [`TaskManager::task_completed`] and performs the starts and aborts that the
//! decision methods return.

use vstd::prelude::*;

use std::collections::VecDeque;

use crate::errors::TaskError;

verus! {

/// Abstract scheduler state: running names, queued names in arrival order,
/// and the concurrency bound.
pub ghost struct SchedulerState {
    /// Names of the tasks currently running, in the order they were started.
    pub running: Seq<Seq<char>>,
    /// Names of the queued tasks, front of the queue first.
    pub queued: Seq<Seq<char>>,
    /// The concurrency bound `M`.
    pub bound: nat,
}

/// The names in a sequence of strings, as character sequences.
pub open spec fn names_of(s: Seq<String>) -> Seq<Seq<char>> {
    s.map_values(|x: String| x@)
}

/// No name occurs twice in `s`.
pub open spec fn distinct_names(s: Seq<Seq<char>>) -> bool {
    forall|i: int, j: int| 0 <= i < j < s.len() ==> s[i] != s[j]
}

/// No name occurs both in `a` and in `b`.
pub open spec fn disjoint_names(a: Seq<Seq<char>>, b: Seq<Seq<char>>) -> bool {
    forall|i: int, j: int| 0 <= i < a.len() && 0 <= j < b.len() ==> a[i] != b[j]
}

/// `s` with the first occurrence of `n` removed; `s` itself if `n` does not
/// occur.
pub open spec fn remove_name(s: Seq<Seq<char>>, n: Seq<char>) -> Seq<Seq<char>>
    decreases s.len(),
{
    if s.len() == 0 {
        s
    } else if s[0] == n {
        s.drop_first()
    } else {
        seq![s[0]] + remove_name(s.drop_first(), n)
    }
}

/// How many queued tasks are promoted when `r` tasks run, `q` wait, and the
/// bound is `b`: every free slot is filled, in queue order.
pub open spec fn promote_count(r: nat, q: nat, b: nat) -> nat {
    if r >= b {
        0
    } else if q <= b - r {
        q
    } else {
        (b - r) as nat
    }
}

/// What the caller must do after a successful `spawn`.
#[derive(Clone, Copy, Debug, PartialEq, Eq, Structural)]
pub enum SpawnOutcome {
    /// A slot was free: the unit of work starts immediately.
    Started,
    /// All slots were busy: the unit of work waits in the queue.
    Enqueued,
}

/// What the caller must undo after a successful `cancel`.
#[derive(Clone, Copy, Debug, PartialEq, Eq, Structural)]
pub enum CancelOutcome {
    /// The task was running: signal its execution context to stop.
    WasRunning,
    /// The task was still queued: it was dropped before ever starting.
    WasQueued,
}

/// Bookkeeping for the bounded-concurrency scheduler.
pub struct TaskManager {
    running: Vec<String>,
    queued: VecDeque<String>,
    max_concurrent_tasks: usize,
}

impl View for TaskManager {
    type V = SchedulerState;

    closed spec fn view(&self) -> SchedulerState {
        SchedulerState {
            running: names_of(self.running@),
            queued: names_of(self.queued@),
            bound: self.max_concurrent_tasks as nat,
        }
    }
}

impl TaskManager {
    /// The scheduler invariant: the bound is honoured and every live name is
    /// unique across the union of the running and queued sets.
    pub open spec fn wf(&self) -> bool {
        &&& self@.running.len() <= self@.bound
        &&& distinct_names(self@.running)
        &&& distinct_names(self@.queued)
        &&& disjoint_names(self@.running, self@.queued)
    }

    /// A name is live while it is queued or running.
    pub open spec fn is_live(&self, n: Seq<char>) -> bool {
        self@.running.contains(n) || self@.queued.contains(n)
    }

    /// Creates an empty scheduler with concurrency bound
    /// `max_concurrent_tasks`.
    pub fn new(max_concurrent_tasks: usize) -> (r: Self)
        ensures
            r.wf(),
            r@.running == Seq::<Seq<char>>::empty(),
            r@.queued == Seq::<Seq<char>>::empty(),
            r@.bound == max_concurrent_tasks as nat,
    {
        let r = TaskManager { running: Vec::new(), queued: VecDeque::new(), max_concurrent_tasks };
        proof {
            assert(r@.running =~= Seq::<Seq<char>>::empty());
            assert(r@.queued =~= Seq::<Seq<char>>::empty());
        }
        r
    }

    /// Admits the unit of work called `name`: it starts now if a slot is
    /// free, waits in arrival order otherwise, and is refused if the name is
    /// already live.
    pub fn spawn(&mut self, name: &str) -> (r: Result<SpawnOutcome, TaskError>)
        requires
            old(self).wf(),
        ensures
            final(self).wf(),
            final(self)@.bound == old(self)@.bound,
            r is Err <==> old(self).is_live(name@),
            r is Err ==> r == Err::<SpawnOutcome, TaskError>(TaskError::DuplicateTask)
                && final(self)@ == old(self)@,
            r == Ok::<SpawnOutcome, TaskError>(SpawnOutcome::Started) <==> !old(self).is_live(
                name@,
            ) && old(self)@.running.len() < old(self)@.bound,
            r is Ok && old(self)@.running.len() < old(self)@.bound ==> final(self)@.running == old(
                self,
            )@.running.push(name@) && final(self)@.queued == old(self)@.queued,
            r is Ok && old(self)@.running.len() >= old(self)@.bound ==> final(self)@.queued == old(
                self,
            )@.queued.push(name@) && final(self)@.running == old(self)@.running,
    {
        let owned = name.to_owned();
        if Self::vec_contains(&self.running, &owned) || Self::deque_contains(&self.queued, &owned) {
            return Err(TaskError::DuplicateTask);
        }
        if self.running.len() < self.max_concurrent_tasks {
            let ghost before = self.running@;
            self.running.push(owned);
            proof {
                assert(names_of(self.running@) =~= names_of(before).push(name@));
                lemma_distinct_push(names_of(before), name@);
            }
            Ok(SpawnOutcome::Started)
        } else {
            let ghost before = self.queued@;
            self.queued.push_back(owned);
            proof {
                assert(names_of(self.queued@) =~= names_of(before).push(name@));
                lemma_distinct_push(names_of(before), name@);
            }
            Ok(SpawnOutcome::Enqueued)
        }
    }

    /// Records that the running task `name` has finished, frees its slot and
    /// promotes queued tasks first-in-first-out while slots are free.  The
    /// returned names are exactly the promoted queue prefix, in queue order:
    /// the caller must start them now.
    pub fn task_completed(&mut self, name: &str) -> (started: Vec<String>)
        requires
            old(self).wf(),
        ensures
            final(self).wf(),
            final(self)@.bound == old(self)@.bound,
            ({
                let run1 = remove_name(old(self)@.running, name@);
                let k = promote_count(run1.len(), old(self)@.queued.len(), old(self)@.bound) as int;
                &&& final(self)@.running == run1 + old(self)@.queued.take(k)
                &&& final(self)@.queued == old(self)@.queued.skip(k)
                &&& names_of(started@) == old(self)@.queued.take(k)
            }),
    {
        let ghost run0 = self@.running;
        let owned = name.to_owned();
        // Free the finished task's slot, if it is still recorded.
        match Self::vec_find(&self.running, &owned) {
            Some(i) => {
                self.running.remove(i);
                proof {
                    assert(run0[i as int] == name@);
                    assert forall|j: int| 0 <= j < i implies run0[j] != name@ by {
                        assert(run0[j] == old(self).running@[j]@);
                    }
                    assert(names_of(self.running@) =~= run0.remove(i as int));
                    lemma_remove_name_at(run0, name@, i as int);
                    lemma_distinct_remove(run0, i as int);
                }
            },
            None => {
                proof {
                    lemma_remove_name_absent(run0, name@);
                }
            },
        }
        let ghost run1 = self@.running;
        let ghost q0 = self@.queued;
        let ghost b0 = self@.bound;
        proof {
            assert(disjoint_names(run1, q0));
        }
        // Fill every free slot from the front of the queue.
        let mut started: Vec<String> = Vec::new();
        while self.running.len() < self.max_concurrent_tasks && self.queued.len() > 0
            invariant
                self@.bound == b0,
                self@.bound == self.max_concurrent_tasks as nat,
                started@.len() <= q0.len(),
                names_of(started@) == q0.take(started@.len() as int),
                self@.running == run1 + q0.take(started@.len() as int),
                self@.queued == q0.skip(started@.len() as int),
                distinct_names(self@.running),
                distinct_names(self@.queued),
                disjoint_names(self@.running, self@.queued),
                self@.running.len() <= self@.bound,
            decreases self.queued.len(),
        {
            let ghost k = started@.len() as int;
            let ghost qnames = self@.queued;
            match self.queued.pop_front() {
                Some(next) => {
                    proof {
                        assert(names_of(self.queued@) =~= qnames.drop_first());
                        assert(qnames[0] == q0[k]);
                        assert(qnames.drop_first() =~= q0.skip(k + 1));
                    }
                    let ghost rnames = self@.running;
                    self.running.push(next.clone());
                    started.push(next);
                    proof {
                        assert(names_of(self.running@) =~= rnames.push(q0[k]));
                        assert(names_of(started@) =~= q0.take(k).push(q0[k]));
                        assert(q0.take(k).push(q0[k]) =~= q0.take(k + 1));
                        assert(rnames.push(q0[k]) =~= run1 + q0.take(k + 1));
                        // The promoted name was unique in the queue and absent
                        // from the running set, so distinctness and
                        // disjointness survive.
                        assert(forall|j: int| 0 <= j < rnames.len() ==> rnames[j] != q0[k]);
                        lemma_distinct_push(rnames, q0[k]);
                        assert forall|i: int, j: int|
                            0 <= i < self@.running.len() && 0 <= j
                                < self@.queued.len() implies self@.running[i] != self@.queued[j] by {
                            assert(self@.queued[j] == q0[k + 1 + j]);
                            if i < rnames.len() {
                                assert(self@.running[i] == rnames[i]);
                            } else {
                                assert(self@.running[i] == q0[k]);
                                assert(q0[k] != q0[k + 1 + j]);
                            }
                        }
                    }
                },
                None => {
                    proof {
                        assert(false);
                    }
                },
            }
        }
        proof {
            let k = started@.len() as int;
            let pc = promote_count(run1.len(), q0.len(), b0) as int;
            if k < pc {
                // The loop only stops when no slot or no queued work is left,
                // which contradicts `promote_count` demanding one more.
                assert(self@.running.len() >= self@.bound || self@.queued.len() == 0);
                assert((run1 + q0.take(k)).len() == run1.len() + k);
                assert(false);
            }
            assert(k == pc);
        }
        started
    }

    /// Cancels the live task `name`: a running task is forgotten (its
    /// execution context must now be signalled by the caller), a queued task
    /// is dropped before ever starting.
    pub fn cancel(&mut self, name: &str) -> (r: Result<CancelOutcome, TaskError>)
        requires
            old(self).wf(),
        ensures
            final(self).wf(),
            final(self)@.bound == old(self)@.bound,
            r is Err <==> !old(self).is_live(name@),
            r is Err ==> r == Err::<CancelOutcome, TaskError>(TaskError::TaskNotFound)
                && final(self)@ == old(self)@,
            old(self)@.running.contains(name@) ==> r == Ok::<CancelOutcome, TaskError>(
                CancelOutcome::WasRunning,
            ) && final(self)@.running == remove_name(old(self)@.running, name@)
                && final(self)@.queued == old(self)@.queued,
            !old(self)@.running.contains(name@) && old(self)@.queued.contains(name@) ==> r
                == Ok::<CancelOutcome, TaskError>(CancelOutcome::WasQueued)
                && final(self)@.queued == remove_name(old(self)@.queued, name@)
                && final(self)@.running == old(self)@.running,
    {
        let ghost run0 = self@.running;
        let ghost q0 = self@.queued;
        let owned = name.to_owned();
        match Self::vec_find(&self.running, &owned) {
            Some(i) => {
                self.running.remove(i);
                proof {
                    assert(run0[i as int] == name@);
                    assert(run0.contains(name@));
                    assert forall|j: int| 0 <= j < i implies run0[j] != name@ by {
                        assert(run0[j] == old(self).running@[j]@);
                    }
                    assert(names_of(self.running@) =~= run0.remove(i as int));
                    lemma_remove_name_at(run0, name@, i as int);
                    lemma_distinct_remove(run0, i as int);
                }
                Ok(CancelOutcome::WasRunning)
            },
            None => {
                match Self::deque_find(&self.queued, &owned) {
                    Some(i) => {
                        self.queued.remove(i);
                        proof {
                            assert(q0[i as int] == name@);
                            assert(q0.contains(name@));
                            assert forall|j: int| 0 <= j < i implies q0[j] != name@ by {
                                assert(q0[j] == old(self).queued@[j]@);
                            }
                            assert(names_of(self.queued@) =~= q0.remove(i as int));
                            lemma_remove_name_at(q0, name@, i as int);
                            lemma_distinct_remove(q0, i as int);
                        }
                        Ok(CancelOutcome::WasQueued)
                    },
                    None => Err(TaskError::TaskNotFound),
                }
            },
        }
    }

    /// Cancels every running task and discards the whole queue; the caller
    /// must now signal every execution context it still holds.
    pub fn cancel_all(&mut self)
        ensures
            final(self).wf(),
            final(self)@.bound == old(self)@.bound,
            final(self)@.running == Seq::<Seq<char>>::empty(),
            final(self)@.queued == Seq::<Seq<char>>::empty(),
    {
        self.running.clear();
        self.queued.clear();
        proof {
            assert(self@.running =~= Seq::<Seq<char>>::empty());
            assert(self@.queued =~= Seq::<Seq<char>>::empty());
        }
    }

    /// Whether `name` is live, that is queued or running.
    pub fn is_running(&self, name: &str) -> (r: bool)
        ensures
            r == self.is_live(name@),
    {
        let owned = name.to_owned();
        Self::vec_contains(&self.running, &owned) || Self::deque_contains(&self.queued, &owned)
    }

    /// All live names: the running ones in start order, then the queued ones
    /// in arrival order.
    pub fn get_running_tasks(&self) -> (r: Vec<String>)
        ensures
            names_of(r@) == self@.running + self@.queued,
    {
        let mut r: Vec<String> = Vec::new();
        let mut i: usize = 0;
        while i < self.running.len()
            invariant
                i <= self.running@.len(),
                names_of(r@) == self@.running.take(i as int),
            decreases self.running@.len() - i,
        {
            let ghost before = r@;
            r.push(self.running[i].clone());
            proof {
                assert(names_of(r@) =~= names_of(before).push(self.running@[i as int]@));
                assert(self@.running.take(i as int).push(self@.running[i as int]) =~= self@.running.take(i + 1));
            }
            i += 1;
        }
        let mut j: usize = 0;
        while j < self.queued.len()
            invariant
                j <= self.queued@.len(),
                names_of(r@) == self@.running + self@.queued.take(j as int),
            decreases self.queued@.len() - j,
        {
            let ghost before = r@;
            r.push(self.queued[j].clone());
            proof {
                assert(names_of(r@) =~= names_of(before).push(self.queued@[j as int]@));
                assert((self@.running + self@.queued.take(j as int)).push(self@.queued[j as int])
                    =~= self@.running + self@.queued.take(j + 1));
            }
            j += 1;
        }
        proof {
            assert(self@.running + self@.queued.take(self.queued@.len() as int) =~= self@.running
                + self@.queued);
        }
        r
    }

    /// Index of the first entry of `v` whose characters equal `name`'s.
    fn vec_find(v: &Vec<String>, name: &String) -> (r: Option<usize>)
        ensures
            match r {
                Some(i) => i < v@.len() && v@[i as int]@ == name@ && forall|j: int|
                    0 <= j < i ==> v@[j]@ != name@,
                None => !names_of(v@).contains(name@),
            },
    {
        let mut i: usize = 0;
        while i < v.len()
            invariant
                i <= v@.len(),
                forall|j: int| 0 <= j < i ==> v@[j]@ != name@,
            decreases v@.len() - i,
        {
            if v[i] == *name {
                return Some(i);
            }
            i += 1;
        }
        proof {
            assert(forall|j: int| 0 <= j < v@.len() ==> names_of(v@)[j] == v@[j]@);
        }
        None
    }

    /// Whether some entry of `v` has `name`'s characters.
    fn vec_contains(v: &Vec<String>, name: &String) -> (b: bool)
        ensures
            b == names_of(v@).contains(name@),
    {
        let r = Self::vec_find(v, name);
        proof {
            if r is Some {
                assert(names_of(v@)[r->0 as int] == name@);
            }
        }
        r.is_some()
    }

    /// Index of the first entry of `q` whose characters equal `name`'s.
    fn deque_find(q: &VecDeque<String>, name: &String) -> (r: Option<usize>)
        ensures
            match r {
                Some(i) => i < q@.len() && q@[i as int]@ == name@ && forall|j: int|
                    0 <= j < i ==> q@[j]@ != name@,
                None => !names_of(q@).contains(name@),
            },
    {
        let mut i: usize = 0;
        while i < q.len()
            invariant
                i <= q@.len(),
                forall|j: int| 0 <= j < i ==> q@[j]@ != name@,
            decreases q@.len() - i,
        {
            if q[i] == *name {
                return Some(i);
            }
            i += 1;
        }
        proof {
            assert(forall|j: int| 0 <= j < q@.len() ==> names_of(q@)[j] == q@[j]@);
        }
        None
    }

    /// Whether some entry of `q` has `name`'s characters.
    fn deque_contains(q: &VecDeque<String>, name: &String) -> (b: bool)
        ensures
            b == names_of(q@).contains(name@),
    {
        let r = Self::deque_find(q, name);
        proof {
            if r is Some {
                assert(names_of(q@)[r->0 as int] == name@);
            }
        }
        r.is_some()
    }
}

/// Pushing a fresh name keeps a name sequence duplicate-free.
proof fn lemma_distinct_push(s: Seq<Seq<char>>, n: Seq<char>)
    requires
        distinct_names(s),
        !s.contains(n),
    ensures
        distinct_names(s.push(n)),
{
    assert forall|i: int, j: int| 0 <= i < j < s.push(n).len() implies s.push(n)[i] != s.push(n)[j] by {
        if j < s.len() {
            assert(s.push(n)[i] == s[i] && s.push(n)[j] == s[j]);
        } else {
            assert(s.push(n)[j] == n);
            assert(s.push(n)[i] == s[i]);
        }
    }
}

/// Removing an entry keeps a name sequence duplicate-free.
proof fn lemma_distinct_remove(s: Seq<Seq<char>>, i: int)
    requires
        distinct_names(s),
        0 <= i < s.len(),
    ensures
        distinct_names(s.remove(i)),
{
    assert forall|a: int, b: int| 0 <= a < b < s.remove(i).len() implies s.remove(i)[a] != s.remove(
        i,
    )[b] by {
        let a0: int = if a < i {
            a
        } else {
            a + 1
        };
        let b0: int = if b < i {
            b
        } else {
            b + 1
        };
        assert(s.remove(i)[a] == s[a0]);
        assert(s.remove(i)[b] == s[b0]);
    }
}

/// Removing the first occurrence of the name at index `i` (with no earlier
/// occurrence) is removal at `i`.
proof fn lemma_remove_name_at(s: Seq<Seq<char>>, n: Seq<char>, i: int)
    requires
        0 <= i < s.len(),
        s[i] == n,
        forall|j: int| 0 <= j < i ==> s[j] != n,
    ensures
        remove_name(s, n) == s.remove(i),
    decreases i,
{
    if i == 0 {
        assert(remove_name(s, n) == s.drop_first());
        assert(s.drop_first() =~= s.remove(0));
    } else {
        assert(s.drop_first()[i - 1] == s[i]);
        assert(forall|j: int| 0 <= j < i - 1 ==> s.drop_first()[j] == s[j + 1]);
        lemma_remove_name_at(s.drop_first(), n, i - 1);
        assert(remove_name(s, n) == seq![s[0]] + s.drop_first().remove(i - 1));
        assert(seq![s[0]] + s.drop_first().remove(i - 1) =~= s.remove(i));
    }
}

/// Removing a name that does not occur changes nothing.
proof fn lemma_remove_name_absent(s: Seq<Seq<char>>, n: Seq<char>)
    requires
        !s.contains(n),
    ensures
        remove_name(s, n) == s,
    decreases s.len(),
{
    if s.len() > 0 {
        assert(s[0] != n);
        assert(forall|j: int| 0 <= j < s.drop_first().len() ==> s.drop_first()[j] == s[j + 1]);
        assert(!s.drop_first().contains(n));
        lemma_remove_name_absent(s.drop_first(), n);
        assert(seq![s[0]] + s.drop_first() =~= s);
    }
}

/// After a task completes, its name is free again: removing the only
/// occurrence of a name from a duplicate-free name sequence leaves a sequence
/// that no longer contains it, so a later `spawn` of the same name succeeds.
pub proof fn lemma_completed_name_is_free(s: Seq<Seq<char>>, n: Seq<char>)
    requires
        distinct_names(s),
    ensures
        !remove_name(s, n).contains(n),
    decreases s.len(),
{
    if s.len() > 0 {
        if s[0] == n {
            assert(remove_name(s, n) == s.drop_first());
            assert forall|j: int| 0 <= j < s.drop_first().len() implies s.drop_first()[j] != n by {
                assert(s.drop_first()[j] == s[j + 1]);
            }
        } else {
            assert(forall|j: int| 0 <= j < s.drop_first().len() ==> s.drop_first()[j] == s[j + 1]);
            lemma_completed_name_is_free(s.drop_first(), n);
            let rest = remove_name(s.drop_first(), n);
            assert forall|j: int| 0 <= j < remove_name(s, n).len() implies remove_name(s, n)[j]
                != n by {
                if j == 0 {
                    assert(remove_name(s, n)[0] == s[0]);
                } else {
                    assert(remove_name(s, n)[j] == rest[j - 1]);
                    assert(rest.contains(rest[j - 1]) || rest[j - 1] != n);
                    assert(!rest.contains(n));
                }
            }
        }
    }
}

/// The concurrency bound is a state invariant: in every well-formed scheduler
/// state the number of running tasks is at most the bound.
pub proof fn lemma_running_bounded(tm: &TaskManager)
    requires
        tm.wf(),
    ensures
        tm@.running.len() <= tm@.bound,
{
}

} // verus!
