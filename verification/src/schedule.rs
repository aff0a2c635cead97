//! Schedules of timed activities.
//!
//! Crafts and loots under way wait in a `TaskQueue`, in the order in which
//! they were added; a wake-up takes out those that have ended and says when
//! to wake up next. Travel steps wait in a `MoveQueue`, kept sorted by the
//! time at which their step ends.
use vstd::prelude::*;
use crate::document::DocumentId;
use vstd::multiset::Multiset;

verus! {

/// `a - b`, or 0 where `b` is the larger.
pub open spec fn saturating_sub(a: u64, b: u64) -> u64 {
    if a > b { (a - b) as u64 } else { 0u64 }
}

/// An activity that ends at a given time and belongs to one player of one
/// universe.
pub trait Timed {
    spec fn end_at(&self) -> u64;

    spec fn belongs_to(&self, universe_id: DocumentId, user_id: u64) -> bool;

    fn end_timestamp_of(&self) -> (r: u64)
        ensures
            r == self.end_at(),
    ;

    fn is_owned_by(&self, universe_id: DocumentId, user_id: u64) -> (b: bool)
        ensures
            b == self.belongs_to(universe_id, user_id),
    ;
}

/// A craft under way.
#[derive(Clone, Debug)]
pub struct PlayerCraft {
    pub _id: DocumentId,
    pub universe_id: DocumentId,
    pub user_id: u64,
    pub server_id: u64,
    pub recipe_id: DocumentId,
    pub start_timestamp: u64,
    pub end_timestamp: u64,
    pub is_finished: bool,
}

impl Timed for PlayerCraft {
    open spec fn end_at(&self) -> u64 {
        self.end_timestamp
    }

    open spec fn belongs_to(&self, universe_id: DocumentId, user_id: u64) -> bool {
        self.user_id == user_id && self.universe_id == universe_id
    }

    fn end_timestamp_of(&self) -> (r: u64) {
        self.end_timestamp
    }

    fn is_owned_by(&self, universe_id: DocumentId, user_id: u64) -> (b: bool) {
        self.user_id == user_id && self.universe_id == universe_id
    }
}

/// A loot under way: the names of the items it gives when it ends.
#[derive(Clone, Debug)]
pub struct PlayerLoot {
    pub _id: Option<DocumentId>,
    pub universe_id: DocumentId,
    pub user_id: u64,
    pub server_id: u64,
    pub items: Vec<String>,
    pub start_timestamp: u64,
    pub end_timestamp: u64,
    pub is_finished: bool,
}

impl Timed for PlayerLoot {
    open spec fn end_at(&self) -> u64 {
        self.end_timestamp
    }

    open spec fn belongs_to(&self, universe_id: DocumentId, user_id: u64) -> bool {
        self.user_id == user_id && self.universe_id == universe_id
    }

    fn end_timestamp_of(&self) -> (r: u64) {
        self.end_timestamp
    }

    fn is_owned_by(&self, universe_id: DocumentId, user_id: u64) -> (b: bool) {
        self.user_id == user_id && self.universe_id == universe_id
    }
}

/// The tasks of `s` that have ended at `now`, in order.
pub open spec fn ended<T: Timed>(s: Seq<T>, now: u64) -> Seq<T>
    decreases s.len(),
{
    if s.len() == 0 {
        Seq::empty()
    } else if s.last().end_at() <= now {
        ended(s.drop_last(), now).push(s.last())
    } else {
        ended(s.drop_last(), now)
    }
}

/// The tasks of `s` that have not ended at `now`, in order.
pub open spec fn pending<T: Timed>(s: Seq<T>, now: u64) -> Seq<T>
    decreases s.len(),
{
    if s.len() == 0 {
        Seq::empty()
    } else if s.last().end_at() <= now {
        pending(s.drop_last(), now)
    } else {
        pending(s.drop_last(), now).push(s.last())
    }
}

/// The earliest end among the tasks of `s` (`u64::MAX` for none).
pub open spec fn earliest_end<T: Timed>(s: Seq<T>) -> u64
    decreases s.len(),
{
    if s.len() == 0 {
        u64::MAX
    } else {
        let e = earliest_end(s.drop_last());
        if s.last().end_at() < e { s.last().end_at() } else { e }
    }
}

/// The delay before the next wake-up: until the earliest end, if any task
/// is left.
pub open spec fn next_delay<T: Timed>(s: Seq<T>, now: u64) -> Option<u64> {
    if s.len() == 0 {
        None
    } else {
        Some(saturating_sub(earliest_end(s), now))
    }
}

/// The position of the first task of `s` owned by the given player.
pub open spec fn first_owned<T: Timed>(s: Seq<T>, universe_id: DocumentId, user_id: u64) -> Option<int>
    decreases s.len(),
{
    if s.len() == 0 {
        None
    } else {
        match first_owned(s.drop_last(), universe_id, user_id) {
            Some(i) => Some(i),
            None => if s.last().belongs_to(universe_id, user_id) { Some(s.len() - 1) } else { None },
        }
    }
}

/// Tasks that wait for their end, in the order in which they were added.
#[derive(Debug)]
pub struct TaskQueue<T> {
    pub tasks: Vec<T>,
}

impl<T: Timed> TaskQueue<T> {
    pub fn new() -> (q: Self)
        ensures
            q.tasks@ == Seq::<T>::empty(),
    {
        TaskQueue { tasks: Vec::new() }
    }

    /// Adds a task at the end; returns the delay before it ends.
    pub fn add(&mut self, task: T, now: u64) -> (delay: u64)
        ensures
            final(self).tasks@ == old(self).tasks@.push(task),
            delay == saturating_sub(task.end_at(), now),
    {
        let end = task.end_timestamp_of();
        self.tasks.push(task);
        if end > now { end - now } else { 0 }
    }

    /// Takes out the tasks that have ended at `now`; the others stay, in
    /// their order. Returns those taken out, in order, and the delay before
    /// the next wake-up.
    pub fn take_finished(&mut self, now: u64) -> (r: (Vec<T>, Option<u64>))
        ensures
            r.0@ == ended(old(self).tasks@, now),
            final(self).tasks@ == pending(old(self).tasks@, now),
            r.1 == next_delay(pending(old(self).tasks@, now), now),
    {
        let ghost s = self.tasks@;
        let mut rest: Vec<T> = Vec::new();
        std::mem::swap(&mut rest, &mut self.tasks);
        let mut done: Vec<T> = Vec::new();
        let mut kept: Vec<T> = Vec::new();
        let mut min_end: u64 = u64::MAX;
        let mut i: usize = 0;
        let n = rest.len();
        assert(s.take(0) =~= Seq::<T>::empty());
        while 0 < rest.len()
            invariant
                i + rest@.len() == n == s.len(),
                rest@ == s.skip(i as int),
                done@ == ended(s.take(i as int), now),
                kept@ == pending(s.take(i as int), now),
                min_end == earliest_end(pending(s.take(i as int), now)),
            decreases rest@.len(),
        {
            let t = rest.remove(0);
            assert(s.take(i + 1).drop_last() =~= s.take(i as int));
            assert(s.take(i + 1).last() == t);
            assert(rest@ =~= s.skip(i + 1));
            let end = t.end_timestamp_of();
            if end <= now {
                done.push(t);
            } else {
                kept.push(t);
                assert(pending(s.take(i + 1), now).drop_last() =~= pending(s.take(i as int), now));
                if end < min_end {
                    min_end = end;
                }
            }
            i = i + 1;
        }
        assert(s.take(n as int) =~= s);
        self.tasks = kept;
        let next = if self.tasks.len() == 0 {
            None
        } else {
            Some(if min_end > now { min_end - now } else { 0 })
        };
        (done, next)
    }

    /// Takes out the first task of the given player, if any.
    pub fn remove_owned(&mut self, universe_id: DocumentId, user_id: u64) -> (r: Option<T>)
        ensures
            match first_owned(old(self).tasks@, universe_id, user_id) {
                Some(i) => r == Some(old(self).tasks@[i]) && final(self).tasks@ == old(self).tasks@.remove(i),
                None => r is None && final(self).tasks@ == old(self).tasks@,
            },
    {
        let ghost s = self.tasks@;
        let mut i: usize = 0;
        assert(s.take(0) =~= Seq::<T>::empty());
        while i < self.tasks.len()
            invariant
                self.tasks@ == s,
                old(self).tasks@ == s,
                i <= s.len(),
                first_owned(s.take(i as int), universe_id, user_id) is None,
            decreases s.len() - i,
        {
            assert(s.take(i + 1).drop_last() =~= s.take(i as int));
            if self.tasks[i].is_owned_by(universe_id, user_id) {
                proof {
                    assert(s.take(i + 1).last() == s[i as int]);
                    assert(first_owned(s.take(i + 1), universe_id, user_id) == Some(i as int));
                    lemma_first_owned_prefix(s, universe_id, user_id, i + 1, s.len() as int);
                    assert(s.take(s.len() as int) =~= s);
                }
                let t = self.tasks.remove(i);

                return Some(t);
            }
            i = i + 1;
        }
        assert(s.take(s.len() as int) =~= s);
        None
    }
}

/// Where a prefix of `s` holds a task of the player, the first such task of
/// `s` is the first of that prefix.
proof fn lemma_first_owned_prefix<T: Timed>(s: Seq<T>, universe_id: DocumentId, user_id: u64, k: int, m: int)
    requires
        0 <= k <= m <= s.len(),
        first_owned(s.take(k), universe_id, user_id) is Some,
    ensures
        first_owned(s.take(m), universe_id, user_id) == first_owned(s.take(k), universe_id, user_id),
    decreases m - k,
{
    if m > k {
        lemma_first_owned_prefix(s, universe_id, user_id, k, m - 1);
        assert(s.take(m).drop_last() =~= s.take(m - 1));
    }
}

/// Every task is either taken out or kept by a wake-up: none is lost and
/// none is made up.
pub proof fn lemma_wake_up_keeps_every_task<T: Timed>(s: Seq<T>, now: u64)
    ensures
        ended(s, now).len() + pending(s, now).len() == s.len(),
        ended(s, now).to_multiset().add(pending(s, now).to_multiset()) =~= s.to_multiset(),
    decreases s.len(),
{
    broadcast use vstd::seq_lib::group_to_multiset_ensures, vstd::multiset::group_multiset_axioms;
    if s.len() == 0 {
        assert(ended(s, now).to_multiset() =~= Multiset::<T>::empty());
        assert(pending(s, now).to_multiset() =~= Multiset::<T>::empty());
        assert(s.to_multiset() =~= Multiset::<T>::empty());
    } else {
        let x = s.last();
        let t = s.drop_last();
        lemma_wake_up_keeps_every_task(t, now);
        assert(s =~= t.push(x));
        assert(s.to_multiset() =~= t.to_multiset().insert(x));
        if x.end_at() <= now {
            assert(ended(s, now).to_multiset() =~= ended(t, now).to_multiset().insert(x));
        } else {
            assert(pending(s, now).to_multiset() =~= pending(t, now).to_multiset().insert(x));
        }
    }
}

/// A wake-up takes out exactly the tasks that have ended, and the next one
/// is due at the earliest end of those left, which is after `now`.
pub proof fn lemma_wake_up_splits_by_end<T: Timed>(s: Seq<T>, now: u64)
    ensures
        forall|i: int| 0 <= i < ended(s, now).len() ==> #[trigger] ended(s, now)[i].end_at() <= now,
        forall|i: int| 0 <= i < pending(s, now).len() ==> #[trigger] pending(s, now)[i].end_at() > now,
        pending(s, now).len() > 0 ==> earliest_end(pending(s, now)) > now,
        forall|i: int| 0 <= i < pending(s, now).len() ==> earliest_end(pending(s, now)) <= #[trigger] pending(s, now)[i].end_at(),
    decreases s.len(),
{
    if s.len() > 0 {
        let x = s.last();
        let t = s.drop_last();
        lemma_wake_up_splits_by_end(t, now);
        let e = ended(t, now);
        let p = pending(t, now);
        if x.end_at() <= now {
            assert(pending(s, now) == p);
            assert forall|i: int| 0 <= i < ended(s, now).len() implies #[trigger] ended(s, now)[i].end_at() <= now by {
                if i < e.len() {
                    assert(ended(s, now)[i] == e[i]);
                }
            }
        } else {
            assert(pending(s, now).drop_last() =~= p);
            assert(earliest_end(pending(s, now)) == (if x.end_at() < earliest_end(p) { x.end_at() } else { earliest_end(p) }));
            assert forall|i: int| 0 <= i < pending(s, now).len() implies #[trigger] pending(s, now)[i].end_at() > now by {
                if i < p.len() {
                    assert(pending(s, now)[i] == p[i]);
                }
            }
            assert forall|i: int| 0 <= i < pending(s, now).len() implies earliest_end(pending(s, now)) <= #[trigger] pending(s, now)[i].end_at() by {
                if i < p.len() {
                    assert(pending(s, now)[i] == p[i]);
                }
            }
        }
    }
}

/// When the next travel step of a player ends (`None` counts as 0).
pub open spec fn step_key(step_end: Option<u64>) -> u64 {
    match step_end {
        Some(e) => e,
        None => 0u64,
    }
}

/// A travel waiting for the end of its current step.
#[derive(Debug)]
pub struct Scheduled<T> {
    pub user_id: u64,
    pub step_end: Option<u64>,
    pub item: T,
}

pub open spec fn keys_sorted<T>(s: Seq<Scheduled<T>>) -> bool {
    forall|i: int, j: int| 0 <= i <= j < s.len() ==> step_key(s[i].step_end) <= step_key(s[j].step_end)
}

/// The position of the first entry of the given player.
pub open spec fn first_of_user<T>(s: Seq<Scheduled<T>>, user_id: u64) -> Option<int>
    decreases s.len(),
{
    if s.len() == 0 {
        None
    } else {
        match first_of_user(s.drop_last(), user_id) {
            Some(i) => Some(i),
            None => if s.last().user_id == user_id { Some(s.len() - 1) } else { None },
        }
    }
}

proof fn lemma_first_of_user_prefix<T>(s: Seq<Scheduled<T>>, user_id: u64, k: int, m: int)
    requires
        0 <= k <= m <= s.len(),
        first_of_user(s.take(k), user_id) is Some,
    ensures
        first_of_user(s.take(m), user_id) == first_of_user(s.take(k), user_id),
    decreases m - k,
{
    if m > k {
        lemma_first_of_user_prefix(s, user_id, k, m - 1);
        assert(s.take(m).drop_last() =~= s.take(m - 1));
    }
}

proof fn lemma_remove_keeps_sorted<T>(s: Seq<Scheduled<T>>, i: int)
    requires
        keys_sorted(s),
        0 <= i < s.len(),
    ensures
        keys_sorted(s.remove(i)),
{
    let r = s.remove(i);
    assert forall|a: int, b: int| 0 <= a <= b < r.len() implies step_key(r[a].step_end) <= step_key(r[b].step_end) by {
        if a < i { assert(r[a] == s[a]); } else { assert(r[a] == s[a + 1]); }
        if b < i { assert(r[b] == s[b]); } else { assert(r[b] == s[b + 1]); }
    }
}

fn key_of<T>(e: &Scheduled<T>) -> (k: u64)
    ensures
        k == step_key(e.step_end),
{
    match e.step_end {
        Some(v) => v,
        None => 0,
    }
}

/// Travels in the order in which their steps end.
#[derive(Debug)]
pub struct MoveQueue<T> {
    pub entries: Vec<Scheduled<T>>,
}

impl<T> MoveQueue<T> {
    /// Sorted by the end of each travel's step.
    pub open spec fn wf(&self) -> bool {
        keys_sorted(self.entries@)
    }

    pub fn new() -> (q: Self)
        ensures
            q.wf(),
            q.entries@ == Seq::<Scheduled<T>>::empty(),
    {
        MoveQueue { entries: Vec::new() }
    }

    /// Inserts a travel before the first one whose step does not end
    /// earlier; returns where it went.
    pub fn insert(&mut self, entry: Scheduled<T>) -> (i: usize)
        requires
            old(self).wf(),
        ensures
            final(self).wf(),
            i <= old(self).entries@.len(),
            final(self).entries@ == old(self).entries@.insert(i as int, entry),
            forall|k: int| 0 <= k < i ==> step_key(#[trigger] old(self).entries@[k].step_end) < step_key(entry.step_end),
            forall|k: int| i <= k < old(self).entries@.len() ==> step_key(entry.step_end) <= step_key(#[trigger] old(self).entries@[k].step_end),
    {
        let key = key_of(&entry);
        let ghost s = self.entries@;
        let mut i: usize = 0;
        while i < self.entries.len() && key_of(&self.entries[i]) < key
            invariant
                self.entries@ == s,
                keys_sorted(s),
                i <= s.len(),
                key == step_key(entry.step_end),
                forall|k: int| 0 <= k < i ==> step_key(#[trigger] s[k].step_end) < key,
            decreases s.len() - i,
        {
            i = i + 1;
        }
        assert forall|k: int| i <= k < s.len() implies key <= step_key(#[trigger] s[k].step_end) by {
            assert(step_key(s[i as int].step_end) <= step_key(s[k].step_end));
        }
        self.entries.insert(i, entry);
        let ghost r = self.entries@;
        assert forall|a: int, b: int| 0 <= a <= b < r.len() implies step_key(r[a].step_end) <= step_key(r[b].step_end) by {
            if a < i { assert(r[a] == s[a]); } else if a > i { assert(r[a] == s[a - 1]); }
            if b < i { assert(r[b] == s[b]); } else if b > i { assert(r[b] == s[b - 1]); }
        }
        i
    }

    /// Takes out the first travel of the given player, if any, with the
    /// position it had.
    pub fn remove_user(&mut self, user_id: u64) -> (r: Option<(usize, Scheduled<T>)>)
        requires
            old(self).wf(),
        ensures
            final(self).wf(),
            match first_of_user(old(self).entries@, user_id) {
                Some(i) => r matches Some((j, e)) && j == i && e == old(self).entries@[i]
                    && final(self).entries@ == old(self).entries@.remove(i),
                None => r is None && final(self).entries@ == old(self).entries@,
            },
    {
        let ghost s = self.entries@;
        let mut i: usize = 0;
        assert(s.take(0) =~= Seq::<Scheduled<T>>::empty());
        while i < self.entries.len()
            invariant
                self.entries@ == s,
                old(self).entries@ == s,
                keys_sorted(s),
                i <= s.len(),
                first_of_user(s.take(i as int), user_id) is None,
            decreases s.len() - i,
        {
            assert(s.take(i + 1).drop_last() =~= s.take(i as int));
            if self.entries[i].user_id == user_id {
                proof {
                    assert(s.take(i + 1).last() == s[i as int]);
                    assert(first_of_user(s.take(i + 1), user_id) == Some(i as int));
                    lemma_first_of_user_prefix(s, user_id, i + 1, s.len() as int);
                    assert(s.take(s.len() as int) =~= s);
                    lemma_remove_keeps_sorted(s, i as int);
                }
                let e = self.entries.remove(i);
                return Some((i, e));
            }
            i = i + 1;
        }
        assert(s.take(s.len() as int) =~= s);
        None
    }

    /// Takes out the travel whose step ends first.
    pub fn pop_first(&mut self) -> (r: Option<Scheduled<T>>)
        requires
            old(self).wf(),
        ensures
            final(self).wf(),
            old(self).entries@.len() == 0 ==> r is None && final(self).entries@ == old(self).entries@,
            old(self).entries@.len() > 0 ==> r == Some(old(self).entries@[0]) && final(self).entries@ == old(self).entries@.drop_first(),
    {
        if self.entries.len() == 0 {
            return None;
        }
        let ghost s = self.entries@;
        let e = self.entries.remove(0);
        assert(self.entries@ =~= s.drop_first());
        assert forall|a: int, b: int| 0 <= a <= b < self.entries@.len() implies
            step_key(self.entries@[a].step_end) <= step_key(self.entries@[b].step_end) by {
            assert(self.entries@[a] == s[a + 1]);
            assert(self.entries@[b] == s[b + 1]);
        }
        Some(e)
    }

    /// The delay before the first travel's step ends, if there is a first
    /// travel and its step has an end.
    pub fn next_delay(&self, now: u64) -> (r: Option<u64>)
        ensures
            r == (if self.entries@.len() > 0 {
                match self.entries@[0].step_end {
                    Some(e) => Some(saturating_sub(e, now)),
                    None => None::<u64>,
                }
            } else {
                None::<u64>
            }),
    {
        if self.entries.len() == 0 {
            return None;
        }
        match self.entries[0].step_end {
            Some(e) => Some(if e > now { e - now } else { 0 }),
            None => None,
        }
    }

    /// A queue of the given travels sorted by the end of their steps,
    /// travels whose steps end together keeping their order.
    pub fn from_travels(travels: Vec<Scheduled<T>>) -> (q: Self)
        ensures
            q.wf(),
            q.entries@ == stable_sorted(travels@),
    {
        let ghost s = travels@;
        let mut q = MoveQueue { entries: Vec::new() };
        let mut rest = travels;
        let mut i: usize = 0;
        let n = rest.len();
        assert(s.take(0) =~= Seq::<Scheduled<T>>::empty());
        while 0 < rest.len()
            invariant
                i + rest@.len() == n == s.len(),
                rest@ == s.skip(i as int),
                q.wf(),
                q.entries@ == stable_sorted(s.take(i as int)),
            decreases rest@.len(),
        {
            let t = rest.remove(0);
            assert(s.take(i + 1).drop_last() =~= s.take(i as int));
            assert(s.take(i + 1).last() == t);
            assert(rest@ =~= s.skip(i + 1));
            let ghost before = q.entries@;
            let j = q.insert_after_equals(t);
            proof { lemma_insert_after_equals(before, t, j as int); }
            i = i + 1;
        }
        assert(s.take(n as int) =~= s);
        q
    }

    /// Inserts a travel after every travel whose step does not end later.
    fn insert_after_equals(&mut self, entry: Scheduled<T>) -> (i: usize)
        requires
            old(self).wf(),
        ensures
            final(self).wf(),
            i <= old(self).entries@.len(),
            final(self).entries@ == old(self).entries@.insert(i as int, entry),
            forall|k: int| 0 <= k < i ==> step_key(#[trigger] old(self).entries@[k].step_end) <= step_key(entry.step_end),
            forall|k: int| i <= k < old(self).entries@.len() ==> step_key(entry.step_end) < step_key(#[trigger] old(self).entries@[k].step_end),
    {
        let key = key_of(&entry);
        let ghost s = self.entries@;
        let mut i: usize = 0;
        while i < self.entries.len() && key_of(&self.entries[i]) <= key
            invariant
                self.entries@ == s,
                keys_sorted(s),
                i <= s.len(),
                key == step_key(entry.step_end),
                forall|k: int| 0 <= k < i ==> step_key(#[trigger] s[k].step_end) <= key,
            decreases s.len() - i,
        {
            i = i + 1;
        }
        assert forall|k: int| i <= k < s.len() implies key < step_key(#[trigger] s[k].step_end) by {
            assert(step_key(s[i as int].step_end) <= step_key(s[k].step_end));
        }
        self.entries.insert(i, entry);
        let ghost r = self.entries@;
        assert forall|a: int, b: int| 0 <= a <= b < r.len() implies step_key(r[a].step_end) <= step_key(r[b].step_end) by {
            if a < i { assert(r[a] == s[a]); } else if a > i { assert(r[a] == s[a - 1]); }
            if b < i { assert(r[b] == s[b]); } else if b > i { assert(r[b] == s[b - 1]); }
        }
        i
    }
}

/// Inserting `e` into a sorted sequence after every element whose key is
/// not larger.
pub open spec fn insert_sorted<T>(s: Seq<Scheduled<T>>, e: Scheduled<T>) -> Seq<Scheduled<T>>
    decreases s.len(),
{
    if s.len() == 0 {
        seq![e]
    } else if step_key(s.last().step_end) <= step_key(e.step_end) {
        s.push(e)
    } else {
        insert_sorted(s.drop_last(), e).push(s.last())
    }
}

/// The travels sorted by the end of their steps, a stable sort: insertion
/// of each travel in turn after those whose steps do not end later.
pub open spec fn stable_sorted<T>(s: Seq<Scheduled<T>>) -> Seq<Scheduled<T>>
    decreases s.len(),
{
    if s.len() == 0 {
        Seq::empty()
    } else {
        insert_sorted(stable_sorted(s.drop_last()), s.last())
    }
}

proof fn lemma_insert_after_equals<T>(s: Seq<Scheduled<T>>, e: Scheduled<T>, i: int)
    requires
        0 <= i <= s.len(),
        forall|k: int| 0 <= k < i ==> step_key(#[trigger] s[k].step_end) <= step_key(e.step_end),
        forall|k: int| i <= k < s.len() ==> step_key(e.step_end) < step_key(#[trigger] s[k].step_end),
    ensures
        s.insert(i, e) == insert_sorted(s, e),
    decreases s.len(),
{
    if s.len() == 0 {
        assert(s.insert(i, e) =~= seq![e]);
    } else if i == s.len() {
        assert(s.insert(i, e) =~= s.push(e));
    } else {
        lemma_insert_after_equals(s.drop_last(), e, i);
        assert(s.insert(i, e) =~= s.drop_last().insert(i, e).push(s.last()));
    }
}

/// The travels due at `now` (their step has ended, or has no end) and the
/// others, each in their order.
pub open spec fn due_travels<T>(s: Seq<Scheduled<T>>, now: u64) -> Seq<Scheduled<T>> {
    s.filter(|m: Scheduled<T>| match m.step_end { Some(e) => e <= now, None => true })
}

pub open spec fn later_travels<T>(s: Seq<Scheduled<T>>, now: u64) -> Seq<Scheduled<T>> {
    s.filter(|m: Scheduled<T>| match m.step_end { Some(e) => e > now, None => false })
}

/// Splits travels into those due at `now` and the others, each in order.
pub fn split_due<T>(travels: Vec<Scheduled<T>>, now: u64) -> (r: (Vec<Scheduled<T>>, Vec<Scheduled<T>>))
    ensures
        r.0@ == due_travels(travels@, now),
        r.1@ == later_travels(travels@, now),
{
    let ghost s = travels@;
    let mut rest = travels;
    let mut due: Vec<Scheduled<T>> = Vec::new();
    let mut later: Vec<Scheduled<T>> = Vec::new();
    let mut i: usize = 0;
    let n = rest.len();
    assert(s.take(0) =~= Seq::<Scheduled<T>>::empty());
    proof { reveal(Seq::filter); }
    while 0 < rest.len()
        invariant
            i + rest@.len() == n == s.len(),
            rest@ == s.skip(i as int),
            due@ == due_travels(s.take(i as int), now),
            later@ == later_travels(s.take(i as int), now),
        decreases rest@.len(),
    {
        proof { reveal(Seq::filter); }
        let t = rest.remove(0);
        assert(s.take(i + 1).drop_last() =~= s.take(i as int));
        assert(s.take(i + 1).last() == t);
        assert(rest@ =~= s.skip(i + 1));
        let is_due = match t.step_end {
            Some(e) => e <= now,
            None => true,
        };
        if is_due {
            due.push(t);
        } else {
            later.push(t);
        }
        i = i + 1;
    }
    assert(s.take(n as int) =~= s);
    (due, later)
}


proof fn lemma_insert_sorted_multiset<T>(s: Seq<Scheduled<T>>, e: Scheduled<T>)
    ensures
        insert_sorted(s, e).to_multiset() =~= s.to_multiset().insert(e),
        insert_sorted(s, e).len() == s.len() + 1,
    decreases s.len(),
{
    broadcast use vstd::seq_lib::group_to_multiset_ensures, vstd::multiset::group_multiset_axioms;
    if s.len() == 0 {
        assert(s.to_multiset() =~= Multiset::<Scheduled<T>>::empty());
        assert(seq![e] =~= s.push(e));
    } else if step_key(s.last().step_end) <= step_key(e.step_end) {
    } else {
        lemma_insert_sorted_multiset(s.drop_last(), e);
        assert(s =~= s.drop_last().push(s.last()));
    }
}

/// Sorting recovered travels neither loses nor duplicates one.
pub proof fn lemma_sorting_keeps_every_travel<T>(s: Seq<Scheduled<T>>)
    ensures
        stable_sorted(s).to_multiset() =~= s.to_multiset(),
        stable_sorted(s).len() == s.len(),
    decreases s.len(),
{
    broadcast use vstd::seq_lib::group_to_multiset_ensures, vstd::multiset::group_multiset_axioms;
    if s.len() == 0 {
        assert(s.to_multiset() =~= Multiset::<Scheduled<T>>::empty());
        assert(stable_sorted(s).to_multiset() =~= Multiset::<Scheduled<T>>::empty());
    } else {
        lemma_sorting_keeps_every_travel(s.drop_last());
        lemma_insert_sorted_multiset(stable_sorted(s.drop_last()), s.last());
        assert(s =~= s.drop_last().push(s.last()));
    }
}

} // verus!
