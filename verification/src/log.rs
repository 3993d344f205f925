//! Bounded ring buffer for divergence records.
//!
//! Real production telemetry should ship divergences to your tracing /
//! metrics pipeline. This in-process log is for tests and for operators
//! poking at a live process via an admin endpoint.

use std::collections::VecDeque;

use vstd::prelude::*;

use crate::divergence::{Divergence, DivergenceView};

verus! {

/// One log entry: the input that produced the divergence + the divergence
/// itself. We don't store the full responses — that's potentially a lot of
/// memory.
#[derive(Debug)]
pub struct DivergenceEntry {
    /// Sampling / correlation key used by the call.
    pub key: Vec<u8>,
    /// The structured diff.
    pub divergence: Divergence,
}

/// A log entry as a key and a divergence view.
pub struct EntryView {
    pub key: Seq<u8>,
    pub divergence: DivergenceView,
}

impl View for DivergenceEntry {
    type V = EntryView;

    open spec fn view(&self) -> EntryView {
        EntryView { key: self.key@, divergence: self.divergence@ }
    }
}

impl Clone for DivergenceEntry {
    fn clone(&self) -> (c: Self)
        ensures
            c@ == self@,
    {
        let key = self.key.clone();
        assert(key@ =~= self.key@);
        DivergenceEntry { key, divergence: self.divergence.clone() }
    }
}

/// The entries a log of capacity `cap` holds after one more push onto `s`:
/// nothing changes at capacity 0; when full, the oldest entry leaves.
pub open spec fn bounded_push(cap: nat, s: Seq<EntryView>, e: EntryView) -> Seq<EntryView> {
    if cap == 0 {
        s
    } else if s.len() >= cap {
        s.drop_first().push(e)
    } else {
        s.push(e)
    }
}

/// The most recent `cap` of `pushes` (all of them when there are fewer),
/// oldest first.
pub open spec fn most_recent(cap: nat, pushes: Seq<EntryView>) -> Seq<EntryView> {
    if pushes.len() <= cap {
        pushes
    } else {
        pushes.skip(pushes.len() - cap)
    }
}

/// Bounded ring buffer. Drops the oldest entry when full.
#[derive(Debug)]
pub struct DivergenceLog {
    capacity: usize,
    entries: VecDeque<DivergenceEntry>,
}

impl View for DivergenceLog {
    type V = Seq<EntryView>;

    closed spec fn view(&self) -> Seq<EntryView> {
        self.entries@.map_values(|e: DivergenceEntry| e@)
    }
}

impl DivergenceLog {
    /// The capacity the log was built with.
    pub closed spec fn cap(&self) -> nat {
        self.capacity as nat
    }

    /// A log never holds more entries than its capacity.
    #[verifier::type_invariant]
    pub open spec fn within_capacity(self) -> bool {
        self@.len() <= self.cap()
    }

    /// Build a log with the given capacity. `capacity = 0` disables logging.
    pub fn new(capacity: usize) -> (log: Self)
        ensures
            log.cap() == capacity,
            log@ == Seq::<EntryView>::empty(),
    {
        let log = DivergenceLog { capacity, entries: VecDeque::with_capacity(capacity) };
        assert(log@ =~= Seq::<EntryView>::empty());
        log
    }

    /// Push one divergence. No-op when capacity is 0.
    pub fn push(&mut self, entry: DivergenceEntry)
        ensures
            final(self).cap() == old(self).cap(),
            final(self)@ == bounded_push(old(self).cap(), old(self)@, entry@),
            old(self).cap() == 0 ==> final(self)@ == old(self)@,
            old(self).cap() > 0 ==> final(self)@.len() == (if old(self)@.len() < old(self).cap() {
                old(self)@.len() + 1
            } else {
                old(self).cap()
            }),
            old(self).cap() > 0 ==> final(self)@ == old(self)@.push(entry@).skip(
                old(self)@.len() + 1 - final(self)@.len(),
            ),
    {
        proof {
            use_type_invariant(&*self);
            push_keeps_the_newest(self.cap(), self@, entry@);
        }
        if self.capacity == 0 {
            return;
        }
        let ghost before = self@;
        let ghost e = entry@;
        let mut entries: VecDeque<DivergenceEntry> = VecDeque::new();
        std::mem::swap(&mut entries, &mut self.entries);
        assert(before == entries@.map_values(|x: DivergenceEntry| x@));
        if entries.len() == self.capacity {
            let _ = entries.pop_front();
            entries.push_back(entry);
            assert(entries@.map_values(|x: DivergenceEntry| x@) =~= before.drop_first().push(e));
        } else {
            entries.push_back(entry);
            assert(entries@.map_values(|x: DivergenceEntry| x@) =~= before.push(e));
        }
        self.entries = entries;
    }

    /// Snapshot the current entries oldest-first.
    pub fn snapshot(&self) -> (v: Vec<DivergenceEntry>)
        ensures
            v@.map_values(|e: DivergenceEntry| e@) == self@,
    {
        let mut v: Vec<DivergenceEntry> = Vec::new();
        let mut i: usize = 0;
        while i < self.entries.len()
            invariant
                i <= self.entries@.len(),
                v@.len() == i,
                forall|j: int| 0 <= j < i ==> (#[trigger] v@[j])@ == self.entries@[j]@,
            decreases self.entries@.len() - i,
        {
            v.push(self.entries[i].clone());
            i = i + 1;
        }
        assert(v@.map_values(|e: DivergenceEntry| e@) =~= self@);
        v
    }

    /// Number of stored entries (≤ capacity).
    pub fn len(&self) -> (n: usize)
        ensures
            n == self@.len(),
            n <= self.cap(),
    {
        proof {
            use_type_invariant(self);
        }
        self.entries.len()
    }

    /// Whether the log has any entries.
    pub fn is_empty(&self) -> (b: bool)
        ensures
            b == (self@.len() == 0),
    {
        self.entries.len() == 0
    }
}

impl Default for DivergenceLog {
    fn default() -> (log: Self)
        ensures
            log.cap() == 128,
            log@ == Seq::<EntryView>::empty(),
    {
        Self::new(128)
    }
}

/// The log holds the most recent entries pushed: if it holds the most recent
/// `cap` of `pushes`, then after one more push it holds the most recent `cap`
/// of `pushes` followed by the new entry.
pub proof fn log_keeps_most_recent(cap: nat, pushes: Seq<EntryView>, e: EntryView)
    ensures
        bounded_push(cap, most_recent(cap, pushes), e) == most_recent(cap, pushes.push(e)),
{
    let s = most_recent(cap, pushes);
    let t = pushes.push(e);
    if cap == 0 {
        assert(s =~= Seq::<EntryView>::empty());
        assert(most_recent(cap, t) =~= Seq::<EntryView>::empty());
    } else if pushes.len() < cap {
    } else if pushes.len() == cap {
        assert(s.drop_first().push(e) =~= t.skip(1));
    } else {
        assert(s.drop_first().push(e) =~= t.skip(t.len() - cap));
    }
}

/// A push onto a log within its capacity: at capacity 0 nothing changes;
/// otherwise the log grows by one until full, the new entry is last, and what
/// is kept is the newest part of the old entries followed by the new one.
pub proof fn push_keeps_the_newest(cap: nat, s: Seq<EntryView>, e: EntryView)
    requires
        s.len() <= cap,
    ensures
        cap == 0 ==> bounded_push(cap, s, e) == s,
        cap > 0 ==> bounded_push(cap, s, e).len() == (if s.len() < cap {
            s.len() + 1
        } else {
            cap
        }),
        cap > 0 ==> bounded_push(cap, s, e) == s.push(e).skip(s.len() + 1 - bounded_push(cap, s, e).len()),
{
    if cap > 0 {
        if s.len() < cap {
            assert(s.push(e).skip(0) =~= s.push(e));
        } else {
            assert(s.drop_first().push(e) =~= s.push(e).skip(1));
        }
    }
}

/// A new log holds the most recent entries of no pushes at all.
pub proof fn new_log_holds_nothing(cap: nat)
    ensures
        most_recent(cap, Seq::<EntryView>::empty()) == Seq::<EntryView>::empty(),
{
}

/// The log never grows beyond its capacity.
pub proof fn log_is_bounded(cap: nat, s: Seq<EntryView>, e: EntryView)
    requires
        s.len() <= cap,
    ensures
        bounded_push(cap, s, e).len() <= cap,
{
}

/// What a log of capacity `cap` holding `start` holds after each of `pushes`
/// is pushed onto it in turn.
pub open spec fn after_pushes(cap: nat, start: Seq<EntryView>, pushes: Seq<EntryView>) -> Seq<
    EntryView,
>
    decreases pushes.len(),
{
    if pushes.len() == 0 {
        start
    } else {
        bounded_push(cap, after_pushes(cap, start, pushes.drop_last()), pushes.last())
    }
}

/// A new log of capacity `cap`, after any number `n` of pushes, holds the
/// last `min(n, cap)` entries pushed, oldest first (none at capacity 0).
pub proof fn log_after_pushes(cap: nat, pushes: Seq<EntryView>)
    ensures
        after_pushes(cap, Seq::empty(), pushes) == most_recent(cap, pushes),
        after_pushes(cap, Seq::empty(), pushes).len() == (if cap == 0 {
            0
        } else if pushes.len() < cap {
            pushes.len()
        } else {
            cap
        }),
    decreases pushes.len(),
{
    if pushes.len() > 0 {
        let init = pushes.drop_last();
        log_after_pushes(cap, init);
        log_keeps_most_recent(cap, init, pushes.last());
        assert(init.push(pushes.last()) =~= pushes);
    }
}

/// The default log (capacity 128) after 129 pushes has dropped the first
/// entry and holds the other 128 in push order.
pub proof fn default_log_after_129_pushes(pushes: Seq<EntryView>)
    requires
        pushes.len() == 129,
    ensures
        after_pushes(128, Seq::empty(), pushes) == pushes.skip(1),
        after_pushes(128, Seq::empty(), pushes).len() == 128,
{
    log_after_pushes(128, pushes);
}

} // verus!
