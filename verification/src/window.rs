//! The windowed aggregator for the raw-record path.
//!
//! Raw events are folded, in arrival order, into per-(device, cpu) running
//! statistics. The first event after a flush (or ever) opens a window; an
//! event whose timestamp exceeds the window start by more than one second
//! closes the window first — emitting one sample whose value is the number of
//! buckets accumulated — and then opens the next window with itself as the
//! first occupant. A timestamp that runs backwards never closes a window: the
//! boundary is simply not yet exceeded.

use crate::records::RawPreadRecord;
use vstd::prelude::*;

verus! {

/// One aggregation bucket's identity: the (device, cpu) pair.
#[derive(Clone, Copy, Debug, PartialEq, Eq, Structural)]
pub struct AggregateKey {
    pub fd: u64,
    pub cpu: u64,
}

/// Running statistics of one bucket within the current window.
#[derive(Clone, Copy, Debug, PartialEq, Eq, Structural)]
pub struct AggregateState {
    pub count: u64,
    pub max: u64,
    pub sum: u64,
}

/// One bucket of the aggregation map.
pub type WindowEntry = (AggregateKey, AggregateState);

/// The window span: one second of producer-clock time, in nanoseconds.
pub const WINDOW_NS: u64 = 1_000_000_000;

/// The bucket an event falls into.
pub open spec fn key_of(e: RawPreadRecord) -> AggregateKey {
    AggregateKey { fd: e.fd, cpu: e.cpu }
}

/// The total order on bucket keys: by device, then by cpu.
pub open spec fn key_lt(a: AggregateKey, b: AggregateKey) -> bool {
    a.fd < b.fd || (a.fd == b.fd && a.cpu < b.cpu)
}

/// Addition on the counters that sticks at the maximum instead of wrapping.
pub open spec fn sat_add64(a: u64, b: u64) -> u64 {
    if a + b > u64::MAX {
        u64::MAX
    } else {
        (a + b) as u64
    }
}

/// The state of the bucket `k` in an entry sequence, if present.
pub open spec fn spec_get(s: Seq<WindowEntry>, k: AggregateKey) -> Option<AggregateState>
    decreases s.len(),
{
    if s.len() == 0 {
        None
    } else if s[0].0 == k {
        Some(s[0].1)
    } else {
        spec_get(s.skip(1), k)
    }
}

/// The entries are strictly ordered by key; in particular every key occurs at
/// most once, so the length of the sequence is the number of distinct keys.
pub open spec fn entries_sorted(s: Seq<WindowEntry>) -> bool {
    forall|i: int, j: int| 0 <= i < j < s.len() ==> key_lt(s[i].0, s[j].0)
}

/// One more observation of the given magnitude folded into a bucket.
pub open spec fn bump_state(st: Option<AggregateState>, magnitude: u64) -> AggregateState {
    match st {
        None => AggregateState { count: 1, max: magnitude, sum: magnitude },
        Some(p) => AggregateState {
            count: sat_add64(p.count, 1),
            max: if magnitude > p.max {
                magnitude
            } else {
                p.max
            },
            sum: sat_add64(p.sum, magnitude),
        },
    }
}

/// The entry sequence with the bucket `k` set to `st`: updated in place if
/// present, inserted at its ordered position if not.
pub open spec fn spec_insert(s: Seq<WindowEntry>, k: AggregateKey, st: AggregateState) -> Seq<
    WindowEntry,
>
    decreases s.len(),
{
    if s.len() == 0 {
        seq![(k, st)]
    } else if s[0].0 == k {
        s.update(0, (k, st))
    } else if key_lt(k, s[0].0) {
        seq![(k, st)] + s
    } else {
        seq![s[0]] + spec_insert(s.skip(1), k, st)
    }
}

/// The aggregator's abstract state.
pub struct WindowView {
    /// The aggregation map, as its ordered entry sequence.
    pub entries: Seq<WindowEntry>,
    /// The timestamp that opened the current window, once any event arrived.
    pub window_start: Option<u64>,
    /// The accumulated values of all emitted window-closed samples.
    pub samples_total: u64,
    /// How many raw events have been folded in.
    pub events_total: u64,
}

/// The abstract state before any event has arrived.
pub open spec fn fresh_view() -> WindowView {
    WindowView { entries: Seq::empty(), window_start: None, samples_total: 0, events_total: 0 }
}

/// Whether an event at time `t` closes the current window: only when a window
/// is open and `t` exceeds its start by more than the window span. A negative
/// delta (clock regression) never closes a window.
pub open spec fn spec_should_flush(window_start: Option<u64>, t: u64) -> bool {
    match window_start {
        Some(w) => t - w > WINDOW_NS,
        None => false,
    }
}

/// The sample an event emits, if it closes the current window: the number of
/// buckets accumulated so far.
pub open spec fn step_flush(v: WindowView, e: RawPreadRecord) -> Option<u64> {
    if spec_should_flush(v.window_start, e.time) {
        Some(v.entries.len() as u64)
    } else {
        None
    }
}

/// The abstract state after one event: flush first if the boundary is
/// exceeded, then fold the event into the (possibly fresh) window.
pub open spec fn step(v: WindowView, e: RawPreadRecord) -> WindowView {
    let flush = spec_should_flush(v.window_start, e.time);
    let base = if flush {
        Seq::<WindowEntry>::empty()
    } else {
        v.entries
    };
    let k = key_of(e);
    WindowView {
        entries: spec_insert(base, k, bump_state(spec_get(base, k), e.count)),
        window_start: if flush || v.window_start is None {
            Some(e.time)
        } else {
            v.window_start
        },
        samples_total: if flush {
            sat_add64(v.samples_total, v.entries.len() as u64)
        } else {
            v.samples_total
        },
        events_total: sat_add64(v.events_total, 1),
    }
}

/// The abstract state after a whole batch, in arrival order.
pub open spec fn run(v: WindowView, s: Seq<RawPreadRecord>) -> WindowView
    decreases s.len(),
{
    if s.len() == 0 {
        v
    } else {
        run(step(v, s[0]), s.skip(1))
    }
}

/// The window-closed samples a batch emits, in order.
pub open spec fn run_flushes(v: WindowView, s: Seq<RawPreadRecord>) -> Seq<u64>
    decreases s.len(),
{
    if s.len() == 0 {
        Seq::empty()
    } else {
        match step_flush(v, s[0]) {
            Some(x) => seq![x] + run_flushes(step(v, s[0]), s.skip(1)),
            None => run_flushes(step(v, s[0]), s.skip(1)),
        }
    }
}

/// The windowed aggregator: an ordered map from bucket key to running
/// statistics, plus the current window's start and the output counters.
pub struct WindowAggregator {
    entries: Vec<WindowEntry>,
    window_start: Option<u64>,
    samples_total: u64,
    events_total: u64,
}

impl View for WindowAggregator {
    type V = WindowView;

    closed spec fn view(&self) -> WindowView {
        WindowView {
            entries: self.entries@,
            window_start: self.window_start,
            samples_total: self.samples_total,
            events_total: self.events_total,
        }
    }
}

/// Saturating u64 addition.
fn sat_add_u64(a: u64, b: u64) -> (r: u64)
    ensures
        r == sat_add64(a, b),
{
    if a <= u64::MAX - b {
        a + b
    } else {
        u64::MAX
    }
}

/// The executable key order.
fn key_lt_exec(a: AggregateKey, b: AggregateKey) -> (r: bool)
    ensures
        r == key_lt(a, b),
{
    a.fd < b.fd || (a.fd == b.fd && a.cpu < b.cpu)
}

impl WindowAggregator {
    /// The aggregation map stays strictly ordered by key.
    pub open spec fn wf(&self) -> bool {
        entries_sorted(self@.entries)
    }

    /// A fresh aggregator: no buckets, no window, zero counters.
    pub fn new() -> (a: Self)
        ensures
            a.wf(),
            a@ == fresh_view(),
    {
        let a = WindowAggregator {
            entries: Vec::new(),
            window_start: None,
            samples_total: 0,
            events_total: 0,
        };
        proof {
            assert(a@.entries =~= fresh_view().entries);
            assert(a@ =~= fresh_view());
        }
        a
    }

    /// The accumulated value of all emitted window-closed samples.
    pub fn samples_total(&self) -> (n: u64)
        ensures
            n == self@.samples_total,
    {
        self.samples_total
    }

    /// How many raw events have been folded in.
    pub fn events_total(&self) -> (n: u64)
        ensures
            n == self@.events_total,
    {
        self.events_total
    }

    /// The timestamp that opened the current window, once any event arrived.
    pub fn window_start(&self) -> (w: Option<u64>)
        ensures
            w == self@.window_start,
    {
        self.window_start
    }

    /// How many buckets the current window holds.
    pub fn bucket_count(&self) -> (n: usize)
        ensures
            n as int == self@.entries.len(),
    {
        self.entries.len()
    }

    /// The current statistics of the bucket (fd, cpu), if it has been seen in
    /// this window.
    pub fn lookup(&self, fd: u64, cpu: u64) -> (st: Option<AggregateState>)
        ensures
            st == spec_get(self@.entries, AggregateKey { fd, cpu }),
    {
        let k = AggregateKey { fd, cpu };
        let n = self.entries.len();
        let mut i: usize = 0;
        proof {
            assert(self@.entries.skip(0) =~= self@.entries);
        }
        loop
            invariant
                i <= n,
                n == self@.entries.len(),
                k == (AggregateKey { fd, cpu }),
                spec_get(self@.entries, k) == spec_get(self@.entries.skip(i as int), k),
            decreases n - i,
        {
            if i == n {
                proof {
                    assert(self@.entries.skip(n as int) =~= Seq::<WindowEntry>::empty());
                }
                return None;
            }
            let ek = self.entries[i].0;
            proof {
                assert(self@.entries.skip(i as int)[0] == self@.entries[i as int]);
            }
            if ek.fd == k.fd && ek.cpu == k.cpu {
                assert(ek == k);
                return Some(self.entries[i].1);
            }
            proof {
                assert(self@.entries.skip(i as int).skip(1) =~= self@.entries.skip(i as int + 1));
            }
            i = i + 1;
        }
    }

    /// Fold one raw event in; the result is the window-closed sample this
    /// event emitted, if it closed a window.
    pub fn process_event(&mut self, e: RawPreadRecord) -> (flushed: Option<u64>)
        requires
            old(self).wf(),
        ensures
            final(self).wf(),
            final(self)@ == step(old(self)@, e),
            flushed == step_flush(old(self)@, e),
    {
        let ghost v0 = self@;
        let flush: bool = match self.window_start {
            Some(w) => e.time > w && e.time - w > WINDOW_NS,
            None => false,
        };
        assert(flush == spec_should_flush(v0.window_start, e.time));
        let mut flushed: Option<u64> = None;
        if flush {
            let n64 = self.entries.len() as u64;
            flushed = Some(n64);
            self.samples_total = sat_add_u64(self.samples_total, n64);
            self.entries.clear();
            self.window_start = Some(e.time);
        } else if self.window_start.is_none() {
            self.window_start = Some(e.time);
        }
        self.events_total = sat_add_u64(self.events_total, 1);
        let ghost base = self@.entries;
        proof {
            if flush {
                assert(base =~= Seq::<WindowEntry>::empty());
            }
            assert(entries_sorted(base));
        }
        let k = AggregateKey { fd: e.fd, cpu: e.cpu };
        let n = self.entries.len();
        let mut i: usize = 0;
        loop
            invariant
                i <= n,
                n == self.entries@.len(),
                self.entries@ == base,
                forall|j: int| 0 <= j < i ==> key_lt(base[j].0, k),
            ensures
                i <= n,
                n == self.entries@.len(),
                self.entries@ == base,
                forall|j: int| 0 <= j < i ==> key_lt(base[j].0, k),
                i < n ==> !key_lt(base[i as int].0, k),
            decreases n - i,
        {
            if i == n {
                break ;
            }
            let ek = self.entries[i].0;
            if key_lt_exec(ek, k) {
                i = i + 1;
            } else {
                break ;
            }
        }
        // i is now the ordered position of k: everything before it is
        // strictly smaller, and entry i (if any) is not smaller.
        let ghost newst_spec = bump_state(spec_get(base, key_of(e)), e.count);
        if i < n {
            let ek = self.entries[i].0;
            if ek.fd == k.fd && ek.cpu == k.cpu {
                let prev = self.entries[i].1;
                proof {
                    lemma_sorted_get_at(base, i as int);
                }
                let newst = bump_state_exec(Some(prev), e.count);
                self.entries[i] = (k, newst);
                proof {
                    lemma_spec_insert_at(base, k, newst, i as int);
                    lemma_insert_sorted(base, k, newst);
                }
            } else {
                let newst = bump_state_exec(None, e.count);
                proof {
                    assert(base[i as int].0 != k);
                    lemma_sorted_get_none(base, k, i as int);
                }
                self.entries.insert(i, (k, newst));
                proof {
                    lemma_spec_insert_at(base, k, newst, i as int);
                    assert(self.entries@ =~= base.subrange(0, i as int) + seq![(k, newst)]
                        + base.subrange(i as int, base.len() as int));
                    lemma_insert_sorted(base, k, newst);
                }
            }
        } else {
            let newst = bump_state_exec(None, e.count);
            proof {
                lemma_sorted_get_none(base, k, i as int);
            }
            self.entries.insert(i, (k, newst));
            proof {
                lemma_spec_insert_at(base, k, newst, i as int);
                assert(self.entries@ =~= base.subrange(0, i as int) + seq![(k, newst)]
                    + base.subrange(i as int, base.len() as int));
                lemma_insert_sorted(base, k, newst);
            }
        }
        flushed
    }

    /// Fold a whole batch in, in arrival order.
    pub fn process_batch(&mut self, batch: &Vec<RawPreadRecord>)
        requires
            old(self).wf(),
        ensures
            final(self).wf(),
            final(self)@ == run(old(self)@, batch@),
    {
        let ghost v0 = self@;
        let mut i: usize = 0;
        proof {
            assert(batch@.skip(0) =~= batch@);
        }
        while i < batch.len()
            invariant
                i <= batch@.len(),
                self.wf(),
                run(v0, batch@) == run(self@, batch@.skip(i as int)),
            decreases batch@.len() - i,
        {
            let e = batch[i];
            proof {
                assert(batch@.skip(i as int)[0] == batch@[i as int]);
                assert(batch@.skip(i as int).skip(1) =~= batch@.skip(i as int + 1));
            }
            let _ = self.process_event(e);
            i = i + 1;
        }
        proof {
            assert(batch@.skip(batch@.len() as int) =~= Seq::<RawPreadRecord>::empty());
        }
    }
}

/// The executable fold of one observation into a bucket.
fn bump_state_exec(st: Option<AggregateState>, magnitude: u64) -> (r: AggregateState)
    ensures
        r == bump_state(st, magnitude),
{
    match st {
        None => AggregateState { count: 1, max: magnitude, sum: magnitude },
        Some(p) => AggregateState {
            count: sat_add_u64(p.count, 1),
            max: if magnitude > p.max {
                magnitude
            } else {
                p.max
            },
            sum: sat_add_u64(p.sum, magnitude),
        },
    }
}

/// In a sorted entry sequence, the bucket at index `i` looks itself up.
proof fn lemma_sorted_get_at(s: Seq<WindowEntry>, i: int)
    requires
        entries_sorted(s),
        0 <= i < s.len(),
    ensures
        spec_get(s, s[i].0) == Some(s[i].1),
    decreases i,
{
    if i == 0 {
    } else {
        assert(key_lt(s[0].0, s[i].0));
        assert(s[0].0 != s[i].0);
        assert(entries_sorted(s.skip(1))) by {
            assert(forall|a: int, b: int|
                0 <= a < b < s.len() - 1 ==> key_lt(
                    #[trigger] s.skip(1)[a].0,
                    #[trigger] s.skip(1)[b].0,
                ));
        }
        lemma_sorted_get_at(s.skip(1), i - 1);
        assert(s.skip(1)[i - 1] == s[i]);
    }
}

/// In a sorted entry sequence, a key that is larger than everything before
/// position `i` and not larger than the entry at `i` (whose key differs) is
/// absent.
proof fn lemma_sorted_get_none(s: Seq<WindowEntry>, k: AggregateKey, i: int)
    requires
        entries_sorted(s),
        0 <= i <= s.len(),
        forall|j: int| 0 <= j < i ==> key_lt(s[j].0, k),
        i < s.len() ==> !key_lt(s[i].0, k) && s[i].0 != k,
    ensures
        spec_get(s, k) is None,
    decreases s.len(),
{
    if s.len() == 0 {
    } else if s[0].0 == k {
        if i == 0 {
            assert(!key_lt(s[0].0, k) && s[0].0 != k);
        } else {
            assert(key_lt(s[0].0, k));
        }
        assert(false);
    } else {
        assert(entries_sorted(s.skip(1))) by {
            assert(forall|a: int, b: int|
                0 <= a < b < s.len() - 1 ==> key_lt(
                    #[trigger] s.skip(1)[a].0,
                    #[trigger] s.skip(1)[b].0,
                ));
        }
        if i == 0 {
            // k is not larger than s[0].0 and differs from it, so it is
            // strictly smaller than every key in the sequence.
            assert(key_lt(k, s[0].0));
            lemma_get_none_if_below(s, k);
        } else {
            lemma_sorted_get_none(s.skip(1), k, i - 1);
        }
    }
}

/// A key strictly below the head of a sorted entry sequence is absent.
proof fn lemma_get_none_if_below(s: Seq<WindowEntry>, k: AggregateKey)
    requires
        entries_sorted(s),
        s.len() > 0 ==> key_lt(k, s[0].0),
    ensures
        spec_get(s, k) is None,
    decreases s.len(),
{
    if s.len() == 0 {
    } else {
        assert(s[0].0 != k);
        assert(entries_sorted(s.skip(1))) by {
            assert(forall|a: int, b: int|
                0 <= a < b < s.len() - 1 ==> key_lt(
                    #[trigger] s.skip(1)[a].0,
                    #[trigger] s.skip(1)[b].0,
                ));
        }
        if s.len() > 1 {
            assert(key_lt(s[0].0, s[1].0));
            lemma_key_lt_trans(k, s[0].0, s[1].0);
            assert(s.skip(1)[0] == s[1]);
        }
        lemma_get_none_if_below(s.skip(1), k);
    }
}

/// `spec_insert` at the position the search loop finds: an in-place update if
/// the key is present there, a positional insertion otherwise.
proof fn lemma_spec_insert_at(s: Seq<WindowEntry>, k: AggregateKey, st: AggregateState, i: int)
    requires
        entries_sorted(s),
        0 <= i <= s.len(),
        forall|j: int| 0 <= j < i ==> key_lt(s[j].0, k),
        i < s.len() ==> !key_lt(s[i].0, k),
    ensures
        i < s.len() && s[i].0 == k ==> spec_insert(s, k, st) == s.update(i, (k, st)),
        (i == s.len() || s[i].0 != k) ==> spec_insert(s, k, st) == s.subrange(0, i) + seq![(k, st)]
            + s.subrange(i, s.len() as int),
    decreases s.len(),
{
    if s.len() == 0 {
        assert(spec_insert(s, k, st) =~= s.subrange(0, 0) + seq![(k, st)] + s.subrange(0, 0));
    } else if i == 0 {
        if s[0].0 == k {
        } else {
            assert(key_lt(k, s[0].0));
            assert(spec_insert(s, k, st) == seq![(k, st)] + s);
            assert(spec_insert(s, k, st) =~= s.subrange(0, 0) + seq![(k, st)] + s.subrange(
                0,
                s.len() as int,
            ));
        }
    } else {
        assert(key_lt(s[0].0, k));
        assert(s[0].0 != k);
        assert(!key_lt(k, s[0].0));
        assert(spec_insert(s, k, st) == seq![s[0]] + spec_insert(s.skip(1), k, st));
        assert(entries_sorted(s.skip(1))) by {
            assert(forall|a: int, b: int|
                0 <= a < b < s.len() - 1 ==> key_lt(
                    #[trigger] s.skip(1)[a].0,
                    #[trigger] s.skip(1)[b].0,
                ));
        }
        assert(forall|j: int| 0 <= j < i - 1 ==> key_lt(#[trigger] s.skip(1)[j].0, k));
        lemma_spec_insert_at(s.skip(1), k, st, i - 1);
        if i < s.len() && s[i].0 == k {
            assert(s.skip(1)[i - 1] == s[i]);
            assert(spec_insert(s, k, st) =~= s.update(i, (k, st)));
        } else {
            assert(spec_insert(s, k, st) =~= s.subrange(0, i) + seq![(k, st)] + s.subrange(
                i,
                s.len() as int,
            ));
        }
    }
}

/// Inserting a bucket keeps the entries strictly ordered.
proof fn lemma_insert_sorted(s: Seq<WindowEntry>, k: AggregateKey, st: AggregateState)
    requires
        entries_sorted(s),
    ensures
        entries_sorted(spec_insert(s, k, st)),
    decreases s.len(),
{
    let t = spec_insert(s, k, st);
    if s.len() == 0 {
    } else if s[0].0 == k {
        assert(forall|i: int, j: int| 0 <= i < j < t.len() ==> key_lt(t[i].0, t[j].0));
    } else if key_lt(k, s[0].0) {
        assert(t == seq![(k, st)] + s);
        assert forall|i: int, j: int| 0 <= i < j < t.len() implies key_lt(t[i].0, t[j].0) by {
            if i == 0 {
                if j == 1 {
                    assert(t[j].0 == s[0].0);
                } else {
                    assert(t[j].0 == s[j - 1].0);
                    assert(key_lt(s[0].0, s[j - 1].0));
                    lemma_key_lt_trans(k, s[0].0, s[j - 1].0);
                }
            } else {
                assert(t[i].0 == s[i - 1].0 && t[j].0 == s[j - 1].0);
            }
        }
    } else {
        assert(entries_sorted(s.skip(1))) by {
            assert(forall|a: int, b: int|
                0 <= a < b < s.len() - 1 ==> key_lt(
                    #[trigger] s.skip(1)[a].0,
                    #[trigger] s.skip(1)[b].0,
                ));
        }
        lemma_insert_sorted(s.skip(1), k, st);
        let t1 = spec_insert(s.skip(1), k, st);
        assert(t == seq![s[0]] + t1);
        // every key in the inserted tail is either k (larger than s[0].0) or
        // one of the original tail keys (larger than s[0].0 by sortedness)
        lemma_insert_keys(s.skip(1), k, st);
        assert forall|i: int, j: int| 0 <= i < j < t.len() implies key_lt(t[i].0, t[j].0) by {
            if i == 0 {
                assert(t[j].0 == t1[j - 1].0);
                if t1[j - 1].0 == k {
                    assert(key_lt(s[0].0, k));
                } else {
                    let idx = choose|idx: int|
                        0 <= idx < s.skip(1).len() && s.skip(1)[idx].0 == t1[j - 1].0;
                    assert(s.skip(1)[idx] == s[idx + 1]);
                    assert(key_lt(s[0].0, s[idx + 1].0));
                }
            } else {
                assert(t[i].0 == t1[i - 1].0 && t[j].0 == t1[j - 1].0);
            }
        }
    }
}

/// Every key of an inserted sequence is the new key or one of the old keys.
proof fn lemma_insert_keys(s: Seq<WindowEntry>, k: AggregateKey, st: AggregateState)
    ensures
        forall|i: int|
            0 <= i < spec_insert(s, k, st).len() ==> (#[trigger] spec_insert(s, k, st)[i].0 == k
                || exists|j: int| 0 <= j < s.len() && s[j].0 == spec_insert(s, k, st)[i].0),
    decreases s.len(),
{
    let t = spec_insert(s, k, st);
    if s.len() == 0 {
    } else if s[0].0 == k {
        assert forall|i: int| 0 <= i < t.len() implies (t[i].0 == k || exists|j: int|
            0 <= j < s.len() && s[j].0 == t[i].0) by {
            if i != 0 {
                assert(t[i].0 == s[i].0);
            }
        }
    } else if key_lt(k, s[0].0) {
        assert forall|i: int| 0 <= i < t.len() implies (t[i].0 == k || exists|j: int|
            0 <= j < s.len() && s[j].0 == t[i].0) by {
            if i != 0 {
                assert(t[i].0 == s[i - 1].0);
            }
        }
    } else {
        lemma_insert_keys(s.skip(1), k, st);
        let t1 = spec_insert(s.skip(1), k, st);
        assert forall|i: int| 0 <= i < t.len() implies (t[i].0 == k || exists|j: int|
            0 <= j < s.len() && s[j].0 == t[i].0) by {
            if i == 0 {
                assert(t[0].0 == s[0].0);
            } else {
                assert(t[i].0 == t1[i - 1].0);
                if t1[i - 1].0 != k {
                    let jj = choose|jj: int|
                        0 <= jj < s.skip(1).len() && s.skip(1)[jj].0 == t1[i - 1].0;
                    assert(s[jj + 1].0 == t1[i - 1].0);
                }
            }
        }
    }
}

/// Strict key order is transitive.
proof fn lemma_key_lt_trans(a: AggregateKey, b: AggregateKey, c: AggregateKey)
    requires
        key_lt(a, b),
        key_lt(b, c),
    ensures
        key_lt(a, c),
{
}

/// Timestamps appear in strictly increasing order.
pub open spec fn timestamps_strictly_increase(s: Seq<RawPreadRecord>) -> bool {
    forall|i: int, j: int| 0 <= i < j < s.len() ==> s[i].time < s[j].time
}

/// Every event lies within one window span of the first.
pub open spec fn within_one_second_of_first(s: Seq<RawPreadRecord>) -> bool {
    forall|i: int| 0 <= i < s.len() ==> #[trigger] s[i].time - s[0].time <= WINDOW_NS
}

/// How many events of a sequence fall into the bucket `k`.
pub open spec fn key_count(s: Seq<RawPreadRecord>, k: AggregateKey) -> int
    decreases s.len(),
{
    if s.len() == 0 {
        0
    } else {
        (if key_of(s[0]) == k {
            1int
        } else {
            0int
        }) + key_count(s.skip(1), k)
    }
}

/// The largest magnitude a sequence observes in the bucket `k` (0 if none).
pub open spec fn key_max(s: Seq<RawPreadRecord>, k: AggregateKey) -> int
    decreases s.len(),
{
    if s.len() == 0 {
        0
    } else {
        let rest = key_max(s.skip(1), k);
        if key_of(s[0]) == k && s[0].count > rest {
            s[0].count as int
        } else {
            rest
        }
    }
}

/// The total magnitude a sequence observes in the bucket `k`.
pub open spec fn key_sum(s: Seq<RawPreadRecord>, k: AggregateKey) -> int
    decreases s.len(),
{
    if s.len() == 0 {
        0
    } else {
        (if key_of(s[0]) == k {
            s[0].count as int
        } else {
            0int
        }) + key_sum(s.skip(1), k)
    }
}

/// A bucket's count, as a mathematical integer (0 if absent).
pub open spec fn state_count(st: Option<AggregateState>) -> int {
    match st {
        None => 0,
        Some(p) => p.count as int,
    }
}

/// A bucket's maximum, as a mathematical integer (0 if absent).
pub open spec fn state_max(st: Option<AggregateState>) -> int {
    match st {
        None => 0,
        Some(p) => p.max as int,
    }
}

/// A bucket's sum, as a mathematical integer (0 if absent).
pub open spec fn state_sum(st: Option<AggregateState>) -> int {
    match st {
        None => 0,
        Some(p) => p.sum as int,
    }
}

/// A bucket with `c` further observations of maximum `m` and total `su`
/// folded in.
pub open spec fn spec_merge(st: Option<AggregateState>, c: int, m: int, su: int) -> Option<
    AggregateState,
> {
    if c == 0 {
        st
    } else {
        Some(
            AggregateState {
                count: (state_count(st) + c) as u64,
                max: (if m > state_max(st) {
                    m
                } else {
                    state_max(st)
                }) as u64,
                sum: (state_sum(st) + su) as u64,
            },
        )
    }
}

/// The per-key aggregates of a sequence are non-negative and bounded.
proof fn lemma_key_aggregates_bounds(s: Seq<RawPreadRecord>, k: AggregateKey)
    ensures
        0 <= key_count(s, k) <= s.len(),
        0 <= key_sum(s, k),
        0 <= key_max(s, k) <= u64::MAX,
    decreases s.len(),
{
    if s.len() == 0 {
    } else {
        lemma_key_aggregates_bounds(s.skip(1), k);
    }
}

/// Law: processing an empty batch changes no state and emits no flush.
pub proof fn lemma_empty_batch_no_effect(v: WindowView)
    ensures
        run(v, Seq::<RawPreadRecord>::empty()) == v,
        run_flushes(v, Seq::<RawPreadRecord>::empty()) == Seq::<u64>::empty(),
{
}

/// In a sorted entry sequence every bucket key occurs exactly once, so the
/// sequence's length is the number of distinct keys.
pub proof fn lemma_sorted_keys_distinct(s: Seq<WindowEntry>)
    requires
        entries_sorted(s),
    ensures
        forall|i: int, j: int| 0 <= i < j < s.len() ==> s[i].0 != s[j].0,
{
    assert forall|i: int, j: int| 0 <= i < j < s.len() implies s[i].0 != s[j].0 by {
        assert(key_lt(s[i].0, s[j].0));
    }
}

/// Law: an event whose timestamp exceeds the window start by more than one
/// second emits exactly one flush, whose value is the number of buckets
/// accumulated so far, before the event itself is folded into the next
/// window's state.
pub proof fn lemma_window_boundary_flush(v: WindowView, e: RawPreadRecord)
    requires
        v.window_start is Some,
        e.time - v.window_start.unwrap() > WINDOW_NS,
    ensures
        step_flush(v, e) == Some((v.entries.len() as u64)),
        run_flushes(v, seq![e]) == seq![v.entries.len() as u64],
        step(v, e).entries == seq![
            (key_of(e), AggregateState { count: 1u64, max: e.count, sum: e.count }),
        ],
        step(v, e).window_start == Some(e.time),
{
    assert(spec_should_flush(v.window_start, e.time));
    assert(seq![e][0] == e);
    assert(seq![e].skip(1) =~= Seq::<RawPreadRecord>::empty());
    assert(run_flushes(step(v, e), seq![e].skip(1)) == Seq::<u64>::empty());
    assert(run_flushes(v, seq![e]) =~= seq![v.entries.len() as u64]);
    let base = Seq::<WindowEntry>::empty();
    assert(spec_get(base, key_of(e)) is None);
    assert(bump_state(None, e.count) == AggregateState { count: 1u64, max: e.count, sum: e.count });
    assert(step(v, e).entries =~= seq![(key_of(e), bump_state(None, e.count))]);
}

/// Folding a sequence of events that all lie within the open window into an
/// aggregator emits no flush and adds exactly the per-key counts, maxima and
/// sums of the sequence, as long as no counter overflows.
proof fn lemma_window_accumulate(v: WindowView, s: Seq<RawPreadRecord>)
    requires
        entries_sorted(v.entries),
        v.window_start is Some,
        forall|i: int| 0 <= i < s.len() ==> s[i].time - v.window_start.unwrap() <= WINDOW_NS,
        forall|k: AggregateKey|
            state_count(spec_get(v.entries, k)) + #[trigger] key_count(s, k) <= u64::MAX,
        forall|k: AggregateKey|
            state_sum(spec_get(v.entries, k)) + #[trigger] key_sum(s, k) <= u64::MAX,
    ensures
        run_flushes(v, s) == Seq::<u64>::empty(),
        run(v, s).window_start == v.window_start,
        run(v, s).samples_total == v.samples_total,
        entries_sorted(run(v, s).entries),
        forall|k: AggregateKey| #[trigger]
            spec_get(run(v, s).entries, k) == spec_merge(
                spec_get(v.entries, k),
                key_count(s, k),
                key_max(s, k),
                key_sum(s, k),
            ),
    decreases s.len(),
{
    if s.len() == 0 {
        assert forall|k: AggregateKey| #[trigger]
            spec_get(run(v, s).entries, k) == spec_merge(
                spec_get(v.entries, k),
                key_count(s, k),
                key_max(s, k),
                key_sum(s, k),
            ) by {
            assert(key_count(s, k) == 0);
        }
    } else {
        let e = s[0];
        let k0 = key_of(e);
        let st0 = spec_get(v.entries, k0);
        assert(s[0].time - v.window_start.unwrap() <= WINDOW_NS);
        assert(!spec_should_flush(v.window_start, e.time));
        let v1 = step(v, e);
        let b = bump_state(st0, e.count);
        assert(v1.entries == spec_insert(v.entries, k0, b));
        assert(v1.window_start == v.window_start);
        assert(v1.samples_total == v.samples_total);
        lemma_insert_sorted(v.entries, k0, b);
        assert forall|k: AggregateKey| #[trigger]
            spec_get(v1.entries, k) == (if k == k0 {
                Some(b)
            } else {
                spec_get(v.entries, k)
            }) by {
            lemma_get_insert(v.entries, k0, b, k);
        }
        let tail = s.skip(1);
        // the head's contribution, in terms of the whole sequence
        assert(key_count(s, k0) == 1 + key_count(tail, k0));
        assert(key_sum(s, k0) == e.count + key_sum(tail, k0));
        lemma_key_aggregates_bounds(tail, k0);
        lemma_key_aggregates_bounds(s, k0);
        // the bumped bucket saturates nowhere: its counters stay within range
        assert(state_count(st0) + key_count(s, k0) <= u64::MAX);
        assert(state_sum(st0) + key_sum(s, k0) <= u64::MAX);
        assert(state_count(st0) + 1 <= u64::MAX);
        assert(state_sum(st0) + e.count <= u64::MAX);
        assert(state_count(Some(b)) == state_count(st0) + 1) by {
            if st0 is Some {
                assert(b.count == sat_add64(st0.unwrap().count, 1));
            }
        }
        assert(state_sum(Some(b)) == state_sum(st0) + e.count) by {
            if st0 is Some {
                assert(b.sum == sat_add64(st0.unwrap().sum, e.count));
            }
        }
        assert(state_max(Some(b)) == (if e.count > state_max(st0) {
            e.count as int
        } else {
            state_max(st0)
        }));
        // hypotheses of the tail
        assert forall|i: int| 0 <= i < tail.len() implies tail[i].time - v1.window_start.unwrap()
            <= WINDOW_NS by {
            assert(tail[i] == s[i + 1]);
        }
        assert forall|k: AggregateKey|
            state_count(spec_get(v1.entries, k)) + #[trigger] key_count(tail, k)
            <= u64::MAX by {
            lemma_key_aggregates_bounds(tail, k);
            if k == k0 {
                assert(key_count(s, k0) <= u64::MAX - state_count(st0));
            } else {
                assert(key_count(s, k) == key_count(tail, k));
            }
        }
        assert forall|k: AggregateKey|
            state_sum(spec_get(v1.entries, k)) + #[trigger] key_sum(tail, k)
            <= u64::MAX by {
            lemma_key_aggregates_bounds(tail, k);
            lemma_key_aggregates_bounds(s, k);
            if k == k0 {
                assert(key_sum(s, k0) <= u64::MAX - state_sum(st0));
            } else {
                assert(key_sum(s, k) == key_sum(tail, k));
            }
        }
        lemma_window_accumulate(v1, tail);
        assert(run(v, s) == run(v1, tail));
        assert(run_flushes(v, s) == run_flushes(v1, tail));
        // combine the head's contribution with the tail's
        assert forall|k: AggregateKey| #[trigger]
            spec_get(run(v, s).entries, k) == spec_merge(
                spec_get(v.entries, k),
                key_count(s, k),
                key_max(s, k),
                key_sum(s, k),
            ) by {
            lemma_key_aggregates_bounds(tail, k);
            assert(spec_get(run(v1, tail).entries, k) == spec_merge(
                spec_get(v1.entries, k),
                key_count(tail, k),
                key_max(tail, k),
                key_sum(tail, k),
            ));
            if k == k0 {
                let c1 = key_count(tail, k0);
                let m1 = key_max(tail, k0);
                let su1 = key_sum(tail, k0);
                assert(key_max(s, k0) == (if e.count > m1 {
                    e.count as int
                } else {
                    m1
                }));
                if c1 == 0 {
                    lemma_key_max_zero_when_absent(tail, k0);
                    lemma_key_sum_zero_when_absent(tail, k0);
                    assert(spec_merge(spec_get(v1.entries, k0), 0, m1, su1) == Some(b));
                } else {
                    assert(spec_merge(st0, key_count(s, k0), key_max(s, k0), key_sum(s, k0))
                        == spec_merge(Some(b), c1, m1, su1));
                }
            } else {
                assert(key_count(s, k) == key_count(tail, k));
                assert(key_max(s, k) == key_max(tail, k));
                assert(key_sum(s, k) == key_sum(tail, k));
            }
        }
    }
}

/// A bucket no event falls into has maximum 0.
proof fn lemma_key_max_zero_when_absent(s: Seq<RawPreadRecord>, k: AggregateKey)
    requires
        key_count(s, k) == 0,
    ensures
        key_max(s, k) == 0,
    decreases s.len(),
{
    if s.len() == 0 {
    } else {
        lemma_key_aggregates_bounds(s.skip(1), k);
        assert(key_count(s.skip(1), k) == 0);
        lemma_key_max_zero_when_absent(s.skip(1), k);
    }
}

/// A bucket no event falls into has sum 0.
proof fn lemma_key_sum_zero_when_absent(s: Seq<RawPreadRecord>, k: AggregateKey)
    requires
        key_count(s, k) == 0,
    ensures
        key_sum(s, k) == 0,
    decreases s.len(),
{
    if s.len() == 0 {
    } else {
        lemma_key_aggregates_bounds(s.skip(1), k);
        assert(key_count(s.skip(1), k) == 0);
        lemma_key_sum_zero_when_absent(s.skip(1), k);
    }
}

/// Looking a key up after an insertion: the inserted key maps to the new
/// state, every other key is untouched.
proof fn lemma_get_insert(
    s: Seq<WindowEntry>,
    k: AggregateKey,
    st: AggregateState,
    k2: AggregateKey,
)
    requires
        entries_sorted(s),
    ensures
        k2 == k ==> spec_get(spec_insert(s, k, st), k2) == Some(st),
        k2 != k ==> spec_get(spec_insert(s, k, st), k2) == spec_get(s, k2),
    decreases s.len(),
{
    let t = spec_insert(s, k, st);
    if s.len() == 0 {
        assert(t == seq![(k, st)]);
        assert(t.len() == 1);
        assert(t[0] == (k, st));
        assert(t.skip(1) =~= Seq::<WindowEntry>::empty());
    } else if s[0].0 == k {
        assert(t == s.update(0, (k, st)));
        assert(t.len() == s.len());
        assert(t[0] == (k, st));
        assert(t.skip(1) =~= s.skip(1));
        if k2 != k {
            assert(spec_get(t, k2) == spec_get(t.skip(1), k2));
            assert(spec_get(s, k2) == spec_get(s.skip(1), k2));
        }
    } else if key_lt(k, s[0].0) {
        assert(t == seq![(k, st)] + s);
        assert(t[0] == (k, st));
        assert(t.skip(1) =~= s);
    } else {
        assert(t == seq![s[0]] + spec_insert(s.skip(1), k, st));
        assert(t[0] == s[0]);
        assert(t.skip(1) =~= spec_insert(s.skip(1), k, st));
        assert(entries_sorted(s.skip(1))) by {
            assert(forall|a: int, b: int|
                0 <= a < b < s.len() - 1 ==> key_lt(
                    #[trigger] s.skip(1)[a].0,
                    #[trigger] s.skip(1)[b].0,
                ));
        }
        lemma_get_insert(s.skip(1), k, st, k2);
        assert(s[0].0 != k);
    }
}

/// Law: for a batch whose timestamps strictly increase and all lie within one
/// second of the first, a fresh aggregator emits no flush, and afterwards
/// each bucket holds exactly the number, the true maximum and the true sum of
/// that bucket's magnitudes — as long as no counter overflows.
pub proof fn lemma_single_window_statistics(s: Seq<RawPreadRecord>)
    requires
        timestamps_strictly_increase(s),
        within_one_second_of_first(s),
        s.len() <= u64::MAX,
        forall|k: AggregateKey| #[trigger] key_sum(s, k) <= u64::MAX,
    ensures
        run_flushes(fresh_view(), s) == Seq::<u64>::empty(),
        forall|k: AggregateKey| #[trigger]
            spec_get(run(fresh_view(), s).entries, k) == (if key_count(s, k) == 0 {
                None::<AggregateState>
            } else {
                Some(
                    AggregateState {
                        count: key_count(s, k) as u64,
                        max: key_max(s, k) as u64,
                        sum: key_sum(s, k) as u64,
                    },
                )
            }),
{
    let v0 = fresh_view();
    if s.len() == 0 {
        assert forall|k: AggregateKey| #[trigger]
            spec_get(run(v0, s).entries, k) == (if key_count(s, k) == 0 {
                None::<AggregateState>
            } else {
                Some(
                    AggregateState {
                        count: key_count(s, k) as u64,
                        max: key_max(s, k) as u64,
                        sum: key_sum(s, k) as u64,
                    },
                )
            }) by {
            assert(key_count(s, k) == 0);
            assert(spec_get(v0.entries, k) is None);
        }
    } else {
        let e = s[0];
        let k0 = key_of(e);
        assert(!spec_should_flush(v0.window_start, e.time));
        let v1 = step(v0, e);
        let b = bump_state(None, e.count);
        assert(spec_get(v0.entries, k0) is None);
        assert(v1.entries == spec_insert(Seq::<WindowEntry>::empty(), k0, b));
        assert(v1.entries == seq![(k0, b)]);
        assert(v1.window_start == Some(e.time));
        assert(entries_sorted(v1.entries));
        let tail = s.skip(1);
        assert forall|i: int| 0 <= i < tail.len() implies tail[i].time - v1.window_start.unwrap()
            <= WINDOW_NS by {
            assert(tail[i] == s[i + 1]);
            assert(s[i + 1].time - s[0].time <= WINDOW_NS);
        }
        assert forall|k: AggregateKey| #[trigger]
            spec_get(v1.entries, k) == (if k == k0 {
                Some(b)
            } else {
                None::<AggregateState>
            }) by {
            assert(v1.entries[0] == (k0, b));
            assert(v1.entries.len() == 1);
            if k != k0 {
                assert(v1.entries.skip(1) =~= Seq::<WindowEntry>::empty());
                assert(spec_get(Seq::<WindowEntry>::empty(), k) is None);
                assert(spec_get(v1.entries, k) == spec_get(v1.entries.skip(1), k));
            }
        }
        assert forall|k: AggregateKey|
            state_count(spec_get(v1.entries, k)) + #[trigger] key_count(tail, k)
            <= u64::MAX by {
            lemma_key_aggregates_bounds(tail, k);
            lemma_key_aggregates_bounds(s, k);
            if k == k0 {
                assert(key_count(s, k0) == 1 + key_count(tail, k0));
                assert(key_count(s, k0) <= s.len());
            }
        }
        assert forall|k: AggregateKey|
            state_sum(spec_get(v1.entries, k)) + #[trigger] key_sum(tail, k)
            <= u64::MAX by {
            lemma_key_aggregates_bounds(tail, k);
            if k == k0 {
                assert(key_sum(s, k0) == e.count + key_sum(tail, k0));
                assert(key_sum(s, k0) <= u64::MAX);
            } else {
                assert(key_sum(s, k) == key_sum(tail, k));
                assert(key_sum(s, k) <= u64::MAX);
            }
        }
        lemma_window_accumulate(v1, tail);
        assert(run(v0, s) == run(v1, tail));
        assert(run_flushes(v0, s) == run_flushes(v1, tail));
        assert forall|k: AggregateKey| #[trigger]
            spec_get(run(v0, s).entries, k) == (if key_count(s, k) == 0 {
                None::<AggregateState>
            } else {
                Some(
                    AggregateState {
                        count: key_count(s, k) as u64,
                        max: key_max(s, k) as u64,
                        sum: key_sum(s, k) as u64,
                    },
                )
            }) by {
            lemma_key_aggregates_bounds(tail, k);
            assert(spec_get(run(v1, tail).entries, k) == spec_merge(
                spec_get(v1.entries, k),
                key_count(tail, k),
                key_max(tail, k),
                key_sum(tail, k),
            ));
            if k == k0 {
                let c1 = key_count(tail, k0);
                let m1 = key_max(tail, k0);
                let su1 = key_sum(tail, k0);
                assert(key_count(s, k0) == 1 + c1);
                assert(key_max(s, k0) == (if e.count > m1 {
                    e.count as int
                } else {
                    m1
                }));
                assert(key_sum(s, k0) == e.count + su1);
                if c1 == 0 {
                    lemma_key_max_zero_when_absent(tail, k0);
                    lemma_key_sum_zero_when_absent(tail, k0);
                }
            } else {
                assert(key_count(s, k) == key_count(tail, k));
                assert(key_max(s, k) == key_max(tail, k));
                assert(key_sum(s, k) == key_sum(tail, k));
            }
        }
    }
}

} // verus!
