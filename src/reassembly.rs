//! Ordered reassembly of segments that arrive out of order from worker lanes.
//!
//! Segment `i` of a stream of `total` segments is handled by lane `i % lanes`;
//! each lane hands its decrypted segments, or a failure marker, to a single
//! consumer. The consumer writes every segment exactly once and strictly in
//! index order, keeping early arrivals in a buffer until they become writable.
use std::collections::BTreeMap;
use vstd::prelude::*;

verus! {

broadcast use vstd::laws_cmp::group_laws_cmp;

/// What a worker lane hands to the consumer.
pub enum LaneMessage {
    /// The decrypted payload of the segment with this index.
    Segment { index: u64, bytes: Vec<u8> },
    /// The lane stopped on a fatal error.
    Failed,
}

/// The mathematical content of a [`LaneMessage`].
pub enum LaneEvent {
    Segment(u64, Seq<u8>),
    Failed,
}

impl View for LaneMessage {
    type V = LaneEvent;

    open spec fn view(&self) -> LaneEvent {
        match self {
            LaneMessage::Segment { index, bytes } => LaneEvent::Segment(*index, bytes@),
            LaneMessage::Failed => LaneEvent::Failed,
        }
    }
}

/// The consumer's state: the next index to write, the buffered early
/// arrivals, and whether a lane has failed.
pub struct ReassemblyState {
    pub total: u64,
    pub next: u64,
    pub pending: Map<u64, Seq<u8>>,
    pub failed: bool,
}

/// Buffered entries always lie strictly between the cursor and the end.
pub open spec fn valid_state(s: ReassemblyState) -> bool {
    &&& s.next <= s.total
    &&& forall|k: u64| #[trigger] s.pending.contains_key(k) ==> s.next < k < s.total
}

pub open spec fn initial_state(total: u64) -> ReassemblyState {
    ReassemblyState { total, next: 0, pending: Map::empty(), failed: false }
}

/// Writes the buffered entries that continue the stream at `next`:
/// the payloads written, the new cursor and what stays buffered.
pub open spec fn drain(total: u64, next: u64, pending: Map<u64, Seq<u8>>) -> (Seq<Seq<u8>>, u64, Map<
    u64,
    Seq<u8>,
>)
    decreases total - next,
{
    if next < total && pending.contains_key(next) {
        let r = drain(total, (next + 1) as u64, pending.remove(next));
        (seq![pending[next]] + r.0, r.1, r.2)
    } else {
        (Seq::empty(), next, pending)
    }
}

/// One consumer step: the new state and the payloads written to the sink,
/// in order, each whole.
/// After a failure nothing more is written; an index that is out of range,
/// already written or already buffered is ignored.
pub open spec fn step(s: ReassemblyState, e: LaneEvent) -> (ReassemblyState, Seq<Seq<u8>>) {
    if s.failed {
        (s, Seq::empty())
    } else {
        match e {
            LaneEvent::Failed => (ReassemblyState { failed: true, ..s }, Seq::empty()),
            LaneEvent::Segment(i, b) => {
                if i == s.next && i < s.total {
                    let d = drain(s.total, (i + 1) as u64, s.pending);
                    (ReassemblyState { next: d.1, pending: d.2, ..s }, seq![b] + d.0)
                } else if s.next < i < s.total && !s.pending.contains_key(i) {
                    (ReassemblyState { pending: s.pending.insert(i, b), ..s }, Seq::empty())
                } else {
                    (s, Seq::empty())
                }
            },
        }
    }
}

/// The consumer run over a sequence of events: final state and all payloads
/// written, in order.
pub open spec fn run(s: ReassemblyState, events: Seq<LaneEvent>) -> (ReassemblyState, Seq<
    Seq<u8>,
>)
    decreases events.len(),
{
    if events.len() == 0 {
        (s, Seq::empty())
    } else {
        let r = run(s, events.drop_last());
        let t = step(r.0, events.last());
        (t.0, r.1 + t.1)
    }
}

/// The indices that never arrived.
pub open spec fn missing_set(s: ReassemblyState) -> Set<u64> {
    Set::new(|i: u64| s.next <= i < s.total && !s.pending.contains_key(i))
}

/// Whether the stream ends complete: no lane failed and every index was written.
pub open spec fn completes(s: ReassemblyState) -> bool {
    !s.failed && s.next == s.total
}

/// `order` lists each index below `n` exactly once.
pub open spec fn is_index_permutation(order: Seq<u64>, n: nat) -> bool {
    &&& order.len() == n
    &&& order.no_duplicates()
    &&& forall|k: int| 0 <= k < n ==> order[k] < n
    &&& forall|i: u64| i < n ==> order.contains(i)
}

/// The segments `payloads` arriving in the order `order`.
pub open spec fn arrivals(payloads: Seq<Seq<u8>>, order: Seq<u64>) -> Seq<LaneEvent> {
    order.map_values(|i: u64| LaneEvent::Segment(i, payloads[i as int]))
}

/// Draining from `m` writes the run of delivered payloads that starts at `m`.
proof fn lemma_drain_delivers(
    payloads: Seq<Seq<u8>>,
    delivered: Set<u64>,
    m: u64,
    pending: Map<u64, Seq<u8>>,
)
    requires
        payloads.len() <= u64::MAX,
        m <= payloads.len(),
        forall|i: u64| #[trigger]
            pending.contains_key(i) <==> (delivered.contains(i) && m <= i < payloads.len()),
        forall|i: u64| #[trigger] pending.contains_key(i) ==> pending[i] == payloads[i as int],
    ensures
        ({
            let r = drain(payloads.len() as u64, m, pending);
            &&& m <= r.1 <= payloads.len()
            &&& forall|i: u64| m <= i < r.1 ==> delivered.contains(i)
            &&& r.1 < payloads.len() ==> !delivered.contains(r.1)
            &&& r.0 == payloads.subrange(m as int, r.1 as int)
            &&& forall|i: u64| #[trigger]
                r.2.contains_key(i) <==> (delivered.contains(i) && r.1 < i < payloads.len())
            &&& forall|i: u64| #[trigger] r.2.contains_key(i) ==> r.2[i] == payloads[i as int]
        }),
    decreases payloads.len() - m,
{
    let total = payloads.len() as u64;
    if m < total && pending.contains_key(m) {
        let rest = pending.remove(m);
        lemma_drain_delivers(payloads, delivered, (m + 1) as u64, rest);
        let r = drain(total, (m + 1) as u64, rest);
        assert(seq![payloads[m as int]] + payloads.subrange(m + 1, r.1 as int) =~= payloads.subrange(
            m as int,
            r.1 as int,
        ));
        assert forall|i: u64| m <= i < r.1 implies delivered.contains(i) by {
            if i == m {
                assert(pending.contains_key(m));
            }
        }
    } else {
        assert(payloads.subrange(m as int, m as int) =~= Seq::<Seq<u8>>::empty());
    }
}

/// The state of the consumer after the first `k` arrivals of a permutation.
spec fn prefix_invariant(
    payloads: Seq<Seq<u8>>,
    order: Seq<u64>,
    k: int,
    s: ReassemblyState,
    out: Seq<Seq<u8>>,
) -> bool {
    let d = order.subrange(0, k).to_set();
    let n = payloads.len();
    &&& s.total == n
    &&& !s.failed
    &&& s.next <= n
    &&& forall|i: u64| i < s.next ==> d.contains(i)
    &&& s.next < n ==> !d.contains(s.next)
    &&& forall|i: u64| #[trigger] s.pending.contains_key(i) <==> (d.contains(i) && s.next < i < n)
    &&& forall|i: u64| #[trigger] s.pending.contains_key(i) ==> s.pending[i] == payloads[i as int]
    &&& out == payloads.subrange(0, s.next as int)
}

proof fn lemma_prefix(payloads: Seq<Seq<u8>>, order: Seq<u64>, k: int)
    requires
        payloads.len() <= u64::MAX,
        is_index_permutation(order, payloads.len()),
        0 <= k <= order.len(),
    ensures
        ({
            let r = run(initial_state(payloads.len() as u64), arrivals(payloads, order).subrange(0, k));
            prefix_invariant(payloads, order, k, r.0, r.1)
        }),
    decreases k,
{
    let n = payloads.len();
    let ev = arrivals(payloads, order);
    let s0 = initial_state(n as u64);
    if k == 0 {
        assert(ev.subrange(0, 0) =~= Seq::<LaneEvent>::empty());
        assert(order.subrange(0, 0).to_set() =~= Set::<u64>::empty());
        assert(payloads.subrange(0, 0) =~= Seq::<Seq<u8>>::empty());
    } else {
        lemma_prefix(payloads, order, k - 1);
        assert(ev.subrange(0, k).drop_last() =~= ev.subrange(0, k - 1));
        let r = run(s0, ev.subrange(0, k - 1));
        let s = r.0;
        let j = order[k - 1];
        assert(ev.subrange(0, k).last() == LaneEvent::Segment(j, payloads[j as int]));
        let dp = order.subrange(0, k - 1).to_set();
        let d = order.subrange(0, k).to_set();
        assert(d =~= dp.insert(j)) by {
            let a = order.subrange(0, k - 1);
            let b = order.subrange(0, k);
            assert(b =~= a.push(j));
            assert forall|x: u64| d.contains(x) <==> dp.insert(j).contains(x) by {
                if b.contains(x) {
                    let q = choose|q: int| 0 <= q < b.len() && #[trigger] b[q] == x;
                    if q < k - 1 {
                        assert(a[q] == x);
                    }
                }
                if a.contains(x) {
                    let q = choose|q: int| 0 <= q < a.len() && #[trigger] a[q] == x;
                    assert(b[q] == x);
                }
                if x == j {
                    assert(b[k - 1] == x);
                }
            }
        }
        assert(!dp.contains(j)) by {
            if dp.contains(j) {
                let q = choose|q: int| 0 <= q < k - 1 && #[trigger] order.subrange(0, k - 1)[q] == j;
                assert(order[q] == order[k - 1]);
            }
        }
        assert(j < n);
        let t = step(s, LaneEvent::Segment(j, payloads[j as int]));
        if j == s.next {
            lemma_drain_delivers(payloads, d, (j + 1) as u64, s.pending);
            let dr = drain(n as u64, (j + 1) as u64, s.pending);
            assert(payloads.subrange(0, j as int) + (seq![payloads[j as int]] + dr.0) =~= payloads.subrange(
                0,
                dr.1 as int,
            ));
            assert forall|i: u64| i < t.0.next implies d.contains(i) by {
                if i < j {
                    assert(dp.contains(i));
                }
            }
        } else {
            assert(s.next < j) by {
                if j < s.next {
                    assert(dp.contains(j));
                }
            }
            assert(s.next < n ==> !d.contains(s.next));
        }
    }
}

/// Whatever the order in which the segments of a stream arrive, the sink
/// receives each payload once and whole, in index order, so the bytes
/// written are the payloads concatenated in index order; and the stream
/// completes.
pub proof fn lemma_any_arrival_order_writes_index_order(payloads: Seq<Seq<u8>>, order: Seq<u64>)
    requires
        payloads.len() <= u64::MAX,
        is_index_permutation(order, payloads.len()),
    ensures
        ({
            let r = run(initial_state(payloads.len() as u64), arrivals(payloads, order));
            &&& r.1 == payloads
            &&& r.1.flatten() == payloads.flatten()
            &&& completes(r.0)
        }),
{
    let n = payloads.len();
    lemma_prefix(payloads, order, n as int);
    assert(arrivals(payloads, order).subrange(0, n as int) =~= arrivals(payloads, order));
    let r = run(initial_state(n as u64), arrivals(payloads, order));
    let d = order.subrange(0, n as int).to_set();
    assert(order.subrange(0, n as int) =~= order);
    if r.0.next < n {
        assert(order.contains(r.0.next));
    }
    assert(payloads.subrange(0, n as int) =~= payloads);
}

/// Every segment event carries its stream's payload.
pub open spec fn events_carry(payloads: Seq<Seq<u8>>, events: Seq<LaneEvent>) -> bool {
    forall|k: int|
        0 <= k < events.len() ==> match #[trigger] events[k] {
            LaneEvent::Segment(i, b) => i < payloads.len() ==> b == payloads[i as int],
            LaneEvent::Failed => true,
        }
}

/// The consumer's state holds buffered payloads of the stream.
spec fn carries(payloads: Seq<Seq<u8>>, s: ReassemblyState) -> bool {
    &&& s.total == payloads.len()
    &&& valid_state(s)
    &&& forall|i: u64| #[trigger] s.pending.contains_key(i) ==> s.pending[i] == payloads[i as int]
}

proof fn lemma_prefix_step(payloads: Seq<Seq<u8>>, s: ReassemblyState, e: LaneEvent)
    requires
        payloads.len() <= u64::MAX,
        carries(payloads, s),
        match e {
            LaneEvent::Segment(i, b) => i < payloads.len() ==> b == payloads[i as int],
            LaneEvent::Failed => true,
        },
    ensures
        carries(payloads, step(s, e).0),
        payloads.subrange(0, s.next as int) + step(s, e).1 == payloads.subrange(
            0,
            step(s, e).0.next as int,
        ),
{
    let t = step(s, e);
    if s.failed {
        assert(payloads.subrange(0, s.next as int) + t.1 =~= payloads.subrange(0, s.next as int));
    } else {
        match e {
            LaneEvent::Failed => {
                assert(payloads.subrange(0, s.next as int) + t.1 =~= payloads.subrange(
                    0,
                    s.next as int,
                ));
            },
            LaneEvent::Segment(i, b) => {
                if i == s.next && i < s.total {
                    let dom = s.pending.dom();
                    lemma_drain_delivers(payloads, dom, (i + 1) as u64, s.pending);
                    let d = drain(s.total, (i + 1) as u64, s.pending);
                    assert(payloads.subrange(0, s.next as int) + (seq![b] + d.0) =~= payloads.subrange(
                        0,
                        d.1 as int,
                    ));
                } else if s.next < i < s.total && !s.pending.contains_key(i) {
                    assert(payloads.subrange(0, s.next as int) + t.1 =~= payloads.subrange(
                        0,
                        s.next as int,
                    ));
                } else {
                    assert(payloads.subrange(0, s.next as int) + t.1 =~= payloads.subrange(
                        0,
                        s.next as int,
                    ));
                }
            },
        }
    }
}

/// Whatever arrives, in whatever order, with or without lane failures, what
/// the sink has received is always the stream's first payloads, each whole
/// and in index order, up to the consumer's cursor.
pub proof fn lemma_written_is_prefix(payloads: Seq<Seq<u8>>, events: Seq<LaneEvent>)
    requires
        payloads.len() <= u64::MAX,
        events_carry(payloads, events),
    ensures
        run(initial_state(payloads.len() as u64), events).1 == payloads.subrange(
            0,
            run(initial_state(payloads.len() as u64), events).0.next as int,
        ),
        valid_state(run(initial_state(payloads.len() as u64), events).0),
{
    lemma_prefix_carried(payloads, events);
}

proof fn lemma_prefix_carried(payloads: Seq<Seq<u8>>, events: Seq<LaneEvent>)
    requires
        payloads.len() <= u64::MAX,
        events_carry(payloads, events),
    ensures
        carries(payloads, run(initial_state(payloads.len() as u64), events).0),
        run(initial_state(payloads.len() as u64), events).1 == payloads.subrange(
            0,
            run(initial_state(payloads.len() as u64), events).0.next as int,
        ),
    decreases events.len(),
{
    let s0 = initial_state(payloads.len() as u64);
    if events.len() == 0 {
        assert(payloads.subrange(0, 0) =~= Seq::<Seq<u8>>::empty());
    } else {
        let prev = events.drop_last();
        assert forall|k: int| 0 <= k < prev.len() implies match #[trigger] prev[k] {
            LaneEvent::Segment(i, b) => i < payloads.len() ==> b == payloads[i as int],
            LaneEvent::Failed => true,
        } by {
            assert(prev[k] == events[k]);
        }
        lemma_prefix_carried(payloads, prev);
        let r = run(s0, prev);
        let last = events.last();
        assert(match last {
            LaneEvent::Segment(i, b) => i < payloads.len() ==> b == payloads[i as int],
            LaneEvent::Failed => true,
        }) by {
            assert(events[events.len() - 1] == last);
        }
        lemma_prefix_step(payloads, r.0, last);
    }
}

/// After a failure the state stays failed and nothing more is written.
proof fn lemma_failed_stays(s: ReassemblyState, events: Seq<LaneEvent>)
    requires
        s.failed,
    ensures
        run(s, events).0.failed,
        run(s, events).1 == Seq::<Seq<u8>>::empty(),
    decreases events.len(),
{
    if events.len() > 0 {
        lemma_failed_stays(s, events.drop_last());
    }
}

/// The run over `events` ends failed once any event is a lane failure.
proof fn lemma_failure_recorded(s: ReassemblyState, events: Seq<LaneEvent>)
    requires
        events.contains(LaneEvent::Failed),
    ensures
        run(s, events).0.failed,
    decreases events.len(),
{
    let k = choose|k: int| 0 <= k < events.len() && events[k] == LaneEvent::Failed;
    if k == events.len() - 1 {
    } else {
        assert(events.drop_last()[k] == LaneEvent::Failed);
        lemma_failure_recorded(s, events.drop_last());
    }
}

/// If any lane reports a failure, the stream never completes, whatever
/// else arrives before or after.
pub proof fn lemma_lane_failure_never_completes(total: u64, events: Seq<LaneEvent>)
    requires
        events.contains(LaneEvent::Failed),
    ensures
        !completes(run(initial_state(total), events).0),
{
    lemma_failure_recorded(initial_state(total), events);
}

/// Writes stop at the first lane failure: what is written over the whole
/// run is what was written before it.
pub proof fn lemma_nothing_written_after_failure(total: u64, events: Seq<LaneEvent>, k: int)
    requires
        0 <= k < events.len(),
        events[k] == LaneEvent::Failed,
    ensures
        run(initial_state(total), events).1 == run(initial_state(total), events.subrange(0, k)).1,
    decreases events.len(),
{
    if k == events.len() - 1 {
        assert(events.drop_last() =~= events.subrange(0, k));
    } else {
        assert(events.drop_last()[k] == LaneEvent::Failed);
        lemma_nothing_written_after_failure(total, events.drop_last(), k);
        assert(events.drop_last().subrange(0, k) =~= events.subrange(0, k));
        lemma_failure_recorded(initial_state(total), events.drop_last());
    }
}

/// Why a stream could not be reassembled.
pub enum ReassemblyError {
    /// A lane reported a fatal error; its own error is the one to report.
    LaneFailed,
    /// All lanes finished but these segments never arrived, in ascending order.
    Missing { indices: Vec<u64> },
}

pub open spec fn chunks_view(c: Seq<Vec<u8>>) -> Seq<Seq<u8>> {
    c.map_values(|v: Vec<u8>| v@)
}

/// The single consumer of one stream.
pub struct Reassembler {
    total: u64,
    next: u64,
    pending: BTreeMap<u64, Vec<u8>>,
    failed: bool,
}

impl View for Reassembler {
    type V = ReassemblyState;

    closed spec fn view(&self) -> ReassemblyState {
        ReassemblyState {
            total: self.total,
            next: self.next,
            pending: self.pending@.map_values(|v: Vec<u8>| v@),
            failed: self.failed,
        }
    }
}

impl Reassembler {
    /// A consumer for a stream of `total` segments.
    pub fn new(total: u64) -> (r: Reassembler)
        ensures
            r@ == initial_state(total),
            valid_state(r@),
    {
        let r = Reassembler { total, next: 0, pending: BTreeMap::new(), failed: false };
        assert(r@.pending =~= Map::<u64, Seq<u8>>::empty());
        r
    }

    /// The next index to be written.
    pub fn next_index(&self) -> (r: u64)
        ensures
            r == self@.next,
    {
        self.next
    }

    /// Takes one message from a lane and returns the chunks to write to the
    /// sink, in order.
    pub fn receive(&mut self, msg: LaneMessage) -> (out: Vec<Vec<u8>>)
        requires
            valid_state(old(self)@),
        ensures
            valid_state(final(self)@),
            final(self)@ == step(old(self)@, msg@).0,
            chunks_view(out@) == step(old(self)@, msg@).1,
    {
        let ghost s0 = self@;
        if self.failed {
            let out: Vec<Vec<u8>> = Vec::new();
            assert(chunks_view(out@) =~= Seq::<Seq<u8>>::empty());
            return out;
        }
        match msg {
            LaneMessage::Failed => {
                self.failed = true;
                assert(valid_state(self@)) by {
                    assert(self@.pending == s0.pending);
                }
                let out: Vec<Vec<u8>> = Vec::new();
                assert(chunks_view(out@) =~= Seq::<Seq<u8>>::empty());
                out
            },
            LaneMessage::Segment { index, bytes } => {
                let ghost b = bytes@;
                if index == self.next && index < self.total {
                    let mut out: Vec<Vec<u8>> = Vec::new();
                    out.push(bytes);
                    assert(chunks_view(out@) =~= seq![b]);
                    self.next = index + 1;
                    assert forall|k: u64| #[trigger] self@.pending.contains_key(k) implies self.next
                        <= k < self.total by {
                        assert(s0.pending.contains_key(k));
                    }
                    self.drain_into(&mut out);
                    out
                } else if self.next < index && index < self.total && !self.pending.contains_key(
                    &index,
                ) {
                    self.pending.insert(index, bytes);
                    assert(self@.pending =~= s0.pending.insert(index, b));
                    assert forall|k: u64| #[trigger] self@.pending.contains_key(k) implies self.next
                        < k < self.total by {
                        if k != index {
                            assert(s0.pending.contains_key(k));
                        }
                    }
                    let out: Vec<Vec<u8>> = Vec::new();
                    assert(chunks_view(out@) =~= Seq::<Seq<u8>>::empty());
                    out
                } else {
                    let out: Vec<Vec<u8>> = Vec::new();
                    assert(chunks_view(out@) =~= Seq::<Seq<u8>>::empty());
                    assert(valid_state(self@));
                    out
                }
            },
        }
    }

    /// Moves every buffered entry that now continues the stream into `out`.
    fn drain_into(&mut self, out: &mut Vec<Vec<u8>>)
        requires
            old(self).next <= old(self).total,
            forall|k: u64| #[trigger]
                old(self)@.pending.contains_key(k) ==> old(self).next <= k < old(self).total,
        ensures
            valid_state(final(self)@),
            final(self)@.total == old(self)@.total,
            final(self)@.failed == old(self)@.failed,
            ({
                let d = drain(old(self)@.total, old(self)@.next, old(self)@.pending);
                &&& final(self)@.next == d.1
                &&& final(self)@.pending == d.2
                &&& chunks_view(final(out)@) == chunks_view(old(out)@) + d.0
            }),
    {
        let ghost d0 = drain(self@.total, self@.next, self@.pending);
        let ghost o0 = chunks_view(out@);
        loop
            invariant
                self.next <= self.total,
                self.total == old(self).total,
                self.failed == old(self).failed,
                forall|k: u64| #[trigger] self@.pending.contains_key(k) ==> self.next <= k < self.total,
                ({
                    let d = drain(self@.total, self@.next, self@.pending);
                    &&& o0 + d0.0 == chunks_view(out@) + d.0
                    &&& d0.1 == d.1
                    &&& d0.2 == d.2
                }),
            ensures
                self.next >= self.total || !self@.pending.contains_key(self.next),
            decreases self.total - self.next,
        {
            if self.next >= self.total {
                break;
            }
            let ghost p = self@.pending;
            let ghost f = chunks_view(out@);
            let key = self.next;
            match self.pending.remove(&key) {
                Some(chunk) => {
                    let ghost c = chunk@;
                    out.push(chunk);
                    self.next = key + 1;
                    proof {
                        assert(self@.pending =~= p.remove(key));
                        assert(chunks_view(out@) =~= f.push(c));
                        let d = drain(self@.total, self@.next, self@.pending);
                        assert(drain(self@.total, key, p) == (seq![c] + d.0, d.1, d.2));
                        assert(f + (seq![c] + d.0) =~= f.push(c) + d.0);
                    }
                },
                None => {
                    assert(self@.pending =~= p);
                    break;
                },
            }
        }
        proof {
            let d = drain(self@.total, self@.next, self@.pending);
            assert(d.0 =~= Seq::<Seq<u8>>::empty());
            assert(chunks_view(out@) + d.0 =~= chunks_view(out@));
            assert forall|k: u64| #[trigger] self@.pending.contains_key(k) implies self.next < k
                < self.total by {
                if k == self.next {
                    assert(self.next < self.total);
                }
            }
        }
    }

    /// Called once every lane has ended: succeeds when no lane failed and
    /// every segment was written.
    pub fn finish(&self) -> (r: Result<(), ReassemblyError>)
        requires
            valid_state(self@),
        ensures
            self@.failed ==> r is Err && r->Err_0 is LaneFailed,
            r is Ok <==> completes(self@),
            !self@.failed && r is Err ==> (r->Err_0 matches ReassemblyError::Missing { indices } && ({
                &&& indices@.to_set() == missing_set(self@)
                &&& forall|a: int, b: int| 0 <= a < b < indices@.len() ==> indices@[a] < indices@[b]
                &&& indices@.len() > 0
            })),
    {
        if self.failed {
            return Err(ReassemblyError::LaneFailed);
        }
        if self.next == self.total {
            return Ok(());
        }
        let mut indices: Vec<u64> = Vec::new();
        let mut i = self.next;
        while i < self.total
            invariant
                valid_state(self@),
                self.next <= i <= self.total,
                forall|x: u64| #[trigger] indices@.contains(x) <==> (self.next <= x < i && !self@.pending.contains_key(x)),
                forall|a: int, b: int| 0 <= a < b < indices@.len() ==> indices@[a] < indices@[b],
                forall|a: int| 0 <= a < indices@.len() ==> indices@[a] < i,
            decreases self.total - i,
        {
            let ghost before = indices@;
            if !self.pending.contains_key(&i) {
                indices.push(i);
                assert(indices@ == before.push(i));
            }
            proof {
                assert forall|x: u64| #[trigger] indices@.contains(x) <==> (self.next <= x < i + 1
                    && !self@.pending.contains_key(x)) by {
                    if x == i && !self@.pending.contains_key(x) {
                        assert(indices@[indices@.len() - 1] == x);
                    }
                    if indices@.contains(x) && x != i {
                        let j = choose|j: int| 0 <= j < indices@.len() && indices@[j] == x;
                        assert(before[j] == x);
                    }
                    if before.contains(x) {
                        let j = choose|j: int| 0 <= j < before.len() && before[j] == x;
                        assert(indices@[j] == x);
                    }
                }
            }
            i = i + 1;
        }
        proof {
            assert(indices@.contains(self.next));
            assert(indices@.to_set() =~= missing_set(self@));
        }
        Err(ReassemblyError::Missing { indices })
    }
}

} // verus!
