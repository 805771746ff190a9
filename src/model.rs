//! The mathematical model of the fair queue: flows as sequences, and the
//! transitions that enqueue, selection, service and the idle sweep make.

use vstd::prelude::*;
use crate::fair_queue::{Data, HasLen, Sample};

verus! {

/// Nanoseconds in one second: the time unit at which decay starts to bite.
pub const NANOS_PER_SEC: u64 = 1_000_000_000;

/// Nanoseconds in one millisecond: the unit in which latency is recorded.
pub const NANOS_PER_MILLI: u64 = 1_000_000;

/// Deficits are kept in billionths of a byte, so that decay does not round
/// them to whole bytes.
pub const UNITS_PER_BYTE: u128 = 1_000_000_000;

/// One flow as the model sees it: its key, the items waiting in arrival
/// order, its deficit entry and its retained latency samples.
pub struct FlowView<T: HasLen> {
    pub key: Seq<char>,
    pub queue: Seq<Data<T>>,
    /// In billionths of a byte.
    pub deficit: u128,
    pub last_update: u64,
    pub samples: Seq<Sample>,
}

/// The whole scheduler as the model sees it.
pub struct FairQueueView<T: HasLen> {
    /// The flows in the order their keys first arrived; scans go in this order.
    pub flows: Seq<FlowView<T>>,
    pub stats_interval: u64,
    pub idle_duration: u64,
    /// When the idle sweep last ran.
    pub idle_run: Option<u64>,
}

/// Time from `since` to `now`, zero when `now` is not later.
pub open spec fn elapsed(now: u64, since: u64) -> u64 {
    if now > since {
        (now - since) as u64
    } else {
        0
    }
}

/// `value` scaled by `1 / max(elapsed, 1 s)`, rounded down to a whole
/// billionth of a byte.
pub open spec fn decay(value: u128, elapsed: u64) -> u128 {
    let e = if elapsed > NANOS_PER_SEC {
        elapsed
    } else {
        NANOS_PER_SEC
    };
    (value * NANOS_PER_SEC / (e as int)) as u128
}

/// `a + b`, held at `u128::MAX`.
pub open spec fn add_capped(a: u128, b: nat) -> u128 {
    if a + b > u128::MAX {
        u128::MAX
    } else {
        (a + b) as u128
    }
}

/// Start of the retention window that ends at `now`.
pub open spec fn window_start(now: u64, interval: u64) -> u64 {
    if now > interval {
        (now - interval) as u64
    } else {
        0
    }
}

/// The samples recorded at or after `start`, in order.
pub open spec fn window(samples: Seq<Sample>, start: u64) -> Seq<Sample>
    decreases samples.len(),
{
    if samples.len() == 0 {
        samples
    } else {
        let rest = window(samples.drop_last(), start);
        if samples.last().recorded_at >= start {
            rest.push(samples.last())
        } else {
            rest
        }
    }
}

pub open spec fn total_items<T: HasLen>(flows: Seq<FlowView<T>>) -> nat
    decreases flows.len(),
{
    if flows.len() == 0 {
        0
    } else {
        total_items(flows.drop_last()) + flows.last().queue.len()
    }
}

/// How many flows hold a latency history.
pub open spec fn latency_entries<T: HasLen>(flows: Seq<FlowView<T>>) -> nat
    decreases flows.len(),
{
    if flows.len() == 0 {
        0
    } else {
        latency_entries(flows.drop_last()) + if flows.last().samples.len() > 0 {
            1nat
        } else {
            0nat
        }
    }
}

/// Index of the flow with `key`, or -1 when there is none.
pub open spec fn find_flow<T: HasLen>(flows: Seq<FlowView<T>>, key: Seq<char>) -> int
    decreases flows.len(),
{
    if flows.len() == 0 {
        -1
    } else if flows.last().key == key {
        flows.len() - 1
    } else {
        find_flow(flows.drop_last(), key)
    }
}

/// The items waiting under `key`, oldest first.
pub open spec fn queue_of<T: HasLen>(flows: Seq<FlowView<T>>, key: Seq<char>) -> Seq<Data<T>> {
    let i = find_flow(flows, key);
    if i >= 0 {
        flows[i].queue
    } else {
        Seq::empty()
    }
}

pub open spec fn keys_unique<T: HasLen>(flows: Seq<FlowView<T>>) -> bool {
    forall|i: int, j: int|
        0 <= i < flows.len() && 0 <= j < flows.len() && i != j ==> flows[i].key != flows[j].key
}

impl<T: HasLen> FairQueueView<T> {
    /// Keys are unique, every item waits under its own key, and a flow
    /// whose queue is empty has been served at least once, so it holds a
    /// latency history.
    pub open spec fn well_formed(self) -> bool {
        &&& keys_unique(self.flows)
        &&& forall|i: int, j: int|
            0 <= i < self.flows.len() && 0 <= j < self.flows[i].queue.len()
                ==> #[trigger] self.flows[i].queue[j].id@ == self.flows[i].key
        &&& forall|i: int|
            0 <= i < self.flows.len() && self.flows[i].queue.len() == 0
                ==> #[trigger] self.flows[i].samples.len() > 0
    }
}

/// The flow that a new key starts: one item, a zero deficit stamped `now`.
pub open spec fn new_flow<T: HasLen>(packet: Data<T>, now: u64) -> FlowView<T> {
    FlowView {
        key: packet.id@,
        queue: seq![packet],
        deficit: 0,
        last_update: now,
        samples: Seq::empty(),
    }
}

/// The flows after `packet` arrives at `now`.
pub open spec fn enqueue_flows<T: HasLen>(
    flows: Seq<FlowView<T>>,
    packet: Data<T>,
    now: u64,
) -> Seq<FlowView<T>> {
    let i = find_flow(flows, packet.id@);
    if i >= 0 {
        flows.update(i, FlowView { queue: flows[i].queue.push(packet), ..flows[i] })
    } else {
        flows.push(new_flow(packet, now))
    }
}

pub open spec fn enqueue_spec<T: HasLen>(
    q: FairQueueView<T>,
    packet: Data<T>,
    now: u64,
) -> FairQueueView<T> {
    FairQueueView { flows: enqueue_flows(q.flows, packet, now), ..q }
}

} // verus!

verus! {

pub proof fn lemma_find_flow<T: HasLen>(flows: Seq<FlowView<T>>, key: Seq<char>)
    ensures
        -1 <= find_flow(flows, key) < flows.len(),
        find_flow(flows, key) >= 0 ==> flows[find_flow(flows, key)].key == key,
        find_flow(flows, key) == -1 <==> forall|j: int|
            0 <= j < flows.len() ==> flows[j].key != key,
        keys_unique(flows) ==> forall|j: int|
            0 <= j < flows.len() && flows[j].key == key ==> find_flow(flows, key) == j,
    decreases flows.len(),
{
    if flows.len() > 0 {
        let rest = flows.drop_last();
        lemma_find_flow(rest, key);
        assert(forall|j: int| 0 <= j < rest.len() ==> rest[j] == flows[j]);
        if flows.last().key != key && find_flow(rest, key) == -1 {
            assert forall|j: int| 0 <= j < flows.len() implies flows[j].key != key by {
                if j < rest.len() {
                    assert(rest[j] == flows[j]);
                }
            }
        }
        if keys_unique(flows) {
            assert(keys_unique(rest));
        }
    }
}

/// Adding up queue lengths after one queue changes length.
pub proof fn lemma_total_update<T: HasLen>(flows: Seq<FlowView<T>>, i: int, f: FlowView<T>)
    requires
        0 <= i < flows.len(),
    ensures
        total_items(flows.update(i, f)) == total_items(flows) - flows[i].queue.len()
            + f.queue.len(),
    decreases flows.len(),
{
    if i < flows.len() - 1 {
        lemma_total_update(flows.drop_last(), i, f);
        assert(flows.update(i, f).drop_last() =~= flows.drop_last().update(i, f));
    } else {
        assert(flows.update(i, f).drop_last() =~= flows.drop_last());
    }
}

pub proof fn lemma_enqueue_total<T: HasLen>(flows: Seq<FlowView<T>>, packet: Data<T>, now: u64)
    ensures
        total_items(enqueue_flows(flows, packet, now)) == total_items(flows) + 1,
{
    lemma_find_flow(flows, packet.id@);
    let i = find_flow(flows, packet.id@);
    if i >= 0 {
        lemma_total_update(flows, i, FlowView { queue: flows[i].queue.push(packet), ..flows[i] });
    } else {
        assert(flows.push(new_flow(packet, now)).drop_last() =~= flows);
    }
}

pub proof fn lemma_enqueue_well_formed<T: HasLen>(q: FairQueueView<T>, packet: Data<T>, now: u64)
    requires
        q.well_formed(),
    ensures
        enqueue_spec(q, packet, now).well_formed(),
{
    lemma_find_flow(q.flows, packet.id@);
    let r = enqueue_spec(q, packet, now);
    let i = find_flow(q.flows, packet.id@);
    assert forall|j: int| 0 <= j < r.flows.len() && r.flows[j].queue.len() == 0 implies
        #[trigger] r.flows[j].samples.len() > 0 by {
        assert(j != i && j < q.flows.len());
        assert(r.flows[j] == q.flows[j]);
    }
    assert forall|a: int, b: int| 0 <= a < r.flows.len() && 0 <= b < r.flows[a].queue.len() implies
        #[trigger] r.flows[a].queue[b].id@ == r.flows[a].key by {
        if a < q.flows.len() && a != i {
            assert(r.flows[a] == q.flows[a]);
        } else if a == i {
            if b < q.flows[a].queue.len() {
                assert(r.flows[a].queue[b] == q.flows[a].queue[b]);
            }
        }
    }
}

} // verus!

verus! {

/// A flow as the selection scan leaves it at `now`: a waiting flow has its
/// deficit decayed by the time since its last update; an empty one is untouched.
pub open spec fn aged<T: HasLen>(f: FlowView<T>, now: u64) -> FlowView<T> {
    if f.queue.len() > 0 {
        FlowView { deficit: decay(f.deficit, elapsed(now, f.last_update)), ..f }
    } else {
        f
    }
}

pub open spec fn age_all<T: HasLen>(flows: Seq<FlowView<T>>, now: u64) -> Seq<FlowView<T>> {
    flows.map_values(|f: FlowView<T>| aged(f, now))
}

/// The flow that a scan in order picks: the first non-empty flow whose
/// deficit is lowest, or -1 when every queue is empty.
pub open spec fn pick<T: HasLen>(flows: Seq<FlowView<T>>) -> int
    decreases flows.len(),
{
    if flows.len() == 0 {
        -1
    } else {
        let p = pick(flows.drop_last());
        if flows.last().queue.len() == 0 {
            p
        } else if p == -1 || flows.last().deficit < flows[p].deficit {
            flows.len() - 1
        } else {
            p
        }
    }
}

/// The item handed out at `now`: the head of its flow, stamped.
pub open spec fn served_item<T: HasLen>(item: Data<T>, now: u64) -> Data<T> {
    Data { dequeue_time: Some(now), ..item }
}

/// What serving `item` at `now` records: its wait in whole milliseconds,
/// its size, and the time of service.
pub open spec fn latency_sample<T: HasLen>(item: Data<T>, now: u64) -> Sample {
    Sample {
        latency_ms: (elapsed(now, item.timestamp) / NANOS_PER_MILLI) as u64,
        payload_len: item.data.byte_len() as usize,
        recorded_at: now,
    }
}

/// A flow after its head item is served at `now`: the deficit decays by the
/// item's own age and grows by its size, the update time is set back to the
/// item's arrival, and the new sample joins the pruned window.
pub open spec fn serve_flow<T: HasLen>(
    f: FlowView<T>,
    now: u64,
    stats_interval: u64,
) -> FlowView<T> {
    let item = f.queue[0];
    FlowView {
        key: f.key,
        queue: f.queue.drop_first(),
        deficit: add_capped(
            decay(f.deficit, elapsed(now, item.timestamp)),
            item.data.byte_len() * (UNITS_PER_BYTE as nat),
        ),
        last_update: item.timestamp,
        samples: window(
            f.samples.push(latency_sample(item, now)),
            window_start(now, stats_interval),
        ),
    }
}

/// An empty flow whose latest sample is older than `max_idle` at `now`.
pub open spec fn is_idle<T: HasLen>(f: FlowView<T>, now: u64, max_idle: u64) -> bool {
    &&& f.queue.len() == 0
    &&& f.samples.len() > 0
    &&& elapsed(now, f.samples.last().recorded_at) > max_idle
}

/// The flows that are not idle, in order.
pub open spec fn reap<T: HasLen>(
    flows: Seq<FlowView<T>>,
    now: u64,
    max_idle: u64,
) -> Seq<FlowView<T>>
    decreases flows.len(),
{
    if flows.len() == 0 {
        flows
    } else {
        let rest = reap(flows.drop_last(), now, max_idle);
        if is_idle(flows.last(), now, max_idle) {
            rest
        } else {
            rest.push(flows.last())
        }
    }
}

pub open spec fn remove_idle_spec<T: HasLen>(
    q: FairQueueView<T>,
    max_idle: u64,
    now: u64,
) -> FairQueueView<T> {
    FairQueueView { flows: reap(q.flows, now, max_idle), ..q }
}

/// Whether a dequeue at `now` runs the idle sweep.
pub open spec fn sweep_due(idle_run: Option<u64>, now: u64, idle_duration: u64) -> bool {
    match idle_run {
        None => true,
        Some(t) => elapsed(now, t) > idle_duration,
    }
}

pub open spec fn sweep_spec<T: HasLen>(q: FairQueueView<T>, now: u64) -> FairQueueView<T> {
    if sweep_due(q.idle_run, now, q.idle_duration) {
        FairQueueView { idle_run: Some(now), ..remove_idle_spec(q, q.idle_duration, now) }
    } else {
        q
    }
}

/// What a dequeue at `now` returns, and the scheduler it leaves.
pub open spec fn dequeue_spec<T: HasLen>(q: FairQueueView<T>, now: u64) -> (
    Option<Data<T>>,
    FairQueueView<T>,
) {
    let flows = age_all(q.flows, now);
    let i = pick(flows);
    if i >= 0 {
        let served = FairQueueView {
            flows: flows.update(i, serve_flow(flows[i], now, q.stats_interval)),
            ..q
        };
        (Some(served_item(flows[i].queue[0], now)), sweep_spec(served, now))
    } else {
        (None, sweep_spec(FairQueueView { flows, ..q }, now))
    }
}

pub proof fn lemma_pick<T: HasLen>(flows: Seq<FlowView<T>>)
    ensures
        -1 <= pick(flows) < flows.len(),
        pick(flows) >= 0 ==> flows[pick(flows)].queue.len() > 0,
        pick(flows) == -1 <==> forall|j: int| 0 <= j < flows.len() ==> flows[j].queue.len() == 0,
    decreases flows.len(),
{
    if flows.len() > 0 {
        let rest = flows.drop_last();
        lemma_pick(rest);
        assert(forall|j: int| 0 <= j < rest.len() ==> rest[j] == flows[j]);
        if pick(flows) == -1 {
            assert forall|j: int| 0 <= j < flows.len() implies flows[j].queue.len() == 0 by {
                if j < rest.len() {
                    assert(rest[j] == flows[j]);
                }
            }
        }
    }
}

/// Totals agree when queue lengths agree flow by flow.
pub proof fn lemma_same_queue_lens<T: HasLen>(a: Seq<FlowView<T>>, b: Seq<FlowView<T>>)
    requires
        a.len() == b.len(),
        forall|i: int| 0 <= i < a.len() ==> a[i].queue.len() == b[i].queue.len(),
    ensures
        total_items(a) == total_items(b),
    decreases a.len(),
{
    if a.len() > 0 {
        lemma_same_queue_lens(a.drop_last(), b.drop_last());
    }
}

/// Aging touches deficits alone.
pub proof fn lemma_age_all<T: HasLen>(flows: Seq<FlowView<T>>, now: u64)
    ensures
        age_all(flows, now).len() == flows.len(),
        total_items(age_all(flows, now)) == total_items(flows),
        forall|i: int|
            0 <= i < flows.len() ==> (#[trigger] age_all(flows, now)[i]).key == flows[i].key
                && age_all(flows, now)[i].queue == flows[i].queue
                && age_all(flows, now)[i].samples == flows[i].samples
                && age_all(flows, now)[i].last_update == flows[i].last_update,
{
    lemma_same_queue_lens(age_all(flows, now), flows);
}

pub proof fn lemma_window_push(samples: Seq<Sample>, s: Sample, start: u64)
    requires
        s.recorded_at >= start,
    ensures
        window(samples.push(s), start) == window(samples, start).push(s),
{
    assert(samples.push(s).drop_last() =~= samples);
}

pub proof fn lemma_window_step(samples: Seq<Sample>, i: int, start: u64)
    requires
        0 <= i < samples.len(),
    ensures
        window(samples.take(i + 1), start) == if samples[i].recorded_at >= start {
            window(samples.take(i), start).push(samples[i])
        } else {
            window(samples.take(i), start)
        },
{
    assert(samples.take(i + 1).drop_last() =~= samples.take(i));
}

/// The idle sweep keeps exactly the flows that are not idle, in order.
pub proof fn lemma_reap_members<T: HasLen>(flows: Seq<FlowView<T>>, now: u64, max_idle: u64)
    ensures
        forall|x: FlowView<T>|
            #[trigger] reap(flows, now, max_idle).contains(x) <==> flows.contains(x) && !is_idle(
                x,
                now,
                max_idle,
            ),
        reap(flows, now, max_idle).len() <= flows.len(),
    decreases flows.len(),
{
    if flows.len() > 0 {
        let rest = flows.drop_last();
        lemma_reap_members(rest, now, max_idle);
        assert(flows =~= rest.push(flows.last()));
        let r = reap(flows, now, max_idle);
        let rr = reap(rest, now, max_idle);
        assert forall|x: FlowView<T>| #[trigger] r.contains(x) <==> flows.contains(x) && !is_idle(
            x,
            now,
            max_idle,
        ) by {
            if r.contains(x) {
                let k = choose|k: int| 0 <= k < r.len() && r[k] == x;
                if k < rr.len() {
                    assert(rr.contains(x));
                    let m = choose|m: int| 0 <= m < rest.len() && rest[m] == x;
                    assert(flows[m] == x);
                } else {
                    assert(flows[flows.len() - 1] == x);
                }
            }
            if flows.contains(x) && !is_idle(x, now, max_idle) {
                let m = choose|m: int| 0 <= m < flows.len() && flows[m] == x;
                if m < rest.len() {
                    assert(rest[m] == x);
                    assert(rr.contains(x));
                    let k = choose|k: int| 0 <= k < rr.len() && rr[k] == x;
                    assert(r[k] == x);
                } else {
                    assert(r[r.len() - 1] == x);
                }
            }
        }
    }
}

/// The idle sweep removes only empty flows, so no item is lost, and it
/// keeps the scheduler well formed.
pub proof fn lemma_reap_keeps<T: HasLen>(flows: Seq<FlowView<T>>, now: u64, max_idle: u64)
    requires
        keys_unique(flows),
    ensures
        total_items(reap(flows, now, max_idle)) == total_items(flows),
        keys_unique(reap(flows, now, max_idle)),
    decreases flows.len(),
{
    if flows.len() > 0 {
        let rest = flows.drop_last();
        assert(keys_unique(rest));
        lemma_reap_keeps(rest, now, max_idle);
        lemma_reap_members(rest, now, max_idle);
        let rr = reap(rest, now, max_idle);
        if !is_idle(flows.last(), now, max_idle) {
            let r = rr.push(flows.last());
            assert(r.drop_last() =~= rr);
            assert forall|i: int, j: int|
                0 <= i < r.len() && 0 <= j < r.len() && i != j implies r[i].key != r[j].key by {
                if i < rr.len() && j < rr.len() {
                } else if i < rr.len() {
                    assert(rr.contains(rr[i]));
                    let m = choose|m: int| 0 <= m < rest.len() && rest[m] == rr[i];
                    assert(flows[m] == rr[i]);
                } else {
                    assert(rr.contains(rr[j]));
                    let m = choose|m: int| 0 <= m < rest.len() && rest[m] == rr[j];
                    assert(flows[m] == rr[j]);
                }
            }
        }
    }
}

/// The idle sweep keeps the model well formed and loses no item.
pub proof fn lemma_remove_idle_keeps<T: HasLen>(q: FairQueueView<T>, max_idle: u64, now: u64)
    requires
        q.well_formed(),
    ensures
        remove_idle_spec(q, max_idle, now).well_formed(),
        total_items(remove_idle_spec(q, max_idle, now).flows) == total_items(q.flows),
{
    lemma_reap_keeps(q.flows, now, max_idle);
    lemma_reap_members(q.flows, now, max_idle);
    let r = reap(q.flows, now, max_idle);
    assert forall|i: int| 0 <= i < r.len() && r[i].queue.len() == 0 implies
        #[trigger] r[i].samples.len()
        > 0 by {
        assert(r.contains(r[i]));
        let m = choose|m: int| 0 <= m < q.flows.len() && q.flows[m] == r[i];
    }
    assert forall|a: int, b: int| 0 <= a < r.len() && 0 <= b < r[a].queue.len() implies
        #[trigger] r[a].queue[b].id@ == r[a].key by {
        assert(r.contains(r[a]));
        let m = choose|m: int| 0 <= m < q.flows.len() && q.flows[m] == r[a];
        assert(q.flows[m].queue[b].id@ == q.flows[m].key);
    }
}

/// Serving the picked flow takes one item out and keeps the model well formed.
pub proof fn lemma_serve_keeps<T: HasLen>(q: FairQueueView<T>, now: u64)
    requires
        q.well_formed(),
        pick(age_all(q.flows, now)) >= 0,
    ensures
        ({
            let flows = age_all(q.flows, now);
            let i = pick(flows);
            let served = FairQueueView {
                flows: flows.update(i, serve_flow(flows[i], now, q.stats_interval)),
                ..q
            };
            &&& served.well_formed()
            &&& total_items(served.flows) + 1 == total_items(q.flows)
        }),
{
    let flows = age_all(q.flows, now);
    lemma_age_all(q.flows, now);
    lemma_pick(flows);
    let i = pick(flows);
    let f = serve_flow(flows[i], now, q.stats_interval);
    lemma_total_update(flows, i, f);
    let item = flows[i].queue[0];
    let start = window_start(now, q.stats_interval);
    lemma_window_push(flows[i].samples, latency_sample(item, now), start);
    let u = flows.update(i, f);
    assert forall|a: int, b: int| 0 <= a < u.len() && 0 <= b < u.len() && a != b implies u[a].key
        != u[b].key by {
        assert(q.flows[a].key != q.flows[b].key);
    }
    assert forall|j: int| 0 <= j < u.len() && u[j].queue.len() == 0 implies
        #[trigger] u[j].samples.len()
        > 0 by {
        if j != i {
            assert(q.flows[j].queue.len() == 0);
        }
    }
    assert forall|a: int, b: int| 0 <= a < u.len() && 0 <= b < u[a].queue.len() implies
        #[trigger] u[a].queue[b].id@ == u[a].key by {
        if a == i {
            assert(u[a].queue[b] == q.flows[a].queue[b + 1]);
        } else {
            assert(u[a].queue[b] == q.flows[a].queue[b]);
        }
    }
}

pub open spec fn sum_latency(samples: Seq<Sample>) -> nat
    decreases samples.len(),
{
    if samples.len() == 0 {
        0
    } else {
        sum_latency(samples.drop_last()) + samples.last().latency_ms as nat
    }
}

pub open spec fn sum_bytes(samples: Seq<Sample>) -> nat
    decreases samples.len(),
{
    if samples.len() == 0 {
        0
    } else {
        sum_bytes(samples.drop_last()) + samples.last().payload_len as nat
    }
}

/// For each flow, in order, with samples inside the window that starts at
/// `start`: its key, the latency total in milliseconds, the bytes total and
/// the number of those samples.
pub open spec fn latency_report<T: HasLen>(flows: Seq<FlowView<T>>, start: u64) -> Seq<
    (Seq<char>, nat, nat, nat),
>
    decreases flows.len(),
{
    if flows.len() == 0 {
        Seq::empty()
    } else {
        let rest = latency_report(flows.drop_last(), start);
        let w = window(flows.last().samples, start);
        if w.len() > 0 {
            rest.push((flows.last().key, sum_latency(w), sum_bytes(w), w.len()))
        } else {
            rest
        }
    }
}

} // verus!
