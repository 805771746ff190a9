//! A fair-queueing scheduler: items are grouped by flow key, and each pull
//! serves the non-empty flow whose time-decayed deficit is lowest.

use vstd::prelude::*;
use std::collections::VecDeque;
use crate::clock::{clock_start, nanos_since};
use crate::model::{
    age_all, aged, decay, dequeue_spec, elapsed, enqueue_flows, enqueue_spec, find_flow,
    latency_entries, latency_report, latency_sample, lemma_age_all, lemma_enqueue_total,
    lemma_enqueue_well_formed, lemma_find_flow, lemma_pick, lemma_reap_members,
    lemma_remove_idle_keeps, lemma_serve_keeps, lemma_window_step, pick, reap, remove_idle_spec,
    serve_flow, served_item, sum_bytes, sum_latency, sweep_spec, total_items, window,
    window_start, FairQueueView, FlowView, NANOS_PER_MILLI, NANOS_PER_SEC, UNITS_PER_BYTE,
};

verus! {

/// A payload that knows its size in bytes.
pub trait HasLen {
    spec fn byte_len(&self) -> nat;

    fn len(&self) -> (r: usize)
        ensures
            r == self.byte_len(),
    ;
}

impl HasLen for Vec<u8> {
    open spec fn byte_len(&self) -> nat {
        self@.len()
    }

    fn len(&self) -> (r: usize) {
        Vec::len(self)
    }
}

/// An item queued under the flow key `id`. Times are nanoseconds on the
/// queue's clock (see [`FairQueue::now`]).
#[derive(Clone, Debug)]
pub struct Data<T: HasLen> {
    pub id: String,
    pub data: T,
    pub timestamp: u64,
    pub dequeue_time: Option<u64>,
}

/// One latency record of a flow: how long an item waited, its size, and
/// when it was served.
#[derive(Clone, Copy, Debug, PartialEq, Eq)]
pub struct Sample {
    pub latency_ms: u64,
    pub payload_len: usize,
    pub recorded_at: u64,
}

/// Latency figures of one flow over the retention window. The average
/// latency is `total_latency_ms / count`.
#[derive(Clone, Copy, Debug, PartialEq, Eq)]
pub struct LatencySummary {
    pub total_latency_ms: u128,
    pub total_bytes: u128,
    pub count: u64,
}

impl LatencySummary {
    /// The mean latency in whole milliseconds, rounded down; zero when
    /// there are no samples.
    pub fn average_latency_ms(&self) -> (r: u128)
        ensures
            r == if self.count > 0 {
                self.total_latency_ms as int / (self.count as int)
            } else {
                0
            },
    {
        if self.count > 0 {
            self.total_latency_ms / (self.count as u128)
        } else {
            0
        }
    }
}

/// The report entry of a flow, as the model sees it.
pub open spec fn report_entry(e: (String, LatencySummary)) -> (Seq<char>, nat, nat, nat) {
    (e.0@, e.1.total_latency_ms as nat, e.1.total_bytes as nat, e.1.count as nat)
}

/// A latency report, as the model sees it.
pub open spec fn report_view(entries: Seq<(String, LatencySummary)>) -> Seq<
    (Seq<char>, nat, nat, nat),
> {
    entries.map_values(|e: (String, LatencySummary)| report_entry(e))
}

/// The model of each flow, in order.
spec fn flow_views<T: HasLen>(flows: Seq<Flow<T>>) -> Seq<FlowView<T>> {
    flows.map_values(|f: Flow<T>| f@)
}

struct Flow<T: HasLen> {
    key: String,
    queue: VecDeque<Data<T>>,
    deficit: u128,
    last_update: u64,
    samples: VecDeque<Sample>,
}

impl<T: HasLen> View for Flow<T> {
    type V = FlowView<T>;

    closed spec fn view(&self) -> FlowView<T> {
        FlowView {
            key: self.key@,
            queue: self.queue@,
            deficit: self.deficit,
            last_update: self.last_update,
            samples: self.samples@,
        }
    }
}

pub struct FairQueue<T: HasLen> {
    flows: Vec<Flow<T>>,
    stats_interval: u64,
    idle_duration: u64,
    idle_run: Option<u64>,
    num_items: usize,
    start: std::time::Instant,
}

impl<T: HasLen> View for FairQueue<T> {
    type V = FairQueueView<T>;

    closed spec fn view(&self) -> FairQueueView<T> {
        FairQueueView {
            flows: flow_views(self.flows@),
            stats_interval: self.stats_interval,
            idle_duration: self.idle_duration,
            idle_run: self.idle_run,
        }
    }
}

impl<T: HasLen> FairQueue<T> {
    /// The item counter kept beside the flows.
    pub closed spec fn counter(&self) -> nat {
        self.num_items as nat
    }

    pub open spec fn wf(&self) -> bool {
        &&& self@.well_formed()
        &&& self.counter() == total_items(self@.flows)
    }

    /// An empty scheduler. `stats_interval` is how long latency samples are
    /// kept; `idle_duration` is both how long an empty flow may stay idle
    /// and the least time between two idle sweeps. Both are in nanoseconds.
    pub fn new(stats_interval: u64, idle_duration: u64) -> (r: Self)
        ensures
            r.wf(),
            r@ == (FairQueueView::<T> {
                flows: Seq::empty(),
                stats_interval,
                idle_duration,
                idle_run: None,
            }),
    {
        let r = FairQueue {
            flows: Vec::new(),
            stats_interval,
            idle_duration,
            idle_run: None,
            num_items: 0,
            start: clock_start(),
        };
        assert(r@.flows =~= Seq::<FlowView<T>>::empty());
        r
    }

    /// The current time on this queue's clock, in nanoseconds since the
    /// queue was made (held at `u64::MAX`).
    pub fn now(&self) -> u64 {
        let n: u128 = nanos_since(&self.start);
        if n > u64::MAX as u128 {
            u64::MAX
        } else {
            n as u64
        }
    }

    /// How many items wait, over all flows.
    pub fn size(&self) -> (r: usize)
        requires
            self.wf(),
        ensures
            r == total_items(self@.flows),
    {
        self.num_items
    }

    /// The number of flows, of deficit entries and of latency histories.
    pub fn queue_sizes(&self) -> (r: (usize, usize, usize))
        requires
            self.wf(),
        ensures
            r.0 == self@.flows.len(),
            r.1 == self@.flows.len(),
            r.2 == latency_entries(self@.flows),
    {
        let n: usize = self.flows.len();
        let mut count: usize = 0;
        let mut i: usize = 0;
        while i < n
            invariant
                n == self.flows@.len(),
                0 <= i <= n,
                count == latency_entries(self@.flows.take(i as int)),
                count <= i,
            decreases n - i,
        {
            proof {
                assert(self@.flows.take(i + 1).drop_last() =~= self@.flows.take(i as int));
            }
            if self.flows[i].samples.len() > 0 {
                count = count + 1;
            }
            i = i + 1;
        }
        proof {
            assert(self@.flows.take(n as int) =~= self@.flows);
        }
        (n, n, count)
    }

    /// The deficit entry of the flow with `key`: its value, in billionths of
    /// a byte, and the time it was last set from.
    pub fn deficit(&self, key: &String) -> (r: Option<(u128, u64)>)
        requires
            self.wf(),
        ensures
            match r {
                Some(e) => find_flow(self@.flows, key@) >= 0 && e == (
                    self@.flows[find_flow(self@.flows, key@)].deficit,
                    self@.flows[find_flow(self@.flows, key@)].last_update,
                ),
                None => find_flow(self@.flows, key@) == -1,
            },
    {
        match self.find(key) {
            Some(i) => {
                proof {
                    assert(self@.flows[i as int] == self.flows@[i as int]@);
                }
                Some((self.flows[i].deficit, self.flows[i].last_update))
            },
            None => None,
        }
    }

    /// Position of the flow with `key`, if there is one.
    fn find(&self, key: &String) -> (r: Option<usize>)
        requires
            self.wf(),
        ensures
            match r {
                Some(i) => i == find_flow(self@.flows, key@) && i < self@.flows.len(),
                None => find_flow(self@.flows, key@) == -1,
            },
    {
        proof {
            lemma_find_flow(self@.flows, key@);
        }
        let n: usize = self.flows.len();
        let mut i: usize = 0;
        while i < n
            invariant
                self.wf(),
                n == self.flows@.len(),
                0 <= i <= n,
                forall|j: int| 0 <= j < i ==> self@.flows[j].key != key@,
            decreases n - i,
        {
            if self.flows[i].key == *key {
                proof {
                    assert(self@.flows[i as int] == self.flows@[i as int]@);
                    lemma_find_flow(self@.flows, key@);
                }
                return Some(i);
            }
            i = i + 1;
        }
        None
    }

    /// Appends `packet` to its flow at time `now`, making the flow (with a
    /// zero deficit stamped `now`) if its key is new.
    pub fn enqueue_at(&mut self, packet: Data<T>, now: u64)
        requires
            old(self).wf(),
            total_items(old(self)@.flows) < usize::MAX,
        ensures
            final(self).wf(),
            final(self)@ == enqueue_spec(old(self)@, packet, now),
    {
        proof {
            lemma_enqueue_total(self@.flows, packet, now);
            lemma_enqueue_well_formed(self@, packet, now);
        }
        let ghost key = packet.id@;
        match self.find(&packet.id) {
            Some(i) => {
                let flow = &mut self.flows[i];
                flow.queue.push_back(packet);
            }
            None => {
                let key = packet.id.clone();
                let mut queue: VecDeque<Data<T>> = VecDeque::new();
                queue.push_back(packet);
                self.flows.push(
                    Flow { key, queue, deficit: 0, last_update: now, samples: VecDeque::new() },
                );
            }
        }
        self.num_items = self.num_items + 1;
        proof {
            assert(self@.flows =~= enqueue_flows(old(self)@.flows, packet, now));
        }
    }

    /// Serves the head item of the waiting flow with the lowest decayed
    /// deficit at time `now`, records its latency, and runs the idle sweep
    /// when one is due. Returns `None` when no item waits.
    pub fn dequeue_at(&mut self, now: u64) -> (r: Option<Data<T>>)
        requires
            old(self).wf(),
        ensures
            final(self).wf(),
            (r, final(self)@) == dequeue_spec(old(self)@, now),
    {
        let ghost q = self@;
        let ghost flows = age_all(q.flows, now);
        proof {
            lemma_age_all(q.flows, now);
            lemma_pick(flows);
        }
        let picked = age_and_pick(&mut self.flows, now);
        let mut result: Option<Data<T>> = None;
        if let Some(i) = picked {
            proof {
                lemma_serve_keeps(q, now);
                assert(self@.flows[i as int] == self.flows@[i as int]@);
            }
            let start = if now > self.stats_interval {
                now - self.stats_interval
            } else {
                0
            };
            let flow = &mut self.flows[i];
            let popped = flow.queue.pop_front();
            if let Some(mut item) = popped {
                let ghost head = item;
                item.dequeue_time = Some(now);
                let len: usize = item.data.len();
                let age = elapsed_since(now, item.timestamp);
                let d = decayed(flow.deficit, age);
                flow.deficit = d.saturating_add(len as u128 * UNITS_PER_BYTE);
                flow.last_update = item.timestamp;
                let sample = Sample {
                    latency_ms: age / NANOS_PER_MILLI,
                    payload_len: len,
                    recorded_at: now,
                };
                proof {
                    assert(sample == latency_sample(head, now));
                }
                flow.samples.push_back(sample);
                prune_samples(&mut flow.samples, start);
                proof {
                    assert(flow@ == serve_flow(flows[i as int], now, q.stats_interval));
                }
                self.num_items = self.num_items - 1;
                proof {
                    let after = serve_flow(flows[i as int], now, q.stats_interval);
                    assert(self@.flows =~= flows.update(i as int, after));
                    assert(item == served_item(head, now));
                }
                result = Some(item);
            }
        } else {
            proof {
                assert(self@.flows == flows);
            }
        }
        self.sweep(now);
        result
    }

    /// Runs the idle sweep at `now` if none ran yet or the last one is more
    /// than the idle duration ago.
    fn sweep(&mut self, now: u64)
        requires
            old(self).wf(),
        ensures
            final(self).wf(),
            final(self)@ == sweep_spec(old(self)@, now),
    {
        let due = match self.idle_run {
            None => true,
            Some(t) => elapsed_since(now, t) > self.idle_duration,
        };
        if due {
            let idle_duration = self.idle_duration;
            self.remove_idle_destinations_at(idle_duration, now);
            self.idle_run = Some(now);
        }
    }

    /// Removes, at time `now`, every flow whose queue is empty and whose
    /// latest latency sample is more than `max_idle_time` old. A flow that
    /// was never served is kept.
    pub fn remove_idle_destinations_at(&mut self, max_idle_time: u64, now: u64)
        requires
            old(self).wf(),
        ensures
            final(self).wf(),
            final(self)@ == remove_idle_spec(old(self)@, max_idle_time, now),
    {
        proof {
            lemma_remove_idle_keeps(self@, max_idle_time, now);
        }
        reap_flows(&mut self.flows, now, max_idle_time);
    }

    /// Removes the idle flows as of the current time.
    pub fn remove_idle_destinations(&mut self, max_idle_time: u64)
        requires
            old(self).wf(),
        ensures
            final(self).wf(),
            exists|now: u64| final(self)@ == remove_idle_spec(old(self)@, max_idle_time, now),
    {
        let now = self.now();
        self.remove_idle_destinations_at(max_idle_time, now);
    }

    /// Serves one item as of the current time; see [`FairQueue::dequeue_at`].
    pub fn dequeue(&mut self) -> (r: Option<Data<T>>)
        requires
            old(self).wf(),
        ensures
            final(self).wf(),
            exists|now: u64| (r, final(self)@) == dequeue_spec(old(self)@, now),
    {
        let now = self.now();
        self.dequeue_at(now)
    }

    /// Latency figures at time `now`, per flow with samples inside the
    /// retention window `[now - stats_interval, now]`, in flow order.
    pub fn get_average_latency_at(&self, now: u64) -> (r: Vec<(String, LatencySummary)>)
        requires
            self.wf(),
        ensures
            report_view(r@) == latency_report(
                self@.flows,
                window_start(now, self@.stats_interval),
            ),
    {
        let start = if now > self.stats_interval {
            now - self.stats_interval
        } else {
            0
        };
        let ghost flows = self@.flows;
        let n: usize = self.flows.len();
        let mut out: Vec<(String, LatencySummary)> = Vec::new();
        let mut i: usize = 0;
        while i < n
            invariant
                n == self.flows@.len(),
                flows == self@.flows,
                0 <= i <= n,
                report_view(out@) == latency_report(
                    flows.take(i as int),
                    start,
                ),
            decreases n - i,
        {
            proof {
                assert(flows.take(i + 1).drop_last() =~= flows.take(i as int));
                assert(flows[i as int] == self.flows@[i as int]@);
            }
            let flow = &self.flows[i];
            let summary = summarize(&flow.samples, start);
            if summary.count > 0 {
                let ghost before = out@;
                out.push((flow.key.clone(), summary));
                proof {
                    let entry = report_entry((flow.key, summary));
                    assert(report_view(out@) =~= report_view(before).push(entry));
                }
            }
            i = i + 1;
        }
        proof {
            assert(flows.take(n as int) =~= flows);
        }
        out
    }

    /// Latency figures as of the current time; see
    /// [`FairQueue::get_average_latency_at`].
    pub fn get_average_latency(&self) -> (r: Vec<(String, LatencySummary)>)
        requires
            self.wf(),
        ensures
            exists|now: u64|
                report_view(r@) == latency_report(
                    self@.flows,
                    window_start(now, self@.stats_interval),
                ),
    {
        let now = self.now();
        self.get_average_latency_at(now)
    }

    /// Appends `packet` to its flow, stamping a new flow with the current time.
    pub fn enqueue(&mut self, packet: Data<T>)
        requires
            old(self).wf(),
            total_items(old(self)@.flows) < usize::MAX,
        ensures
            final(self).wf(),
            exists|now: u64| final(self)@ == enqueue_spec(old(self)@, packet, now),
    {
        let now = self.now();
        self.enqueue_at(packet, now);
    }
}

fn elapsed_since(now: u64, since: u64) -> (r: u64)
    ensures
        r == elapsed(now, since),
{
    if now > since {
        now - since
    } else {
        0
    }
}

fn decayed(value: u128, elapsed: u64) -> (r: u128)
    ensures
        r == decay(value, elapsed),
        r <= value,
{
    let e: u64 = if elapsed > NANOS_PER_SEC {
        elapsed
    } else {
        NANOS_PER_SEC
    };
    let d: u128 = e as u128;
    let n: u128 = NANOS_PER_SEC as u128;
    // value * n / d, computed as (whole * d + rest) * n / d without overflow.
    let whole: u128 = value / d;
    let rest: u128 = value % d;
    assert(rest * n < u64::MAX as u128 * n) by (nonlinear_arith)
        requires
            rest < d,
            d <= u64::MAX,
            n > 0,
    ;
    let part: u128 = rest * n / d;
    proof {
        broadcast use vstd::arithmetic::div_mod::lemma_div_is_ordered_by_denominator;
        broadcast use vstd::arithmetic::div_mod::lemma_div_by_multiple;
        broadcast use vstd::arithmetic::div_mod::lemma_fundamental_div_mod;

        let v = value as int;
        let di = d as int;
        let ni = n as int;
        let w = whole as int;
        let re = rest as int;
        let p = part as int;
        let m = (re * ni) % di;
        assert(v == di * w + re);
        assert(re * ni == di * p + m);
        assert(0 <= m < di);
        assert(v * ni == di * (w * ni + p) + m) by (nonlinear_arith)
            requires
                v == di * w + re,
                re * ni == di * p + m,
        ;
        vstd::arithmetic::div_mod::lemma_fundamental_div_mod_converse_div(
            v * ni,
            di,
            w * ni + p,
            m,
        );
        assert(v * ni / di <= v * ni / ni);
        assert(v * ni / ni == v);
    }
    whole * n + part
}

/// Drops the samples recorded before `start`.
fn prune_samples(samples: &mut VecDeque<Sample>, start: u64)
    ensures
        final(samples)@ == window(old(samples)@, start),
{
    let n: usize = samples.len();
    let mut kept: VecDeque<Sample> = VecDeque::new();
    let mut i: usize = 0;
    assert(samples@.take(0) =~= Seq::<Sample>::empty());
    while i < n
        invariant
            n == samples@.len(),
            samples@ == old(samples)@,
            0 <= i <= n,
            kept@ == window(samples@.take(i as int), start),
        decreases n - i,
    {
        proof {
            lemma_window_step(samples@, i as int, start);
        }
        let s = samples[i];
        if s.recorded_at >= start {
            kept.push_back(s);
        }
        i = i + 1;
    }
    assert(samples@.take(n as int) =~= samples@);
    *samples = kept;
}

/// The selection scan: decays the deficit of every waiting flow and picks
/// the first one whose deficit is lowest.
fn age_and_pick<T: HasLen>(flows: &mut Vec<Flow<T>>, now: u64) -> (r: Option<usize>)
    ensures
        flow_views(final(flows)@) == age_all(flow_views(old(flows)@), now),
        match r {
            Some(i) => i == pick(age_all(flow_views(old(flows)@), now)),
            None => pick(age_all(flow_views(old(flows)@), now)) == -1,
        },
{
    let ghost before = flow_views(flows@);
    let ghost target = age_all(before, now);
    let n: usize = flows.len();
    let mut best: Option<usize> = None;
    let mut best_deficit: u128 = 0;
    let mut i: usize = 0;
    while i < n
        invariant
            n == flows@.len(),
            n == before.len(),
            0 <= i <= n,
            target == age_all(before, now),
            forall|j: int| 0 <= j < i ==> #[trigger] flows@[j]@ == target[j],
            forall|j: int| i <= j < n ==> #[trigger] flows@[j]@ == before[j],
            match best {
                Some(b) => b == pick(target.take(i as int)) && b < i && best_deficit
                    == target[b as int].deficit,
                None => pick(target.take(i as int)) == -1,
            },
        decreases n - i,
    {
        proof {
            assert(target.take(i + 1).drop_last() =~= target.take(i as int));
            assert(flows@[i as int]@ == before[i as int]);
            assert(target[i as int] == aged(before[i as int], now));
        }
        let flow = &mut flows[i];
        if flow.queue.len() > 0 {
            let e = elapsed_since(now, flow.last_update);
            flow.deficit = decayed(flow.deficit, e);
            if best.is_none() || flow.deficit < best_deficit {
                best = Some(i);
                best_deficit = flow.deficit;
            }
        }
        proof {
            assert(flows@[i as int]@ == target[i as int]);
        }
        i = i + 1;
    }
    proof {
        assert(target.take(n as int) =~= target);
        assert(flow_views(flows@) =~= target);
    }
    best
}

/// Removes the idle flows, keeping the others in order.
fn reap_flows<T: HasLen>(flows: &mut Vec<Flow<T>>, now: u64, max_idle: u64)
    ensures
        flow_views(final(flows)@) == reap(flow_views(old(flows)@), now, max_idle),
{
    let ghost before = flow_views(flows@);
    let n: usize = flows.len();
    let mut k: usize = 0;
    let mut i: usize = 0;
    proof {
        assert(before.take(0) =~= Seq::<FlowView<T>>::empty());
        assert(flow_views(flows@) =~= reap(before.take(0), now, max_idle) + before.skip(0));
    }
    while k < n
        invariant
            n == before.len(),
            0 <= k <= n,
            i == reap(before.take(k as int), now, max_idle).len(),
            flow_views(flows@) == reap(before.take(k as int), now, max_idle) + before.skip(
                k as int,
            ),
        decreases n - k,
    {
        let ghost done = reap(before.take(k as int), now, max_idle);
        proof {
            assert(before.take(k + 1).drop_last() =~= before.take(k as int));
            let cur = flow_views(flows@);
            assert(cur.len() == done.len() + n - k);
            assert(cur[i as int] == flows@[i as int]@);
            assert((done + before.skip(k as int))[i as int] == before[k as int]);
            lemma_reap_members(before.take(k as int), now, max_idle);
        }
        let ghost cur_before = flows@;
        let idle = {
            let flow = &flows[i];
            let m: usize = flow.samples.len();
            flow.queue.len() == 0 && m > 0 && elapsed_since(now, flow.samples[m - 1].recorded_at)
                > max_idle
        };
        if idle {
            flows.remove(i);
            proof {
                let cur = flow_views(flows@);
                let want = done + before.skip(k + 1);
                let had = flow_views(cur_before);
                assert(had == done + before.skip(k as int));
                assert(cur.len() == want.len());
                assert forall|j: int| 0 <= j < cur.len() implies cur[j] == want[j] by {
                    if j < i {
                        assert(cur[j] == had[j]);
                    } else {
                        assert(cur[j] == had[j + 1]);
                    }
                }
                assert(cur =~= want);
            }
        } else {
            i = i + 1;
            proof {
                assert(flow_views(flows@) =~= done.push(before[k as int]) + before.skip(k + 1));
            }
        }
        k = k + 1;
    }
    proof {
        assert(before.take(n as int) =~= before);
        assert(flow_views(flows@) =~= reap(before, now, max_idle));
    }
}

/// Totals over the samples recorded at or after `start`.
fn summarize(samples: &VecDeque<Sample>, start: u64) -> (r: LatencySummary)
    ensures
        r.total_latency_ms == sum_latency(window(samples@, start)),
        r.total_bytes == sum_bytes(window(samples@, start)),
        r.count == window(samples@, start).len(),
{
    let n: usize = samples.len();
    let mut total_latency: u128 = 0;
    let mut total_bytes: u128 = 0;
    let mut count: u64 = 0;
    let mut i: usize = 0;
    while i < n
        invariant
            n == samples@.len(),
            0 <= i <= n,
            total_latency == sum_latency(window(samples@.take(i as int), start)),
            total_bytes == sum_bytes(window(samples@.take(i as int), start)),
            count == window(samples@.take(i as int), start).len(),
            count <= i,
            total_latency <= count * (u64::MAX as int),
            total_bytes <= count * (u64::MAX as int),
        decreases n - i,
    {
        proof {
            lemma_window_step(samples@, i as int, start);
        }
        let s = samples[i];
        if s.recorded_at >= start {
            proof {
                let c = count as int;
                let m = u64::MAX as int;
                assert(c + 1 <= m);
                assert((c + 1) * m <= m * m) by (nonlinear_arith)
                    requires
                        c + 1 <= m,
                        0 <= c,
                ;
                assert(c * m + m == (c + 1) * m) by (nonlinear_arith);
                assert(m * m < u128::MAX);
                let w = window(samples@.take(i as int), start);
                assert(w.push(s).drop_last() =~= w);
            }
            total_latency = total_latency + s.latency_ms as u128;
            total_bytes = total_bytes + s.payload_len as u128;
            count = count + 1;
        }
        i = i + 1;
    }
    proof {
        assert(samples@.take(n as int) =~= samples@);
    }
    LatencySummary { total_latency_ms: total_latency, total_bytes, count }
}

} // verus!
