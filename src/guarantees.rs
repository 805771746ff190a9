//! What holds of every run of the scheduler, stated over its model and
//! proved from the transitions in `model`.

use vstd::prelude::*;
use vstd::arithmetic::power2::pow2;
use vstd::multiset::Multiset;
use crate::fair_queue::{Data, HasLen, Sample};
use crate::model::{
    decay,
    enqueue_flows, new_flow, NANOS_PER_SEC, UNITS_PER_BYTE,
    age_all, aged, dequeue_spec, elapsed, enqueue_spec, find_flow, is_idle, keys_unique,
    latency_entries, latency_report, lemma_age_all, lemma_enqueue_total,
    lemma_enqueue_well_formed, lemma_find_flow, lemma_pick, lemma_reap_keeps,
    lemma_reap_members, lemma_remove_idle_keeps, lemma_serve_keeps, pick, queue_of, reap,
    remove_idle_spec, serve_flow, served_item, sweep_due, sweep_spec, total_items, window,
    window_start, FairQueueView, FlowView,
};

verus! {

/// The scheduler after `packets` arrive one by one, the k-th at `times[k]`.
pub open spec fn enqueue_all<T: HasLen>(
    q: FairQueueView<T>,
    packets: Seq<Data<T>>,
    times: Seq<u64>,
) -> FairQueueView<T>
    recommends
        packets.len() == times.len(),
    decreases packets.len(),
{
    if packets.len() == 0 || times.len() == 0 {
        q
    } else {
        enqueue_spec(
            enqueue_all(q, packets.drop_last(), times.drop_last()),
            packets.last(),
            times.last(),
        )
    }
}

/// With no dequeue in between, every enqueue adds exactly one to the size:
/// after `N` of them the size has grown by `N`.
pub proof fn lemma_size_counts_enqueues<T: HasLen>(
    q: FairQueueView<T>,
    packets: Seq<Data<T>>,
    times: Seq<u64>,
)
    requires
        q.well_formed(),
        packets.len() == times.len(),
    ensures
        enqueue_all(q, packets, times).well_formed(),
        total_items(enqueue_all(q, packets, times).flows) == total_items(q.flows) + packets.len(),
    decreases packets.len(),
{
    if packets.len() > 0 {
        let p = enqueue_all(q, packets.drop_last(), times.drop_last());
        lemma_size_counts_enqueues(q, packets.drop_last(), times.drop_last());
        lemma_enqueue_total(p.flows, packets.last(), times.last());
        lemma_enqueue_well_formed(p, packets.last(), times.last());
    }
}

/// The idle sweep removes exactly the idle flows: a flow that remains is not
/// idle, every flow that is not idle remains, and in particular a flow that
/// was never served (it has no latency history) is never removed.
pub proof fn lemma_idle_sweep_removes_exactly_idle<T: HasLen>(
    q: FairQueueView<T>,
    max_idle: u64,
    now: u64,
)
    ensures
        forall|f: FlowView<T>| #[trigger]
            remove_idle_spec(q, max_idle, now).flows.contains(f) ==> !is_idle(f, now, max_idle),
        forall|f: FlowView<T>|
            q.flows.contains(f) && !is_idle(f, now, max_idle) ==> #[trigger] remove_idle_spec(
                q,
                max_idle,
                now,
            ).flows.contains(f),
        forall|f: FlowView<T>|
            q.flows.contains(f) && f.samples.len() == 0 ==> #[trigger] remove_idle_spec(
                q,
                max_idle,
                now,
            ).flows.contains(f),
{
    lemma_reap_members(q.flows, now, max_idle);
}

/// A window that starts after every sample holds none of them.
pub proof fn lemma_window_of_stale(samples: Seq<Sample>, start: u64)
    requires
        forall|j: int| 0 <= j < samples.len() ==> #[trigger] samples[j].recorded_at < start,
    ensures
        window(samples, start).len() == 0,
    decreases samples.len(),
{
    if samples.len() > 0 {
        let rest = samples.drop_last();
        assert(forall|j: int| 0 <= j < rest.len() ==> rest[j] == samples[j]);
        lemma_window_of_stale(rest, start);
    }
}

/// The latency report at `now` leaves out a key whose every sample was
/// recorded more than `stats_interval` before `now`.
pub proof fn lemma_report_leaves_out_stale_key<T: HasLen>(
    flows: Seq<FlowView<T>>,
    key: Seq<char>,
    stats_interval: u64,
    now: u64,
)
    requires
        forall|i: int, j: int|
            0 <= i < flows.len() && flows[i].key == key && 0 <= j < flows[i].samples.len()
                ==> #[trigger] flows[i].samples[j].recorded_at + stats_interval < now,
    ensures
        forall|m: int|
            0 <= m < latency_report(flows, window_start(now, stats_interval)).len()
                ==> #[trigger] latency_report(flows, window_start(now, stats_interval))[m].0 != key,
    decreases flows.len(),
{
    if flows.len() > 0 {
        let rest = flows.drop_last();
        let start = window_start(now, stats_interval);
        assert(forall|i: int| 0 <= i < rest.len() ==> rest[i] == flows[i]);
        lemma_report_leaves_out_stale_key(rest, key, stats_interval, now);
        let last = flows.last();
        if last.key == key {
            assert forall|j: int| 0 <= j < last.samples.len() implies
                #[trigger] last.samples[j].recorded_at
                < start by {
                assert(flows[flows.len() - 1] == last);
            }
            lemma_window_of_stale(last.samples, start);
        }
        let rr = latency_report(rest, start);
        let r = latency_report(flows, start);
        assert forall|m: int| 0 <= m < r.len() implies #[trigger] r[m].0 != key by {
            if m < rr.len() {
                assert(r[m] == rr[m]);
            }
        }
    }
}

/// Once every queue is empty, a dequeue at a time when the sweep is due and
/// every flow's latest sample is older than the idle duration leaves no flow,
/// no deficit entry and no latency history behind.
pub proof fn lemma_drained_queue_empties<T: HasLen>(q: FairQueueView<T>, now: u64)
    requires
        q.well_formed(),
        total_items(q.flows) == 0,
        sweep_due(q.idle_run, now, q.idle_duration),
        forall|i: int|
            0 <= i < q.flows.len() && q.flows[i].samples.len() > 0 ==> elapsed(
                now,
                #[trigger] q.flows[i].samples.last().recorded_at,
            ) > q.idle_duration,
    ensures
        dequeue_spec(q, now).0 is None,
        dequeue_spec(q, now).1.flows.len() == 0,
        latency_entries(dequeue_spec(q, now).1.flows) == 0,
{
    lemma_empty_total(q.flows);
    let flows = age_all(q.flows, now);
    lemma_age_all(q.flows, now);
    lemma_pick(flows);
    assert(flows =~= q.flows);
    let r = reap(q.flows, now, q.idle_duration);
    lemma_reap_members(q.flows, now, q.idle_duration);
    if r.len() > 0 {
        assert(r.contains(r[0]));
        let m = choose|m: int| 0 <= m < q.flows.len() && q.flows[m] == r[0];
        assert(q.flows[m].queue.len() == 0);
    }
}

/// A total of zero means every queue is empty.
pub proof fn lemma_empty_total<T: HasLen>(flows: Seq<FlowView<T>>)
    requires
        total_items(flows) == 0,
    ensures
        forall|i: int| 0 <= i < flows.len() ==> #[trigger] flows[i].queue.len() == 0,
    decreases flows.len(),
{
    if flows.len() > 0 {
        let rest = flows.drop_last();
        lemma_empty_total(rest);
        assert(forall|i: int| 0 <= i < rest.len() ==> rest[i] == flows[i]);
    }
}

/// The pick has the lowest deficit among the waiting flows, and any waiting
/// flow before it has a strictly higher one.
pub proof fn lemma_pick_is_lowest<T: HasLen>(flows: Seq<FlowView<T>>)
    requires
        pick(flows) >= 0,
    ensures
        forall|j: int|
            0 <= j < flows.len() && flows[j].queue.len() > 0 ==> flows[pick(flows)].deficit
                <= #[trigger] flows[j].deficit,
        forall|j: int|
            0 <= j < pick(flows) && flows[j].queue.len() > 0 ==> flows[pick(flows)].deficit
                < #[trigger] flows[j].deficit,
    decreases flows.len(),
{
    let rest = flows.drop_last();
    lemma_pick(flows);
    lemma_pick(rest);
    assert(forall|i: int| 0 <= i < rest.len() ==> rest[i] == flows[i]);
    if pick(rest) >= 0 {
        lemma_pick_is_lowest(rest);
    }
}

/// The waiting flow whose decayed deficit is strictly lowest is served next,
/// whichever flow queued first: a flow with a long backlog cannot hold the
/// scheduler once its deficit has decayed above another's.
pub proof fn lemma_lowest_deficit_served<T: HasLen>(q: FairQueueView<T>, now: u64, b: int)
    requires
        0 <= b < q.flows.len(),
        q.flows[b].queue.len() > 0,
        forall|j: int|
            0 <= j < q.flows.len() && j != b && q.flows[j].queue.len() > 0 ==> aged(
                q.flows[b],
                now,
            ).deficit < #[trigger] aged(q.flows[j], now).deficit,
    ensures
        dequeue_spec(q, now).0 == Some(served_item(q.flows[b].queue[0], now)),
{
    let flows = age_all(q.flows, now);
    lemma_age_all(q.flows, now);
    lemma_pick(flows);
    assert(flows[b].queue.len() > 0);
    lemma_pick_is_lowest(flows);
    let p = pick(flows);
    if p != b {
        assert(flows[p].deficit <= flows[b].deficit);
        assert(flows[p] == aged(q.flows[p], now));
    }
}

/// An item with its service stamp cleared: what it was when it was queued,
/// if it was queued unstamped.
pub open spec fn unstamped<T: HasLen>(d: Data<T>) -> Data<T> {
    Data { dequeue_time: None, ..d }
}

/// The items of `s`, unstamped, counted with multiplicity.
pub open spec fn bag<T: HasLen>(s: Seq<Data<T>>) -> Multiset<Data<T>>
    decreases s.len(),
{
    if s.len() == 0 {
        Multiset::empty()
    } else {
        bag(s.drop_last()).insert(unstamped(s.last()))
    }
}

/// Every item waiting in any flow, unstamped, counted with multiplicity.
pub open spec fn all_items<T: HasLen>(flows: Seq<FlowView<T>>) -> Multiset<Data<T>>
    decreases flows.len(),
{
    if flows.len() == 0 {
        Multiset::empty()
    } else {
        all_items(flows.drop_last()).add(bag(flows.last().queue))
    }
}

/// The items that a run of dequeues handed out, unstamped.
pub open spec fn served_bag<T: HasLen>(rs: Seq<Option<Data<T>>>) -> Multiset<Data<T>>
    decreases rs.len(),
{
    if rs.len() == 0 {
        Multiset::empty()
    } else {
        match rs.last() {
            Some(x) => served_bag(rs.drop_last()).insert(unstamped(x)),
            None => served_bag(rs.drop_last()),
        }
    }
}

/// The results of dequeues made one by one, the k-th at `times[k]`, and the
/// scheduler they leave.
pub open spec fn dequeue_many<T: HasLen>(q: FairQueueView<T>, times: Seq<u64>) -> (
    Seq<Option<Data<T>>>,
    FairQueueView<T>,
)
    decreases times.len(),
{
    if times.len() == 0 {
        (Seq::empty(), q)
    } else {
        let (rs, p) = dequeue_many(q, times.drop_last());
        let (r, next) = dequeue_spec(p, times.last());
        (rs.push(r), next)
    }
}

pub proof fn lemma_bag_drop_first<T: HasLen>(s: Seq<Data<T>>)
    requires
        s.len() > 0,
    ensures
        bag(s) == bag(s.drop_first()).insert(unstamped(s[0])),
    decreases s.len(),
{
    broadcast use vstd::multiset::group_multiset_axioms;

    let a = s.drop_last();
    let d = s.drop_first();
    assert(bag(s) == bag(a).insert(unstamped(s.last())));
    if s.len() > 1 {
        lemma_bag_drop_first(a);
        assert(a[0] == s[0]);
        assert(d.drop_last() =~= a.drop_first());
        assert(d.last() == s.last());
        assert(bag(d) == bag(d.drop_last()).insert(unstamped(d.last())));
        let m = bag(a.drop_first());
        assert(m.insert(unstamped(s[0])).insert(unstamped(s.last())) =~= m.insert(
            unstamped(s.last()),
        ).insert(unstamped(s[0])));
    } else {
        assert(a.len() == 0);
        assert(d.len() == 0);
        assert(bag(a) == Multiset::<Data<T>>::empty());
        assert(bag(d) == Multiset::<Data<T>>::empty());
        assert(s.last() == s[0]);
    }
}

pub proof fn lemma_all_items_update<T: HasLen>(flows: Seq<FlowView<T>>, i: int, f: FlowView<T>)
    requires
        0 <= i < flows.len(),
    ensures
        all_items(flows.update(i, f)).add(bag(flows[i].queue)) == all_items(flows).add(
            bag(f.queue),
        ),
    decreases flows.len(),
{
    broadcast use vstd::multiset::group_multiset_axioms;

    let u = flows.update(i, f);
    let fd = flows.drop_last();
    assert(all_items(u) == all_items(u.drop_last()).add(bag(u.last().queue)));
    assert(all_items(flows) == all_items(fd).add(bag(flows.last().queue)));
    if i < flows.len() - 1 {
        lemma_all_items_update(fd, i, f);
        assert(u.drop_last() =~= fd.update(i, f));
        assert(u.last() == flows.last());
        assert(fd[i] == flows[i]);
        let a = all_items(fd.update(i, f));
        let b = all_items(fd);
        assert(a.add(bag(flows[i].queue)) == b.add(bag(f.queue)));
        assert(a.add(bag(flows.last().queue)).add(bag(flows[i].queue)) =~= a.add(
            bag(flows[i].queue),
        ).add(bag(flows.last().queue)));
        assert(b.add(bag(f.queue)).add(bag(flows.last().queue)) =~= b.add(
            bag(flows.last().queue),
        ).add(bag(f.queue)));
    } else {
        assert(u.drop_last() =~= fd);
        assert(u.last() == f);
        let b = all_items(fd);
        assert(b.add(bag(f.queue)).add(bag(flows[i].queue)) =~= b.add(bag(flows[i].queue)).add(
            bag(f.queue),
        ));
    }
}

pub proof fn lemma_all_items_same_queues<T: HasLen>(a: Seq<FlowView<T>>, b: Seq<FlowView<T>>)
    requires
        a.len() == b.len(),
        forall|i: int| 0 <= i < a.len() ==> #[trigger] a[i].queue == b[i].queue,
    ensures
        all_items(a) == all_items(b),
    decreases a.len(),
{
    if a.len() > 0 {
        lemma_all_items_same_queues(a.drop_last(), b.drop_last());
        assert(a.last().queue == b.last().queue);
    }
}

pub proof fn lemma_all_items_reap<T: HasLen>(flows: Seq<FlowView<T>>, now: u64, max_idle: u64)
    ensures
        all_items(reap(flows, now, max_idle)) == all_items(flows),
    decreases flows.len(),
{
    if flows.len() > 0 {
        let rest = flows.drop_last();
        lemma_all_items_reap(rest, now, max_idle);
        if is_idle(flows.last(), now, max_idle) {
            assert(all_items(flows) =~= all_items(rest));
        } else {
            let rr = reap(rest, now, max_idle);
            assert(rr.push(flows.last()).drop_last() =~= rr);
        }
    }
}

pub proof fn lemma_all_items_empty<T: HasLen>(flows: Seq<FlowView<T>>)
    requires
        total_items(flows) == 0,
    ensures
        all_items(flows) == Multiset::<Data<T>>::empty(),
    decreases flows.len(),
{
    if flows.len() > 0 {
        lemma_all_items_empty(flows.drop_last());
        assert(all_items(flows) =~= Multiset::<Data<T>>::empty());
    }
}

/// Every queue empty means a total of zero.
pub proof fn lemma_total_of_empty<T: HasLen>(flows: Seq<FlowView<T>>)
    requires
        forall|i: int| 0 <= i < flows.len() ==> #[trigger] flows[i].queue.len() == 0,
    ensures
        total_items(flows) == 0,
    decreases flows.len(),
{
    if flows.len() > 0 {
        let rest = flows.drop_last();
        assert(forall|i: int| 0 <= i < rest.len() ==> rest[i] == flows[i]);
        lemma_total_of_empty(rest);
        assert(flows[flows.len() - 1].queue.len() == 0);
    }
}

/// What the sweep leaves: the model stays well formed and keeps every item.
pub proof fn lemma_sweep_keeps<T: HasLen>(q: FairQueueView<T>, now: u64)
    requires
        q.well_formed(),
    ensures
        sweep_spec(q, now).well_formed(),
        total_items(sweep_spec(q, now).flows) == total_items(q.flows),
        all_items(sweep_spec(q, now).flows) == all_items(q.flows),
{
    lemma_remove_idle_keeps(q, q.idle_duration, now);
    lemma_all_items_reap(q.flows, now, q.idle_duration);
}

/// Each dequeue from a scheduler that holds items hands out exactly one of
/// them and keeps the rest; from an empty one it hands out nothing.
pub proof fn lemma_dequeue_takes_one<T: HasLen>(q: FairQueueView<T>, now: u64)
    requires
        q.well_formed(),
    ensures
        dequeue_spec(q, now).1.well_formed(),
        total_items(q.flows) > 0 ==> {
            &&& dequeue_spec(q, now).0 is Some
            &&& total_items(dequeue_spec(q, now).1.flows) + 1 == total_items(q.flows)
            &&& all_items(q.flows) == all_items(dequeue_spec(q, now).1.flows).insert(
                unstamped(dequeue_spec(q, now).0->Some_0),
            )
        },
        total_items(q.flows) == 0 ==> {
            &&& dequeue_spec(q, now).0 is None
            &&& total_items(dequeue_spec(q, now).1.flows) == 0
            &&& all_items(dequeue_spec(q, now).1.flows) == all_items(q.flows)
        },
{
    let flows = age_all(q.flows, now);
    lemma_age_all(q.flows, now);
    lemma_pick(flows);
    lemma_all_items_same_queues(flows, q.flows);
    let i = pick(flows);
    if i >= 0 {
        lemma_serve_keeps(q, now);
        let f = serve_flow(flows[i], now, q.stats_interval);
        let served = FairQueueView { flows: flows.update(i, f), ..q };
        lemma_sweep_keeps(served, now);
        lemma_all_items_update(flows, i, f);
        lemma_bag_drop_first(flows[i].queue);
        let x = flows[i].queue[0];
        assert(unstamped(served_item(x, now)) == unstamped(x));
        broadcast use vstd::multiset::group_multiset_axioms;

        assert(f.queue == flows[i].queue.drop_first());
        assert(bag(flows[i].queue) == bag(f.queue).insert(unstamped(x)));
        let a = all_items(served.flows);
        assert(a.add(bag(f.queue).insert(unstamped(x))) == all_items(flows).add(bag(f.queue)));
        assert(a.add(bag(f.queue).insert(unstamped(x))) =~= a.insert(unstamped(x)).add(
            bag(f.queue),
        ));
        let ux = unstamped(x);
        let rest_bag = bag(f.queue);
        assert forall|v: Data<T>| #[trigger] all_items(flows).count(v) == a.insert(ux).count(v) by {
            assert(all_items(flows).add(rest_bag).count(v) == a.insert(ux).add(rest_bag).count(v));
        }
        assert(all_items(flows) =~= a.insert(ux));
    } else {
        lemma_total_of_empty(flows);
        let left = FairQueueView { flows, ..q };
        assert(left.well_formed()) by {
            assert(forall|a: int, b: int|
                0 <= a < flows.len() && 0 <= b < flows.len() && a != b ==> flows[a].key
                    != flows[b].key);
            assert(forall|a: int| 0 <= a < flows.len() ==> #[trigger] flows[a] == q.flows[a]);
        }
        lemma_sweep_keeps(left, now);
    }
}

/// Draining: from a well-formed scheduler holding `N` items, `N` dequeues
/// (at any times, with nothing enqueued in between) hand out `N` items, each
/// waiting item exactly once, and leave the size at zero; a dequeue after
/// that hands out nothing.
pub proof fn lemma_drain_returns_each_once<T: HasLen>(q: FairQueueView<T>, times: Seq<u64>)
    requires
        q.well_formed(),
        times.len() == total_items(q.flows),
    ensures
        forall|k: int| 0 <= k < times.len() ==> #[trigger] dequeue_many(q, times).0[k] is Some,
        dequeue_many(q, times).0.len() == times.len(),
        served_bag(dequeue_many(q, times).0) == all_items(q.flows),
        total_items(dequeue_many(q, times).1.flows) == 0,
        forall|now: u64| #[trigger] dequeue_spec(dequeue_many(q, times).1, now).0 is None,
{
    lemma_dequeue_prefix(q, times);
    let p = dequeue_many(q, times).1;
    lemma_all_items_empty(p.flows);
    assert(served_bag(dequeue_many(q, times).0) =~= all_items(q.flows));
    assert forall|now: u64| #[trigger] dequeue_spec(p, now).0 is None by {
        lemma_dequeue_takes_one(p, now);
    }
}

/// Dequeues that do not outnumber the items: each hands one out, and the
/// items handed out plus those left are the items there were.
pub proof fn lemma_dequeue_prefix<T: HasLen>(q: FairQueueView<T>, times: Seq<u64>)
    requires
        q.well_formed(),
        times.len() <= total_items(q.flows),
    ensures
        dequeue_many(q, times).1.well_formed(),
        dequeue_many(q, times).0.len() == times.len(),
        forall|k: int| 0 <= k < times.len() ==> #[trigger] dequeue_many(q, times).0[k] is Some,
        total_items(dequeue_many(q, times).1.flows) + times.len() == total_items(q.flows),
        all_items(q.flows) == all_items(dequeue_many(q, times).1.flows).add(
            served_bag(dequeue_many(q, times).0),
        ),
    decreases times.len(),
{
    if times.len() > 0 {
        let prev = times.drop_last();
        lemma_dequeue_prefix(q, prev);
        let (rs, p) = dequeue_many(q, prev);
        lemma_dequeue_takes_one(p, times.last());
        let (r, next) = dequeue_spec(p, times.last());
        let all = rs.push(r);
        assert(all.drop_last() =~= rs);
        assert(forall|k: int| 0 <= k < rs.len() ==> all[k] == rs[k]);
        assert(all_items(q.flows) =~= all_items(next.flows).add(served_bag(all)));
    }
}

/// Looking a key up: the queue of the one flow with that key, or nothing.
pub proof fn lemma_queue_of<T: HasLen>(flows: Seq<FlowView<T>>, key: Seq<char>)
    requires
        keys_unique(flows),
    ensures
        forall|i: int|
            0 <= i < flows.len() && #[trigger] flows[i].key == key ==> queue_of(flows, key)
                == flows[i].queue,
        (forall|i: int| 0 <= i < flows.len() ==> #[trigger] flows[i].key != key) ==> queue_of(
            flows,
            key,
        ) == Seq::<Data<T>>::empty(),
{
    lemma_find_flow(flows, key);
}

/// The idle sweep changes no key's queue: it removes only empty flows.
pub proof fn lemma_reap_queue_of<T: HasLen>(
    flows: Seq<FlowView<T>>,
    now: u64,
    max_idle: u64,
    key: Seq<char>,
)
    requires
        keys_unique(flows),
    ensures
        queue_of(reap(flows, now, max_idle), key) == queue_of(flows, key),
{
    let r = reap(flows, now, max_idle);
    lemma_reap_keeps(flows, now, max_idle);
    lemma_reap_members(flows, now, max_idle);
    lemma_queue_of(flows, key);
    lemma_queue_of(r, key);
    lemma_find_flow(flows, key);
    let j = find_flow(flows, key);
    if j >= 0 {
        if !is_idle(flows[j], now, max_idle) {
            assert(flows.contains(flows[j]));
            assert(r.contains(flows[j]));
            let m = choose|m: int| 0 <= m < r.len() && r[m] == flows[j];
            assert(r[m].key == key);
        } else {
            assert forall|m: int| 0 <= m < r.len() implies #[trigger] r[m].key != key by {
                assert(r.contains(r[m]));
                let k = choose|k: int| 0 <= k < flows.len() && flows[k] == r[m];
                if r[m].key == key {
                    assert(k == j);
                }
            }
        }
    } else {
        assert forall|m: int| 0 <= m < r.len() implies #[trigger] r[m].key != key by {
            assert(r.contains(r[m]));
            let k = choose|k: int| 0 <= k < flows.len() && flows[k] == r[m];
        }
    }
}

/// An enqueue appends the item at the tail of its own key's queue and
/// leaves every other key's queue as it was.
pub proof fn lemma_enqueue_appends_to_own_key<T: HasLen>(
    q: FairQueueView<T>,
    packet: Data<T>,
    now: u64,
    key: Seq<char>,
)
    requires
        q.well_formed(),
    ensures
        queue_of(enqueue_spec(q, packet, now).flows, key) == if key == packet.id@ {
            queue_of(q.flows, key).push(packet)
        } else {
            queue_of(q.flows, key)
        },
{
    let r = enqueue_spec(q, packet, now).flows;
    lemma_enqueue_well_formed(q, packet, now);
    lemma_find_flow(q.flows, packet.id@);
    lemma_queue_of(q.flows, key);
    lemma_queue_of(r, key);
    let i = find_flow(q.flows, packet.id@);
    if key != packet.id@ {
        if exists|j: int| 0 <= j < q.flows.len() && q.flows[j].key == key {
            let j = choose|j: int| 0 <= j < q.flows.len() && q.flows[j].key == key;
            assert(r[j] == q.flows[j]);
        } else {
            assert forall|j: int| 0 <= j < r.len() implies #[trigger] r[j].key != key by {
                if j < q.flows.len() {
                    assert(q.flows[j].key != key);
                }
            }
        }
    } else if i >= 0 {
        assert(r[i].key == key);
    } else {
        assert(r[q.flows.len() as int].key == key);
    }
}

/// A dequeue takes the item it hands out from the head of that item's key's
/// queue and leaves every other key's queue as it was. With the enqueue law
/// above, items of one key leave in the order in which they arrived.
pub proof fn lemma_dequeue_pops_own_key<T: HasLen>(q: FairQueueView<T>, now: u64, key: Seq<char>)
    requires
        q.well_formed(),
    ensures
        match dequeue_spec(q, now).0 {
            Some(x) => if x.id@ == key {
                &&& queue_of(q.flows, key).len() > 0
                &&& x == served_item(queue_of(q.flows, key)[0], now)
                &&& queue_of(dequeue_spec(q, now).1.flows, key) == queue_of(
                    q.flows,
                    key,
                ).drop_first()
            } else {
                queue_of(dequeue_spec(q, now).1.flows, key) == queue_of(q.flows, key)
            },
            None => queue_of(dequeue_spec(q, now).1.flows, key) == queue_of(q.flows, key),
        },
{
    let flows = age_all(q.flows, now);
    lemma_age_all(q.flows, now);
    lemma_pick(flows);
    assert(keys_unique(flows));
    lemma_queue_of(q.flows, key);
    lemma_queue_of(flows, key);
    assert(queue_of(flows, key) == queue_of(q.flows, key)) by {
        if exists|j: int| 0 <= j < q.flows.len() && q.flows[j].key == key {
            let j = choose|j: int| 0 <= j < q.flows.len() && q.flows[j].key == key;
            assert(flows[j].key == key);
        } else {
            assert forall|j: int| 0 <= j < flows.len() implies #[trigger] flows[j].key != key by {
                assert(q.flows[j].key != key);
            }
        }
    }
    let i = pick(flows);
    if i >= 0 {
        lemma_serve_keeps(q, now);
        let f = serve_flow(flows[i], now, q.stats_interval);
        let u = flows.update(i, f);
        let served = FairQueueView { flows: u, ..q };
        lemma_reap_queue_of(u, now, q.idle_duration, key);
        lemma_queue_of(u, key);
        let x = flows[i].queue[0];
        assert(x.id@ == q.flows[i].key) by {
            assert(q.flows[i].queue[0] == x);
        }
        if key == flows[i].key {
            assert(u[i].key == key);
        } else if exists|j: int| 0 <= j < flows.len() && flows[j].key == key {
            let j = choose|j: int| 0 <= j < flows.len() && flows[j].key == key;
            assert(u[j] == flows[j]);
        } else {
            assert forall|j: int| 0 <= j < u.len() implies #[trigger] u[j].key != key by {
                assert(flows[j].key != key);
            }
        }
    } else {
        lemma_reap_queue_of(flows, now, q.idle_duration, key);
    }
}

/// Enqueueing adds the item, unstamped, to the items that wait.
pub proof fn lemma_enqueue_adds_item<T: HasLen>(flows: Seq<FlowView<T>>, packet: Data<T>, now: u64)
    ensures
        all_items(enqueue_flows(flows, packet, now)) == all_items(flows).insert(unstamped(packet)),
{
    broadcast use vstd::multiset::group_multiset_axioms;

    lemma_find_flow(flows, packet.id@);
    let i = find_flow(flows, packet.id@);
    if i >= 0 {
        let f = FlowView { queue: flows[i].queue.push(packet), ..flows[i] };
        lemma_all_items_update(flows, i, f);
        assert(f.queue.drop_last() =~= flows[i].queue);
        let a = all_items(flows.update(i, f));
        let b = bag(flows[i].queue);
        assert(bag(f.queue) == b.insert(unstamped(packet)));
        assert forall|v: Data<T>| #[trigger] a.count(v) == all_items(flows).insert(
            unstamped(packet),
        ).count(v) by {
            assert(a.add(b).count(v) == all_items(flows).add(b.insert(unstamped(packet))).count(v));
        }
        assert(a =~= all_items(flows).insert(unstamped(packet)));
    } else {
        let g = flows.push(new_flow(packet, now));
        assert(g.drop_last() =~= flows);
        assert(seq![packet].drop_last() =~= Seq::<Data<T>>::empty());
        let one = seq![packet];
        assert(one.last() == packet);
        assert(bag(one) == bag(one.drop_last()).insert(unstamped(one.last())));
        assert(bag(one) =~= Multiset::<Data<T>>::empty().insert(unstamped(packet)));
        assert(all_items(g) =~= all_items(flows).insert(unstamped(packet)));
    }
}

/// After a run of enqueues the waiting items are those that waited before
/// plus the packets, unstamped.
pub proof fn lemma_enqueue_all_items<T: HasLen>(
    q: FairQueueView<T>,
    packets: Seq<Data<T>>,
    times: Seq<u64>,
)
    requires
        packets.len() == times.len(),
    ensures
        all_items(enqueue_all(q, packets, times).flows) == all_items(q.flows).add(bag(packets)),
    decreases packets.len(),
{
    broadcast use vstd::multiset::group_multiset_axioms;

    if packets.len() > 0 {
        let p = enqueue_all(q, packets.drop_last(), times.drop_last());
        lemma_enqueue_all_items(q, packets.drop_last(), times.drop_last());
        lemma_enqueue_adds_item(p.flows, packets.last(), times.last());
        assert(all_items(enqueue_all(q, packets, times).flows) =~= all_items(q.flows).add(
            bag(packets),
        ));
    } else {
        assert(all_items(q.flows).add(bag(packets)) =~= all_items(q.flows));
    }
}

/// Enqueue `N` packets (any keys, any sizes) and then dequeue as many times
/// as items wait: every dequeue hands an item out, each packet comes back
/// exactly once (with its service stamp set), and the size ends at zero.
/// Starting from an empty scheduler, what comes out is exactly the packets.
pub proof fn lemma_every_enqueued_item_returned_once<T: HasLen>(
    q: FairQueueView<T>,
    packets: Seq<Data<T>>,
    arrivals: Seq<u64>,
    departures: Seq<u64>,
)
    requires
        q.well_formed(),
        packets.len() == arrivals.len(),
        departures.len() == total_items(q.flows) + packets.len(),
    ensures
        ({
            let (rs, end) = dequeue_many(enqueue_all(q, packets, arrivals), departures);
            &&& rs.len() == departures.len()
            &&& forall|k: int| 0 <= k < rs.len() ==> #[trigger] rs[k] is Some
            &&& served_bag(rs) == all_items(q.flows).add(bag(packets))
            &&& q.flows.len() == 0 ==> served_bag(rs) == bag(packets)
            &&& total_items(end.flows) == 0
        }),
{
    lemma_size_counts_enqueues(q, packets, arrivals);
    lemma_enqueue_all_items(q, packets, arrivals);
    lemma_drain_returns_each_once(enqueue_all(q, packets, arrivals), departures);
    if q.flows.len() == 0 {
        assert(all_items(q.flows).add(bag(packets)) =~= bag(packets));
    }
}

/// `r` is an item of `key`.
pub open spec fn serves<T: HasLen>(r: Option<Data<T>>, key: Seq<char>) -> bool {
    r is Some && (r->Some_0).id@ == key
}

/// One call on the scheduler in a run.
pub enum Step<T: HasLen> {
    Enqueue(Data<T>, u64),
    Dequeue(u64),
}

/// The results of the dequeues in `steps`, in order, and the scheduler
/// that the whole run leaves.
pub open spec fn run<T: HasLen>(q: FairQueueView<T>, steps: Seq<Step<T>>) -> (
    Seq<Option<Data<T>>>,
    FairQueueView<T>,
)
    decreases steps.len(),
{
    if steps.len() == 0 {
        (Seq::empty(), q)
    } else {
        let (rs, p) = run(q, steps.drop_last());
        match steps.last() {
            Step::Enqueue(packet, now) => (rs, enqueue_spec(p, packet, now)),
            Step::Dequeue(now) => {
                let (r, next) = dequeue_spec(p, now);
                (rs.push(r), next)
            },
        }
    }
}

/// The packets of `key` that `steps` enqueue, in order, unstamped.
pub open spec fn arrivals_of<T: HasLen>(steps: Seq<Step<T>>, key: Seq<char>) -> Seq<Data<T>>
    decreases steps.len(),
{
    if steps.len() == 0 {
        Seq::empty()
    } else {
        let rest = arrivals_of(steps.drop_last(), key);
        match steps.last() {
            Step::Enqueue(packet, _) => if packet.id@ == key {
                rest.push(unstamped(packet))
            } else {
                rest
            },
            Step::Dequeue(_) => rest,
        }
    }
}

/// The items of `key` among the results `rs`, in order, unstamped.
pub open spec fn departures_of<T: HasLen>(rs: Seq<Option<Data<T>>>, key: Seq<char>) -> Seq<Data<T>>
    decreases rs.len(),
{
    if rs.len() == 0 {
        Seq::empty()
    } else {
        let rest = departures_of(rs.drop_last(), key);
        match rs.last() {
            Some(x) => if x.id@ == key {
                rest.push(unstamped(x))
            } else {
                rest
            },
            None => rest,
        }
    }
}

pub open spec fn unstamped_all<T: HasLen>(s: Seq<Data<T>>) -> Seq<Data<T>> {
    s.map_values(|d: Data<T>| unstamped(d))
}

/// Per-key FIFO over any run of enqueues and dequeues, whatever other keys
/// do: the items of `key` that leave are, in order, a prefix of those that
/// waited at the start followed by those that arrived, and the rest still
/// wait in that order.
pub proof fn lemma_fifo_over_run<T: HasLen>(
    q: FairQueueView<T>,
    steps: Seq<Step<T>>,
    key: Seq<char>,
)
    requires
        q.well_formed(),
    ensures
        run(q, steps).1.well_formed(),
        unstamped_all(queue_of(q.flows, key)) + arrivals_of(steps, key) == departures_of(
            run(q, steps).0,
            key,
        ) + unstamped_all(queue_of(run(q, steps).1.flows, key)),
        departures_of(run(q, steps).0, key) == (unstamped_all(queue_of(q.flows, key))
            + arrivals_of(steps, key)).take(departures_of(run(q, steps).0, key).len() as int),
    decreases steps.len(),
{
    let prev = steps.drop_last();
    let before = unstamped_all(queue_of(q.flows, key)) + arrivals_of(steps, key);
    if steps.len() > 0 {
        lemma_fifo_over_run(q, prev, key);
        let (rs, p) = run(q, prev);
        let d0 = departures_of(rs, key);
        let w0 = unstamped_all(queue_of(p.flows, key));
        match steps.last() {
            Step::Enqueue(packet, now) => {
                lemma_enqueue_well_formed(p, packet, now);
                lemma_enqueue_appends_to_own_key(p, packet, now, key);
                let w1 = unstamped_all(queue_of(run(q, steps).1.flows, key));
                assert(run(q, steps).0 == rs);
                assert(run(q, steps).1 == enqueue_spec(p, packet, now));
                assert(d0 + w0 == unstamped_all(queue_of(q.flows, key)) + arrivals_of(prev, key));
                if packet.id@ == key {
                    assert(w1 =~= w0.push(unstamped(packet)));
                    let a0 = arrivals_of(prev, key);
                    assert(arrivals_of(steps, key) == a0.push(unstamped(packet)));
                    let u0 = unstamped_all(queue_of(q.flows, key));
                    assert(u0 + a0.push(unstamped(packet)) =~= (u0 + a0).push(unstamped(packet)));
                    assert((d0 + w0).push(unstamped(packet)) =~= d0 + w0.push(unstamped(packet)));
                    assert(before =~= d0 + w1);
                } else {
                    assert(arrivals_of(steps, key) == arrivals_of(prev, key));
                    assert(w1 == w0);
                    assert(before =~= d0 + w1);
                }
            },
            Step::Dequeue(now) => {
                lemma_dequeue_takes_one(p, now);
                lemma_dequeue_pops_own_key(p, now, key);
                let (r, next) = dequeue_spec(p, now);
                let all = rs.push(r);
                assert(all.drop_last() =~= rs);
                let w1 = unstamped_all(queue_of(next.flows, key));
                match r {
                    Some(x) => {
                        if x.id@ == key {
                            let h = queue_of(p.flows, key)[0];
                            assert(unstamped(x) == unstamped(h));
                            assert(w0 =~= seq![unstamped(h)] + w1);
                            assert(before =~= departures_of(all, key) + w1);
                        } else {
                            assert(before =~= departures_of(all, key) + w1);
                        }
                    },
                    None => {
                        assert(before =~= departures_of(all, key) + w1);
                    },
                }
            },
        }
    } else {
        assert(before =~= departures_of(run(q, steps).0, key) + unstamped_all(
            queue_of(run(q, steps).1.flows, key),
        ));
    }
    let d = departures_of(run(q, steps).0, key);
    assert(before.take(d.len() as int) =~= d);
}

/// A flow that was never served (it has no latency history) survives the
/// idle sweep unchanged under its key; so does any flow that is not idle.
pub proof fn lemma_sweep_keeps_active_flow<T: HasLen>(
    q: FairQueueView<T>,
    max_idle: u64,
    now: u64,
    i: int,
)
    requires
        q.well_formed(),
        0 <= i < q.flows.len(),
        q.flows[i].samples.len() == 0 || !is_idle(q.flows[i], now, max_idle),
    ensures
        find_flow(remove_idle_spec(q, max_idle, now).flows, q.flows[i].key) >= 0,
        remove_idle_spec(q, max_idle, now).flows[find_flow(
            remove_idle_spec(q, max_idle, now).flows,
            q.flows[i].key,
        )] == q.flows[i],
{
    let r = remove_idle_spec(q, max_idle, now).flows;
    lemma_reap_members(q.flows, now, max_idle);
    lemma_reap_keeps(q.flows, now, max_idle);
    assert(q.flows.contains(q.flows[i]));
    assert(r.contains(q.flows[i]));
    let m = choose|m: int| 0 <= m < r.len() && r[m] == q.flows[i];
    lemma_find_flow(r, q.flows[i].key);
}

/// A flow just charged for a served item (a deficit of at least one byte,
/// updated less than a billion seconds ago) is not served ahead of a
/// waiting flow whose deficit is zero, such as a key that has just arrived:
/// no flow can hold the scheduler by having queued first.
pub proof fn lemma_charged_flow_yields_to_fresh_one<T: HasLen>(
    q: FairQueueView<T>,
    now: u64,
    a: int,
    b: int,
)
    requires
        q.well_formed(),
        0 <= a < q.flows.len(),
        0 <= b < q.flows.len(),
        q.flows[b].queue.len() > 0,
        q.flows[b].deficit == 0,
        q.flows[a].deficit >= UNITS_PER_BYTE,
        elapsed(now, q.flows[a].last_update) < UNITS_PER_BYTE * NANOS_PER_SEC,
    ensures
        dequeue_spec(q, now).0 is Some,
        (dequeue_spec(q, now).0->Some_0).id@ != q.flows[a].key,
{
    let flows = age_all(q.flows, now);
    lemma_age_all(q.flows, now);
    lemma_pick(flows);
    let p = pick(flows);
    assert(flows[b].queue.len() > 0);
    lemma_pick_is_lowest(flows);
    assert(flows[b] == aged(q.flows[b], now));
    assert(flows[b].deficit == 0);
    if q.flows[a].queue.len() > 0 {
        lemma_charge_survives_decay(q.flows[a].deficit, elapsed(now, q.flows[a].last_update));
        assert(flows[a] == aged(q.flows[a], now));
        assert(flows[a].deficit >= 1);
    }
    assert(p != a);
    assert(flows[p].queue[0].id@ == flows[p].key) by {
        assert(q.flows[p].queue[0].id@ == q.flows[p].key);
    }
    assert(flows[p].key != q.flows[a].key);
}

/// A waiting flow that a dequeue does not serve keeps its items and its
/// update time, and, once two seconds have passed since that update, at
/// least halves its deficit. Repeated dequeues therefore bring its deficit
/// to zero, after which a flow charged for service cannot go ahead of it
/// (see [`lemma_charged_flow_yields_to_fresh_one`]).
pub proof fn lemma_unserved_flow_decays<T: HasLen>(q: FairQueueView<T>, now: u64, b: int)
    requires
        q.well_formed(),
        0 <= b < q.flows.len(),
        q.flows[b].queue.len() > 0,
        dequeue_spec(q, now).0 is Some,
        (dequeue_spec(q, now).0->Some_0).id@ != q.flows[b].key,
    ensures
        ({
            let after = dequeue_spec(q, now).1.flows;
            let k = find_flow(after, q.flows[b].key);
            &&& k >= 0
            &&& after[k].queue == q.flows[b].queue
            &&& after[k].last_update == q.flows[b].last_update
            &&& after[k].deficit <= q.flows[b].deficit
            &&& elapsed(now, q.flows[b].last_update) >= 2 * NANOS_PER_SEC ==> 2 * after[k].deficit
                <= q.flows[b].deficit
        }),
{
    let flows = age_all(q.flows, now);
    lemma_age_all(q.flows, now);
    lemma_pick(flows);
    let i = pick(flows);
    assert(i >= 0);
    let x = flows[i].queue[0];
    assert(x.id@ == flows[i].key) by {
        assert(q.flows[i].queue[0] == x);
    }
    assert(i != b);
    lemma_serve_keeps(q, now);
    let u = flows.update(i, serve_flow(flows[i], now, q.stats_interval));
    let served = FairQueueView { flows: u, ..q };
    assert(u[b] == flows[b]);
    assert(flows[b] == aged(q.flows[b], now));
    let d = q.flows[b].deficit as int;
    let e0 = elapsed(now, q.flows[b].last_update) as int;
    let n = NANOS_PER_SEC as int;
    let e = if e0 > n {
        e0
    } else {
        n
    };
    assert(d * n / e <= d * n / n) by {
        broadcast use vstd::arithmetic::div_mod::lemma_div_is_ordered_by_denominator;
    }
    assert(d * n / n == d) by {
        broadcast use vstd::arithmetic::div_mod::lemma_div_by_multiple;
    }
    if e0 >= 2 * n {
        assert(d * n / e <= d * n / (2 * n)) by {
            broadcast use vstd::arithmetic::div_mod::lemma_div_is_ordered_by_denominator;
        }
        assert(d * n / (2 * n) == d / 2) by {
            vstd::arithmetic::div_mod::lemma_div_denominator(d * n, n, 2);
            vstd::arithmetic::div_mod::lemma_div_by_multiple(d, n);
        }
        assert(2 * (d / 2) <= d) by {
            vstd::arithmetic::div_mod::lemma_fundamental_div_mod(d, 2);
        }
    }
    if sweep_due(q.idle_run, now, q.idle_duration) {
        assert(!is_idle(u[b], now, q.idle_duration));
        lemma_sweep_keeps_active_flow(served, q.idle_duration, now, b);
    } else {
        lemma_find_flow(u, q.flows[b].key);
    }
}

/// A deficit of at least one byte, updated less than a billion seconds
/// ago, does not decay to zero.
pub proof fn lemma_charge_survives_decay(d: u128, e: u64)
    requires
        d >= UNITS_PER_BYTE,
        e < UNITS_PER_BYTE * NANOS_PER_SEC,
    ensures
        decay(d, e) >= 1,
{
    let di = d as int;
    let n = NANOS_PER_SEC as int;
    let ee = if e > NANOS_PER_SEC {
        e as int
    } else {
        n
    };
    assert(di * n >= ee) by (nonlinear_arith)
        requires
            di >= 1_000_000_000,
            n == 1_000_000_000,
            ee < 1_000_000_000 * 1_000_000_000,
    ;
    assert(di * n / ee <= di) by {
        broadcast use vstd::arithmetic::div_mod::lemma_div_is_ordered_by_denominator;
        broadcast use vstd::arithmetic::div_mod::lemma_div_by_multiple;

        assert(di * n / ee <= di * n / n);
    }
    assert(di * n / ee >= 1) by {
        broadcast use vstd::arithmetic::div_mod::lemma_div_is_ordered;

        vstd::arithmetic::div_mod::lemma_div_by_self(ee);
        assert(ee / ee <= (di * n) / ee);
    }
}

/// The flow with `key` (meaningful when there is one).
pub open spec fn flow_of<T: HasLen>(flows: Seq<FlowView<T>>, key: Seq<char>) -> FlowView<T> {
    flows[find_flow(flows, key)]
}

/// Flow `kb` waits while flow `ka` is the only other flow with items, and
/// every item of `ka` has at least one byte and arrived no earlier than `t0`.
pub open spec fn two_flow_race<T: HasLen>(
    q: FairQueueView<T>,
    ka: Seq<char>,
    kb: Seq<char>,
    t0: u64,
) -> bool {
    &&& q.well_formed()
    &&& ka != kb
    &&& forall|i: int|
        0 <= i < q.flows.len() && q.flows[i].key != ka && q.flows[i].key != kb
            ==> #[trigger] q.flows[i].queue.len() == 0
    &&& find_flow(q.flows, kb) >= 0
    &&& flow_of(q.flows, kb).queue.len() > 0
    &&& forall|i: int, j: int|
        0 <= i < q.flows.len() && q.flows[i].key == ka && 0 <= j < q.flows[i].queue.len()
            ==> (#[trigger] q.flows[i].queue[j]).data.byte_len() >= 1
            && q.flows[i].queue[j].timestamp >= t0
}

/// Flow `ka`, if present, carries a deficit of at least one byte set from
/// a time no earlier than `t0`.
pub open spec fn charged<T: HasLen>(q: FairQueueView<T>, ka: Seq<char>, t0: u64) -> bool {
    forall|i: int|
        0 <= i < q.flows.len() && #[trigger] q.flows[i].key == ka ==> q.flows[i].deficit
            >= UNITS_PER_BYTE && q.flows[i].last_update >= t0
}

/// One dequeue in the race: it serves `kb` if `ka` is charged and `kb`'s
/// deficit is zero; otherwise it serves `ka`, leaves `ka` charged, and at
/// least halves `kb`'s deficit.
pub proof fn lemma_race_step<T: HasLen>(
    q: FairQueueView<T>,
    ka: Seq<char>,
    kb: Seq<char>,
    t0: u64,
    now: u64,
)
    requires
        two_flow_race(q, ka, kb, t0),
        elapsed(now, flow_of(q.flows, kb).last_update) >= 2 * NANOS_PER_SEC,
        now < t0 + UNITS_PER_BYTE * NANOS_PER_SEC,
    ensures
        dequeue_spec(q, now).0 is Some,
        charged(q, ka, t0) && flow_of(q.flows, kb).deficit == 0 ==> (dequeue_spec(
            q,
            now,
        ).0->Some_0).id@ == kb,
        (dequeue_spec(q, now).0->Some_0).id@ != kb ==> {
            let q2 = dequeue_spec(q, now).1;
            &&& two_flow_race(q2, ka, kb, t0)
            &&& charged(q2, ka, t0)
            &&& flow_of(q2.flows, kb).last_update == flow_of(q.flows, kb).last_update
            &&& 2 * flow_of(q2.flows, kb).deficit <= flow_of(q.flows, kb).deficit
        },
{
    let jb = find_flow(q.flows, kb);
    lemma_find_flow(q.flows, kb);
    let flows = age_all(q.flows, now);
    lemma_age_all(q.flows, now);
    lemma_pick(flows);
    assert(flows[jb].queue.len() > 0);
    let i = pick(flows);
    let x = flows[i].queue[0];
    assert(x.id@ == flows[i].key) by {
        assert(q.flows[i].queue[0] == x);
    }
    if charged(q, ka, t0) && flow_of(q.flows, kb).deficit == 0 {
        assert forall|j: int|
            0 <= j < q.flows.len() && j != jb && q.flows[j].queue.len() > 0 implies aged(
            q.flows[jb],
            now,
        ).deficit < #[trigger] aged(q.flows[j], now).deficit by {
            assert(q.flows[j].key != kb);
            assert(q.flows[j].key == ka);
            lemma_charge_survives_decay(
                q.flows[j].deficit,
                elapsed(now, q.flows[j].last_update),
            );
        }
        lemma_lowest_deficit_served(q, now, jb);
        assert(q.flows[jb].queue[0].id@ == kb);
    }
    if x.id@ != kb {
        lemma_unserved_flow_decays(q, now, jb);
        assert(q.flows[i].key == ka);
        lemma_serve_keeps(q, now);
        let f = serve_flow(flows[i], now, q.stats_interval);
        let u = flows.update(i, f);
        let served = FairQueueView { flows: u, ..q };
        let q2 = dequeue_spec(q, now).1;
        assert(q2 == sweep_spec(served, now));
        lemma_sweep_keeps(served, now);
        lemma_find_flow(u, kb);
        // Every flow left after the sweep is a flow of `u`.
        assert forall|m: int| 0 <= m < q2.flows.len() implies
            #[trigger] u.contains(q2.flows[m]) by {
            if sweep_due(q.idle_run, now, q.idle_duration) {
                lemma_reap_members(u, now, q.idle_duration);
                assert(q2.flows.contains(q2.flows[m]));
            } else {
                assert(u[m] == q2.flows[m]);
            }
        }
        assert forall|m: int|
            0 <= m < q2.flows.len() && q2.flows[m].key != ka && q2.flows[m].key != kb
                implies #[trigger] q2.flows[m].queue.len() == 0 by {
            assert(u.contains(q2.flows[m]));
            let c = choose|c: int| 0 <= c < u.len() && u[c] == q2.flows[m];
            assert(c != i);
        }
        assert forall|m: int, j: int|
            0 <= m < q2.flows.len() && q2.flows[m].key == ka && 0 <= j < q2.flows[m].queue.len()
                implies (#[trigger] q2.flows[m].queue[j]).data.byte_len() >= 1
                && q2.flows[m].queue[j].timestamp >= t0 by {
            assert(u.contains(q2.flows[m]));
            let c = choose|c: int| 0 <= c < u.len() && u[c] == q2.flows[m];
            if c == i {
                assert(q2.flows[m].queue[j] == q.flows[i].queue[j + 1]);
            } else {
                assert(q2.flows[m].queue[j] == q.flows[c].queue[j]);
            }
        }
        assert forall|m: int| 0 <= m < q2.flows.len() && #[trigger] q2.flows[m].key == ka implies
            q2.flows[m].deficit
            >= UNITS_PER_BYTE && q2.flows[m].last_update >= t0 by {
            assert(u.contains(q2.flows[m]));
            let c = choose|c: int| 0 <= c < u.len() && u[c] == q2.flows[m];
            if c != i {
                assert(u[c].key == q.flows[c].key);
                assert(q.flows[c].key == q.flows[i].key);
            }
            assert(x == q.flows[i].queue[0]);
            assert(x.data.byte_len() >= 1);
        }
    }
}

/// Repeated dequeues in the race, none of which serves `kb`: `ka` stays
/// charged and `kb`'s deficit is divided by two at each of them.
proof fn lemma_race_run<T: HasLen>(
    q: FairQueueView<T>,
    ka: Seq<char>,
    kb: Seq<char>,
    t0: u64,
    times: Seq<u64>,
)
    requires
        two_flow_race(q, ka, kb, t0),
        forall|k: int|
            0 <= k < times.len() ==> elapsed(#[trigger] times[k], flow_of(q.flows, kb).last_update)
                >= 2 * NANOS_PER_SEC && times[k] < t0 + UNITS_PER_BYTE * NANOS_PER_SEC,
    ensures
        (exists|k: int| 0 <= k < times.len() && #[trigger] serves(dequeue_many(q, times).0[k], kb))
            || {
            let qm = dequeue_many(q, times).1;
            &&& two_flow_race(qm, ka, kb, t0)
            &&& flow_of(qm.flows, kb).last_update == flow_of(q.flows, kb).last_update
            &&& flow_of(qm.flows, kb).deficit * pow2(times.len() as nat) <= flow_of(
                q.flows,
                kb,
            ).deficit
            &&& times.len() >= 1 ==> charged(qm, ka, t0)
        },
    decreases times.len(),
{
    if times.len() == 0 {
        vstd::arithmetic::power2::lemma2_to64();
    } else {
        let prev = times.drop_last();
        assert forall|k: int| 0 <= k < prev.len() implies elapsed(
            #[trigger] prev[k],
            flow_of(q.flows, kb).last_update,
        ) >= 2 * NANOS_PER_SEC && prev[k] < t0 + UNITS_PER_BYTE * NANOS_PER_SEC by {
            assert(prev[k] == times[k]);
        }
        lemma_race_run(q, ka, kb, t0, prev);
        lemma_dequeue_many_len(q, prev);
        let (rs, p) = dequeue_many(q, prev);
        let (r, next) = dequeue_spec(p, times.last());
        let all = rs.push(r);
        assert(dequeue_many(q, times).0 == all);
        if exists|k: int| 0 <= k < prev.len() && #[trigger] serves(rs[k], kb) {
            let k = choose|k: int| 0 <= k < prev.len() && #[trigger] serves(rs[k], kb);
            assert(all[k] == rs[k]);
            assert(serves(dequeue_many(q, times).0[k], kb));
        } else {
            let now = times.last();
            assert(now == times[times.len() - 1]);
            lemma_race_step(p, ka, kb, t0, now);
            if (r->Some_0).id@ == kb {
                assert(all[times.len() - 1] == r);
                assert(serves(dequeue_many(q, times).0[times.len() - 1], kb));
            } else {
                let m = times.len() as nat;
                vstd::arithmetic::power2::lemma_pow2_unfold(m);
                let db = flow_of(next.flows, kb).deficit as int;
                let dp = flow_of(p.flows, kb).deficit as int;
                let pw = pow2((m - 1) as nat) as int;
                assert(db * (2 * pw) <= dp * pw) by (nonlinear_arith)
                    requires
                        2 * db <= dp,
                        pw >= 0,
                ;
            }
        }
    }
}

/// A run of dequeues gives one result per dequeue.
pub proof fn lemma_dequeue_many_len<T: HasLen>(q: FairQueueView<T>, times: Seq<u64>)
    ensures
        dequeue_many(q, times).0.len() == times.len(),
    decreases times.len(),
{
    if times.len() > 0 {
        lemma_dequeue_many_len(q, times.drop_last());
    }
}

/// Fairness over time: a flow with a waiting item cannot be held back for
/// ever by another flow that keeps being served. In the race above, with
/// every dequeue at least two seconds after `kb`'s deficit was last set and
/// less than a billion seconds after `t0`, one of any 130 dequeues serves
/// `kb`.
pub proof fn lemma_waiting_flow_is_served<T: HasLen>(
    q: FairQueueView<T>,
    ka: Seq<char>,
    kb: Seq<char>,
    t0: u64,
    times: Seq<u64>,
)
    requires
        two_flow_race(q, ka, kb, t0),
        times.len() >= 130,
        forall|k: int|
            0 <= k < times.len() ==> elapsed(#[trigger] times[k], flow_of(q.flows, kb).last_update)
                >= 2 * NANOS_PER_SEC && times[k] < t0 + UNITS_PER_BYTE * NANOS_PER_SEC,
    ensures
        exists|k: int| 0 <= k < times.len() && #[trigger] serves(dequeue_many(q, times).0[k], kb),
{
    let prev = times.drop_last();
    assert forall|k: int| 0 <= k < prev.len() implies elapsed(
        #[trigger] prev[k],
        flow_of(q.flows, kb).last_update,
    ) >= 2 * NANOS_PER_SEC && prev[k] < t0 + UNITS_PER_BYTE * NANOS_PER_SEC by {
        assert(prev[k] == times[k]);
    }
    lemma_race_run(q, ka, kb, t0, prev);
    lemma_dequeue_many_len(q, prev);
    let (rs, p) = dequeue_many(q, prev);
    let (r, next) = dequeue_spec(p, times.last());
    let all = rs.push(r);
    assert(dequeue_many(q, times).0 == all);
    if exists|k: int| 0 <= k < prev.len() && #[trigger] serves(rs[k], kb) {
        let k = choose|k: int| 0 <= k < prev.len() && #[trigger] serves(rs[k], kb);
        assert(all[k] == rs[k]);
        assert(serves(dequeue_many(q, times).0[k], kb));
    } else {
        let m = prev.len() as nat;
        vstd::arithmetic::power2::lemma2_to64();
        vstd::arithmetic::power2::lemma_pow2_adds(64, 64);
        vstd::arithmetic::power2::lemma_pow2_adds(128, (m - 128) as nat);
        vstd::arithmetic::power2::lemma_pow2_pos((m - 128) as nat);
        let db = flow_of(p.flows, kb).deficit as int;
        let big = pow2(128) as int;
        let rest = pow2((m - 128) as nat) as int;
        assert(big > u128::MAX);
        assert(db == 0) by {
            if db >= 1 {
                assert(db * (big * rest) >= big) by (nonlinear_arith)
                    requires
                        db >= 1,
                        rest >= 1,
                        big >= 0,
                ;
            }
        }
        let now = times.last();
        assert(now == times[times.len() - 1]);
        lemma_race_step(p, ka, kb, t0, now);
        assert(all[times.len() - 1] == r);
        assert(serves(dequeue_many(q, times).0[times.len() - 1], kb));
    }
}

} // verus!
