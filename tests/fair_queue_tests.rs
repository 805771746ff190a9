use neutils::fair_queue::{Data, FairQueue, LatencySummary};

const SEC: u64 = 1_000_000_000;
const MS: u64 = 1_000_000;
/// Deficit units in one byte.
const BYTE: u128 = 1_000_000_000;

fn item(id: &str, payload: Vec<u8>, timestamp: u64) -> Data<Vec<u8>> {
    Data { id: id.to_string(), data: payload, timestamp, dequeue_time: None }
}

fn key(s: &str) -> String {
    s.to_string()
}

#[test]
fn test() {
    let destinations = ["A", "B", "C", "D", "E", "F", "G", "H", "I", "J"];
    let num_packets = 1000usize;
    let mut fq: FairQueue<Vec<u8>> = FairQueue::new(30 * SEC, 30 * SEC);
    for i in 0..num_packets {
        let dest = destinations[(i * 7 + i / 3) % destinations.len()];
        let payload: Vec<u8> = (0..100).map(|b| (b as usize + i) as u8).collect();
        fq.enqueue_at(item(dest, payload, 0), 0);
    }
    assert!(fq.size() == num_packets);
    let mut counter = 0usize;
    let mut t = 0u64;
    loop {
        t += MS;
        let p = fq.dequeue_at(t);
        if p.is_none() {
            break;
        }
        counter += 1;
    }
    assert!(counter == num_packets);
    assert!(fq.size() == 0);

    let later = t + 32 * SEC;
    fq.dequeue_at(later);
    assert!(fq.get_average_latency_at(later).len() == 0);
    assert!(fq.queue_sizes() == (0usize, 0usize, 0usize));
}

#[test]
fn size_counts_every_enqueue() {
    let mut fq: FairQueue<Vec<u8>> = FairQueue::new(SEC, SEC);
    for i in 0..25u64 {
        let k = ["x", "y", "z"][(i % 3) as usize];
        fq.enqueue_at(item(k, vec![0; i as usize], i), i);
        assert_eq!(fq.size(), (i + 1) as usize);
    }
    assert_eq!(fq.queue_sizes(), (3, 3, 0));
}

#[test]
fn drain_returns_each_item_once() {
    let mut fq: FairQueue<Vec<u8>> = FairQueue::new(60 * SEC, 60 * SEC);
    let keys = ["a", "b", "c", "d"];
    for i in 0..50u8 {
        fq.enqueue_at(item(keys[(i % 4) as usize], vec![i; 1 + (i % 5) as usize], 0), 0);
    }
    let mut seen = Vec::new();
    let mut t = 0u64;
    while let Some(d) = fq.dequeue_at(t) {
        assert_eq!(d.dequeue_time, Some(t));
        seen.push(d.data[0]);
        t += 10 * MS;
    }
    seen.sort();
    assert_eq!(seen, (0..50u8).collect::<Vec<u8>>());
    assert_eq!(fq.size(), 0);
    assert!(fq.dequeue_at(t).is_none());
}

#[test]
fn items_of_one_key_leave_in_arrival_order() {
    let mut fq: FairQueue<Vec<u8>> = FairQueue::new(60 * SEC, 60 * SEC);
    for i in 0..10u8 {
        fq.enqueue_at(item("A", vec![i; 50], i as u64), i as u64);
        fq.enqueue_at(item("B", vec![100 + i; 3], i as u64), i as u64);
    }
    let mut a = Vec::new();
    let mut b = Vec::new();
    let mut t = 0u64;
    while let Some(d) = fq.dequeue_at(t) {
        if d.id == "A" {
            a.push(d.data[0]);
        } else {
            b.push(d.data[0]);
        }
        t += 300 * MS;
    }
    assert_eq!(a, (0..10u8).collect::<Vec<u8>>());
    assert_eq!(b, (100..110u8).collect::<Vec<u8>>());
}

#[test]
fn idle_sweep_removes_only_cold_empty_flows() {
    let mut fq: FairQueue<Vec<u8>> = FairQueue::new(100 * SEC, 100 * SEC);
    fq.enqueue_at(item("cold", vec![1, 2, 3], 0), 0);
    let d = fq.dequeue_at(SEC).unwrap();
    assert_eq!(d.id, "cold");
    fq.enqueue_at(item("busy", vec![4], 2 * SEC), 2 * SEC);
    assert_eq!(fq.queue_sizes(), (2, 2, 1));

    // Not yet idle for longer than five seconds: kept.
    fq.remove_idle_destinations_at(5 * SEC, 6 * SEC);
    assert_eq!(fq.queue_sizes(), (2, 2, 1));

    // Idle for nine seconds: removed from every table at once.
    fq.remove_idle_destinations_at(5 * SEC, 10 * SEC);
    assert_eq!(fq.queue_sizes(), (1, 1, 0));
    assert_eq!(fq.deficit(&key("cold")), None);
    assert_eq!(fq.size(), 1);

    // A flow with a waiting item is never removed.
    fq.remove_idle_destinations_at(0, 1000 * SEC);
    assert_eq!(fq.queue_sizes(), (1, 1, 0));
}

#[test]
fn latency_report_drops_samples_outside_the_window() {
    let mut fq: FairQueue<Vec<u8>> = FairQueue::new(10 * SEC, 100 * SEC);
    fq.enqueue_at(item("K", vec![0; 40], SEC), SEC);
    fq.dequeue_at(SEC + 250 * MS).unwrap();

    let report = fq.get_average_latency_at(5 * SEC);
    assert_eq!(report.len(), 1);
    assert_eq!(report[0].0, "K");
    assert_eq!(
        report[0].1,
        LatencySummary { total_latency_ms: 250, total_bytes: 40, count: 1 }
    );

    let report = fq.get_average_latency_at(12 * SEC);
    assert!(report.is_empty());
    // The history itself stays until the idle sweep takes the flow.
    assert_eq!(fq.queue_sizes(), (1, 1, 1));
}

#[test]
fn drained_queue_forgets_every_flow() {
    let mut fq: FairQueue<Vec<u8>> = FairQueue::new(5 * SEC, 5 * SEC);
    for (i, k) in ["p", "q", "r"].iter().enumerate() {
        fq.enqueue_at(item(k, vec![1; 10], i as u64), i as u64);
    }
    let mut t = 10u64;
    while fq.dequeue_at(t).is_some() {
        t += MS;
    }
    assert_eq!(fq.queue_sizes(), (3, 3, 3));
    assert!(fq.dequeue_at(t + 6 * SEC).is_none());
    assert_eq!(fq.queue_sizes(), (0, 0, 0));
    assert!(fq.get_average_latency_at(t + 6 * SEC).is_empty());
}

#[test]
fn light_flow_overtakes_a_heavy_backlog() {
    let mut fq: FairQueue<Vec<u8>> = FairQueue::new(60 * SEC, 60 * SEC);
    for _ in 0..5 {
        fq.enqueue_at(item("A", vec![0; 1000], 0), 0);
    }
    assert_eq!(fq.dequeue_at(500 * MS).unwrap().id, "A");
    assert_eq!(fq.deficit(&key("A")), Some((1000 * BYTE, 0)));
    fq.enqueue_at(item("B", vec![0; 1], 600 * MS), 600 * MS);
    // A still carries 1000 after aging (less than a second old); B has 0.
    assert_eq!(fq.dequeue_at(700 * MS).unwrap().id, "B");
    assert_eq!(fq.dequeue_at(800 * MS).unwrap().id, "A");
}

#[test]
fn deficit_decay_matches_the_formula() {
    let mut fq: FairQueue<Vec<u8>> = FairQueue::new(60 * SEC, 60 * SEC);
    fq.enqueue_at(item("A", vec![0; 100], 0), 0);
    assert_eq!(fq.deficit(&key("A")), Some((0, 0)));
    fq.dequeue_at(0).unwrap();
    // decay(0) + 100 bytes, stamped with the item's arrival.
    assert_eq!(fq.deficit(&key("A")), Some((100 * BYTE, 0)));

    fq.enqueue_at(item("A", vec![0; 100], SEC), SEC);
    fq.dequeue_at(4 * SEC).unwrap();
    // Scan: 100 / 4 s = 25 bytes. Service: 25 / 3 s = 8.333333333, plus 100.
    assert_eq!(fq.deficit(&key("A")), Some((108_333_333_333, SEC)));
}

#[test]
fn scan_ages_waiting_flows_that_are_not_chosen() {
    let mut fq: FairQueue<Vec<u8>> = FairQueue::new(60 * SEC, 60 * SEC);
    fq.enqueue_at(item("A", vec![0; 90], 0), 0);
    fq.dequeue_at(0).unwrap();
    fq.enqueue_at(item("A", vec![0; 1], 0), 0);
    fq.enqueue_at(item("B", vec![0; 1], 0), 0);
    // At 3 s the scan decays A to 90 / 3 = 30 bytes; B (0) is served.
    assert_eq!(fq.dequeue_at(3 * SEC).unwrap().id, "B");
    assert_eq!(fq.deficit(&key("A")), Some((30 * BYTE, 0)));
}

#[test]
fn equal_deficits_go_to_the_first_flow() {
    let mut fq: FairQueue<Vec<u8>> = FairQueue::new(60 * SEC, 60 * SEC);
    fq.enqueue_at(item("first", vec![0; 5], 0), 0);
    fq.enqueue_at(item("second", vec![0; 5], 0), 0);
    assert_eq!(fq.dequeue_at(0).unwrap().id, "first");
}

#[test]
fn latency_is_whole_milliseconds_and_averages_round_down() {
    let mut fq: FairQueue<Vec<u8>> = FairQueue::new(60 * SEC, 60 * SEC);
    fq.enqueue_at(item("L", vec![0; 3], 0), 0);
    fq.enqueue_at(item("L", vec![0; 4], 0), 0);
    fq.dequeue_at(1000 * MS + 999_999).unwrap();
    fq.dequeue_at(2001 * MS).unwrap();
    let report = fq.get_average_latency_at(3 * SEC);
    assert_eq!(report.len(), 1);
    let summary = report[0].1;
    assert_eq!(summary, LatencySummary { total_latency_ms: 3001, total_bytes: 7, count: 2 });
    assert_eq!(summary.average_latency_ms(), 1500);
    let average = summary.total_latency_ms as f64 / summary.count as f64;
    assert!((average - 1500.5).abs() < 1e-9);
}

#[test]
fn empty_summary_averages_to_zero() {
    let summary = LatencySummary { total_latency_ms: 0, total_bytes: 0, count: 0 };
    assert_eq!(summary.average_latency_ms(), 0);
}

#[test]
fn dequeue_from_empty_queue_is_none() {
    let mut fq: FairQueue<Vec<u8>> = FairQueue::new(SEC, SEC);
    assert!(fq.dequeue_at(0).is_none());
    assert_eq!(fq.size(), 0);
    assert_eq!(fq.queue_sizes(), (0, 0, 0));
}

#[test]
fn prune_on_service_keeps_only_recent_samples() {
    let mut fq: FairQueue<Vec<u8>> = FairQueue::new(2 * SEC, 100 * SEC);
    fq.enqueue_at(item("W", vec![0; 1], 0), 0);
    fq.dequeue_at(0).unwrap();
    fq.enqueue_at(item("W", vec![0; 2], 5 * SEC), 5 * SEC);
    fq.dequeue_at(5 * SEC).unwrap();
    // Seen from the start of time the window would hold both; the first was
    // pruned when the second was recorded.
    let report = fq.get_average_latency_at(5 * SEC);
    assert_eq!(report[0].1, LatencySummary { total_latency_ms: 0, total_bytes: 2, count: 1 });
}

#[test]
fn clock_driven_calls_serve_items() {
    let mut fq: FairQueue<Vec<u8>> = FairQueue::new(60 * SEC, 60 * SEC);
    let t0 = fq.now();
    fq.enqueue(item("A", vec![1, 2], t0));
    fq.enqueue(item("B", vec![3], t0));
    assert_eq!(fq.size(), 2);
    let first = fq.dequeue().unwrap();
    let stamp = first.dequeue_time.unwrap();
    assert!(stamp >= t0);
    assert!(fq.now() >= stamp);
    assert!(fq.dequeue().is_some());
    assert!(fq.dequeue().is_none());
    assert_eq!(fq.get_average_latency().len(), 2);
    fq.remove_idle_destinations(1000 * SEC);
    assert_eq!(fq.queue_sizes(), (2, 2, 2));
}

#[test]
fn fractional_deficit_still_loses_to_zero() {
    let mut fq: FairQueue<Vec<u8>> = FairQueue::new(60 * SEC, 60 * SEC);
    fq.enqueue_at(item("A", vec![7], 0), 0);
    fq.enqueue_at(item("A", vec![8], 0), 0);
    fq.enqueue_at(item("B", vec![9], 0), 0);
    // A is first in order and both start at 0: A is served and charged 1 byte.
    assert_eq!(fq.dequeue_at(0).unwrap().data, vec![7]);
    assert_eq!(fq.deficit(&key("A")), Some((BYTE, 0)));
    // At 2 s A decays to half a byte, still above B's 0: B goes first.
    assert_eq!(fq.dequeue_at(2 * SEC).unwrap().id, "B");
    assert_eq!(fq.deficit(&key("A")), Some((BYTE / 2, 0)));
    assert_eq!(fq.dequeue_at(3 * SEC).unwrap().data, vec![8]);
}

#[test]
fn long_decay_keeps_sub_byte_precision() {
    let mut fq: FairQueue<Vec<u8>> = FairQueue::new(60 * SEC, 1000 * SEC);
    fq.enqueue_at(item("A", vec![0; 3], 0), 0);
    fq.dequeue_at(0).unwrap();
    fq.enqueue_at(item("A", vec![0; 1], 0), 0);
    fq.enqueue_at(item("B", vec![0; 1], 0), 0);
    // 3 bytes over 7 s is 0.428571428 bytes.
    assert_eq!(fq.dequeue_at(7 * SEC).unwrap().id, "B");
    assert_eq!(fq.deficit(&key("A")), Some((428_571_428, 0)));
}

#[test]
fn waiting_flow_decays_until_it_is_served_again() {
    let mut fq: FairQueue<Vec<u8>> = FairQueue::new(60 * SEC, 60 * SEC);
    fq.enqueue_at(item("B", vec![0; 8], 0), 0);
    fq.enqueue_at(item("B", vec![1; 8], 0), 0);
    for _ in 0..5 {
        fq.enqueue_at(item("A", vec![0; 1], 0), 0);
    }
    let mut order = Vec::new();
    for t in [0, 2 * SEC, 2 * SEC, 2 * SEC, 2 * SEC] {
        order.push(fq.dequeue_at(t).unwrap().id);
    }
    assert_eq!(order, vec!["B", "A", "A", "A", "B"]);
    // B was halved on each of the four later scans: 8 / 2^4 bytes.
    assert_eq!(fq.deficit(&key("B")).unwrap().1, 0);
}
