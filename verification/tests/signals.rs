//! Signals: hold, scan, combine and snapshots.
use carboxyl::network::Network;
use carboxyl::signal::Signal;
use carboxyl::stream::{snapshot, Sink, Stream};

#[test]
fn hold_the_last_event() {
    let mut net: Network = Network::new();
    let sink: Sink<i32> = Sink::new(&mut net);
    let signal = sink.stream().hold(&mut net, 0);
    assert_eq!(signal.sample(&mut net), 0);
    sink.send(&mut net, 2);
    assert_eq!(signal.sample(&mut net), 2);
    sink.feed(&mut net, 3..6);
    assert_eq!(signal.sample(&mut net), 5);
}

#[test]
fn hold_of_a_stream_with_a_past() {
    let mut net: Network = Network::new();
    let sink: Sink<i32> = Sink::new(&mut net);
    sink.send(&mut net, 7);
    let signal = sink.stream().hold(&mut net, 1);
    assert_eq!(signal.sample(&mut net), 1);
}

#[test]
fn scan_sums_up() {
    let mut net: Network = Network::new();
    let sink: Sink<i32> = Sink::new(&mut net);
    let sum: Signal<i32> = sink.stream().scan(&mut net, 0, |a: i32, b: i32| a + b);
    assert_eq!(sum.sample(&mut net), 0);
    sink.send(&mut net, 2);
    assert_eq!(sum.sample(&mut net), 2);
    sink.send(&mut net, 4);
    assert_eq!(sum.sample(&mut net), 6);
}

#[test]
fn scan_mut_sums_up() {
    let mut net: Network = Network::new();
    let sink: Sink<i32> = Sink::new(&mut net);
    let state = sink.stream().scan_mut(&mut net, 0, |sum: i32, a: i32| sum + a);
    let unit: Signal<()> = Signal::new(&mut net, ());
    let sum: Signal<i32> = state.combine(&mut net, &unit, |sum: &i32, _: ()| *sum);
    assert_eq!(sum.sample(&mut net), 0);
    sink.send(&mut net, 2);
    assert_eq!(sum.sample(&mut net), 2);
    sink.send(&mut net, 4);
    assert_eq!(sum.sample(&mut net), 6);
}

#[test]
fn scan_and_scan_mut_agree() {
    let mut net: Network = Network::new();
    let sink: Sink<i64> = Sink::new(&mut net);
    let f = |acc: i64, x: i64| 3 * acc - x;
    let scanned: Signal<i64> = sink.stream().scan(&mut net, 1, f);
    let state = sink.stream().scan_mut(&mut net, 1, f);
    let unit: Signal<()> = Signal::new(&mut net, ());
    let plain: Signal<i64> = state.combine(&mut net, &unit, |acc: &i64, _: ()| *acc);
    let mut expected: i64 = 1;
    for x in 0..8 {
        sink.send(&mut net, x);
        expected = 3 * expected - x;
        assert_eq!(scanned.sample(&mut net), expected);
        assert_eq!(plain.sample(&mut net), expected);
    }
}

#[test]
fn scan_over_an_accumulator_of_another_type() {
    let mut net: Network = Network::new();
    let sink: Sink<i32> = Sink::new(&mut net);
    let pair: Signal<(i32, Option<i32>)> = sink.stream().scan(
        &mut net,
        (0, None),
        |acc: (i32, Option<i32>), x: i32| (acc.0 + 1, Some(x)),
    );
    sink.feed(&mut net, 10..13);
    assert_eq!(pair.sample(&mut net), (3, Some(12)));
}

#[test]
fn constant_signal() {
    let mut net: Network = Network::new();
    let sink: Sink<i32> = Sink::new(&mut net);
    let five: Signal<i32> = Signal::new(&mut net, 5);
    sink.send(&mut net, 1);
    assert_eq!(five.sample(&mut net), 5);
    assert_eq!(five.clone().sample(&mut net), 5);
}

#[test]
fn combine_is_taken_anew_at_every_sample() {
    let mut net: Network = Network::new();
    let sink: Sink<i32> = Sink::new(&mut net);
    let factor: Sink<i32> = Sink::new(&mut net);
    let state = sink.stream().scan_mut(&mut net, 0, |sum: i32, a: i32| sum + a);
    let times = factor.stream().hold(&mut net, 2);
    let product: Signal<i32> = state.combine(&mut net, &times, |sum: &i32, t: i32| *sum * t);
    assert_eq!(product.sample(&mut net), 0);
    sink.send(&mut net, 3);
    assert_eq!(product.sample(&mut net), 6);
    factor.send(&mut net, 5);
    assert_eq!(product.sample(&mut net), 15);
}

#[test]
fn snapshot_of_a_held_value() {
    let mut net: Network = Network::new();
    let values: Sink<i32> = Sink::new(&mut net);
    let ticks: Sink<()> = Sink::new(&mut net);
    let held = values.stream().hold(&mut net, 1);
    let snaps: Stream<i32> =
        snapshot(&mut net, &held, &ticks.stream(), |x: i32, _: ()| 10 * x);
    let mut events = snaps.events(&mut net);
    ticks.send(&mut net, ());
    values.send(&mut net, 4);
    assert_eq!(events.next(&mut net), Some(10));
    assert_eq!(events.try_next(&mut net), None);
    ticks.send(&mut net, ());
    ticks.send(&mut net, ());
    assert_eq!(events.next(&mut net), Some(40));
    assert_eq!(events.next(&mut net), Some(40));
    assert_eq!(events.try_next(&mut net), None);
}

#[test]
fn snapshot_of_the_stream_that_is_held() {
    let mut net: Network = Network::new();
    let sink: Sink<i32> = Sink::new(&mut net);
    let stream = sink.stream();
    let held = stream.hold(&mut net, 0);
    let pairs: Stream<(i32, i32)> = snapshot(&mut net, &held, &stream, |x: i32, y: i32| (x, y));
    let mut events = pairs.events(&mut net);
    sink.feed(&mut net, 1..5);
    // The value is that of before the event, or that of after it.
    for n in 1..5 {
        let (x, y) = events.next(&mut net).unwrap();
        assert_eq!(y, n);
        assert!(x == n || x == n - 1);
    }
    assert_eq!(events.try_next(&mut net), None);
}

#[test]
fn snapshot_of_a_constant_maps() {
    let mut net: Network = Network::new();
    let sink: Sink<i32> = Sink::new(&mut net);
    let five: Signal<i32> = Signal::new(&mut net, 5);
    let snaps: Stream<i32> = snapshot(&mut net, &five, &sink.stream(), |c: i32, x: i32| c - x);
    let images: Stream<i32> = sink.stream().map(&mut net, |x: i32| 5 - x);
    let mut a = snaps.events(&mut net);
    let mut b = images.events(&mut net);
    sink.feed(&mut net, 0..3);
    for n in 0..3 {
        assert_eq!(a.next(&mut net), Some(5 - n));
        assert_eq!(b.next(&mut net), Some(5 - n));
    }
}

#[test]
fn snapshot_of_a_value_that_changes_between_two_events_of_a_transaction() {
    let mut net: Network = Network::new();
    let sink: Sink<i32> = Sink::new(&mut net);
    let stream = sink.stream();
    let count: Signal<i32> = stream.scan(&mut net, 0, |n: i32, _: i32| n + 1);
    let twice = stream.merge(&mut net, &stream);
    let total: Signal<i32> = twice.scan(&mut net, 0, |n: i32, _: i32| n + 1);
    let seen: Stream<i32> = snapshot(&mut net, &total, &twice, |n: i32, _: i32| n);
    let mut events = seen.events(&mut net);
    sink.send(&mut net, 8);
    let first = events.next(&mut net).unwrap();
    let second = events.next(&mut net).unwrap();
    assert_eq!(second, first + 1);
    assert_eq!(count.sample(&mut net), 1);
    assert_eq!(total.sample(&mut net), 2);
}

#[test]
fn snapshot_of_a_combination() {
    let mut net: Network = Network::new();
    let sink: Sink<i32> = Sink::new(&mut net);
    let ticks: Sink<i32> = Sink::new(&mut net);
    let state = sink.stream().scan_mut(&mut net, 1, |acc: i32, a: i32| acc * a);
    let ten: Signal<i32> = Signal::new(&mut net, 10);
    let sum: Signal<i32> = state.combine(&mut net, &ten, |acc: &i32, t: i32| *acc + t);
    let snaps: Stream<i32> = snapshot(&mut net, &sum, &ticks.stream(), |x: i32, y: i32| x - y);
    let mut events = snaps.events(&mut net);
    sink.feed(&mut net, 2..5);
    ticks.send(&mut net, 1);
    assert_eq!(events.next(&mut net), Some(33));
}

#[test]
fn a_function_may_count_its_calls() {
    let mut net: Network = Network::new();
    let sink: Sink<u32> = Sink::new(&mut net);
    let calls = std::sync::atomic::AtomicU32::new(0);
    let counted: Stream<u32> = sink.stream().map(&mut net, move |_: u32| {
        calls.fetch_add(1, std::sync::atomic::Ordering::SeqCst)
    });
    let mut events = counted.events(&mut net);
    sink.send(&mut net, 9);
    sink.send(&mut net, 9);
    assert_eq!(events.next(&mut net), Some(0));
    assert_eq!(events.next(&mut net), Some(1));
}
