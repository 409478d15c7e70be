//! How often functions are applied, and what feeding comes to.
use carboxyl::network::Network;
use carboxyl::signal::Signal;
use carboxyl::stream::{snapshot, Sink, Stream};
use std::sync::atomic::{AtomicU32, Ordering};
use std::sync::Arc;

fn counter() -> (Arc<AtomicU32>, Arc<AtomicU32>) {
    let count = Arc::new(AtomicU32::new(0));
    (count.clone(), count)
}

fn calls(count: &Arc<AtomicU32>) -> u32 {
    count.load(Ordering::SeqCst)
}

#[test]
fn map_applies_its_function_once_per_event() {
    let mut net: Network = Network::new();
    let sink: Sink<i32> = Sink::new(&mut net);
    let (own, count) = counter();
    let mapped: Stream<i32> = sink.stream().map(&mut net, move |x: i32| {
        own.fetch_add(1, Ordering::SeqCst);
        x + 1
    });
    assert_eq!(calls(&count), 0);
    sink.send(&mut net, 5);
    assert_eq!(calls(&count), 1);
    let mut one = mapped.events(&mut net);
    let mut two = mapped.clone().events(&mut net);
    let doubled: Stream<i32> = mapped.map(&mut net, |x: i32| 2 * x);
    let mut three = doubled.events(&mut net);
    sink.send(&mut net, 6);
    assert_eq!(calls(&count), 2);
    assert_eq!(one.next(&mut net), Some(7));
    assert_eq!(two.next(&mut net), Some(7));
    assert_eq!(three.next(&mut net), Some(14));
}

#[test]
fn filters_apply_their_functions_once_per_event() {
    let mut net: Network = Network::new();
    let sink: Sink<i32> = Sink::new(&mut net);
    let (own, tests) = counter();
    let even: Stream<i32> = sink.stream().filter(&mut net, move |x: &i32| {
        own.fetch_add(1, Ordering::SeqCst);
        x % 2 == 0
    });
    let (own, choices) = counter();
    let halves: Stream<i32> = sink.stream().filter_map(&mut net, move |x: i32| {
        own.fetch_add(1, Ordering::SeqCst);
        if x % 2 == 0 {
            Some(x / 2)
        } else {
            None
        }
    });
    let mut evens = even.events(&mut net);
    let mut halved = halves.events(&mut net);
    sink.feed(&mut net, 1..5);
    assert_eq!((calls(&tests), calls(&choices)), (4, 4));
    assert_eq!(evens.next(&mut net), Some(2));
    assert_eq!(evens.next(&mut net), Some(4));
    assert_eq!(halved.next(&mut net), Some(1));
    assert_eq!(halved.next(&mut net), Some(2));
}

#[test]
fn snapshots_apply_their_function_once_per_event() {
    let mut net: Network = Network::new();
    let sink: Sink<i32> = Sink::new(&mut net);
    let ten: Signal<i32> = Signal::new(&mut net, 10);
    let (own, count) = counter();
    let snaps: Stream<i32> = snapshot(&mut net, &ten, &sink.stream(), move |a: i32, b: i32| {
        own.fetch_add(1, Ordering::SeqCst);
        a - b
    });
    let mut events = snaps.events(&mut net);
    sink.feed(&mut net, 1..4);
    assert_eq!(calls(&count), 3);
    assert_eq!(events.next(&mut net), Some(9));
    assert_eq!(events.next(&mut net), Some(8));
    assert_eq!(events.next(&mut net), Some(7));
}

#[test]
fn accumulators_are_updated_once_per_event() {
    let mut net: Network = Network::new();
    let sink: Sink<i32> = Sink::new(&mut net);
    let (own, count) = counter();
    let state = sink.stream().scan_mut(&mut net, 1, move |a: i32, b: i32| {
        own.fetch_add(1, Ordering::SeqCst);
        a * b
    });
    let scanned: Signal<i32> = sink.stream().scan(&mut net, 1, |a: i32, b: i32| a * b);
    let unit: Signal<()> = Signal::new(&mut net, ());
    let read: Signal<i32> = state.combine(&mut net, &unit, |a: &i32, _: ()| *a);
    sink.feed(&mut net, 2..5);
    assert_eq!(calls(&count), 3);
    assert_eq!(read.sample(&mut net), 24);
    assert_eq!(scanned.sample(&mut net), 24);
    let other: Sink<i32> = Sink::new(&mut net);
    other.send(&mut net, 9);
    sink.send(&mut net, 5);
    assert_eq!(read.sample(&mut net), scanned.sample(&mut net));
}

#[test]
fn never_is_neutral_and_applies_nothing() {
    let mut net: Network = Network::new();
    let sink: Sink<i32> = Sink::new(&mut net);
    let never: Stream<i32> = Stream::never(&mut net);
    let (own, count) = counter();
    let mapped: Stream<i32> = never.map(&mut net, move |x: i32| {
        own.fetch_add(1, Ordering::SeqCst);
        x
    });
    let held: Signal<i32> = never.hold(&mut net, 8);
    let mut on_left = never.merge(&mut net, &sink.stream()).events(&mut net);
    let mut on_right = sink.stream().merge(&mut net, &never).events(&mut net);
    let mut silence = mapped.events(&mut net);
    sink.feed(&mut net, 1..3);
    assert_eq!(held.sample(&mut net), 8);
    assert_eq!(calls(&count), 0);
    assert_eq!(silence.try_next(&mut net), None);
    assert_eq!((on_left.next(&mut net), on_left.next(&mut net)), (Some(1), Some(2)));
    assert_eq!((on_right.next(&mut net), on_right.next(&mut net)), (Some(1), Some(2)));
    assert_eq!(on_left.try_next(&mut net), None);
}

#[test]
fn feeding_in_parts_or_at_once() {
    let mut net: Network = Network::new();
    let at_once: Sink<i32> = Sink::new(&mut net);
    let in_parts: Sink<i32> = Sink::new(&mut net);
    let one_by_one: Sink<i32> = Sink::new(&mut net);
    let step = |a: i32, b: i32| 10 * a + b;
    let first: Signal<i32> = at_once.stream().scan(&mut net, 0, step);
    let second: Signal<i32> = in_parts.stream().scan(&mut net, 0, step);
    let third: Signal<i32> = one_by_one.stream().scan(&mut net, 0, step);
    at_once.feed(&mut net, (1..3).chain(3..5));
    in_parts.feed(&mut net, 1..3);
    in_parts.feed(&mut net, 0..0);
    in_parts.feed(&mut net, 3..5);
    one_by_one.send(&mut net, 1);
    one_by_one.send(&mut net, 2);
    one_by_one.send(&mut net, 3);
    one_by_one.send(&mut net, 4);
    assert_eq!(first.sample(&mut net), 1234);
    assert_eq!(second.sample(&mut net), 1234);
    assert_eq!(third.sample(&mut net), 1234);
}

#[test]
fn merges_of_switches_on_different_sinks() {
    let mut net: Network = Network::new();
    let one: Sink<i32> = Sink::new(&mut net);
    let two: Sink<i32> = Sink::new(&mut net);
    let streams: Sink<Stream<i32>> = Sink::new(&mut net);
    let switch = streams.stream().switch(&mut net);
    let plain = two.stream();
    let mut there = switch.merge(&mut net, &plain).events(&mut net);
    let mut back = plain.merge(&mut net, &switch).events(&mut net);
    streams.send(&mut net, one.stream());
    one.send(&mut net, 1);
    two.send(&mut net, 2);
    one.send(&mut net, 3);
    for expected in 1..4 {
        assert_eq!(there.next(&mut net), Some(expected));
        assert_eq!(back.next(&mut net), Some(expected));
    }
}

#[test]
fn everything_is_up_to_date_when_sending_is_done() {
    let mut net: Network = Network::new();
    let sink: Sink<i32> = Sink::new(&mut net);
    let doubled: Stream<i32> = sink.stream().map(&mut net, |x: i32| 2 * x);
    let mut events = doubled.events(&mut net);
    let held: Signal<i32> = doubled.hold(&mut net, 0);
    let sum: Signal<i32> = doubled.scan(&mut net, 0, |a: i32, b: i32| a + b);
    let product = doubled.scan_mut(&mut net, 1, |a: i32, b: i32| a * b);
    let read: Signal<i32> = product.combine(&mut net, &held, |a: &i32, b: i32| 100 * *a + b);
    sink.send(&mut net, 2);
    sink.send(&mut net, 3);
    assert_eq!(held.sample(&mut net), 6);
    assert_eq!(sum.sample(&mut net), 10);
    assert_eq!(read.sample(&mut net), 2406);
    assert_eq!(events.next(&mut net), Some(4));
    sink.send(&mut net, 1);
    assert_eq!(events.next(&mut net), Some(6));
    assert_eq!(events.next(&mut net), Some(2));
    assert_eq!(events.try_next(&mut net), None);
}
