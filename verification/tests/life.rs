//! What lives and what ends.
use carboxyl::network::Network;
use carboxyl::signal::Signal;
use carboxyl::stream::{snapshot, Sink, Stream};
use std::sync::atomic::{AtomicU32, Ordering};
use std::sync::Arc;

/// A function that counts how often it is applied, and the count.
fn counting(add: i32) -> (impl Fn(i32) -> i32 + Send + Sync + 'static, Arc<AtomicU32>) {
    let count = Arc::new(AtomicU32::new(0));
    let own = count.clone();
    let f = move |x: i32| {
        own.fetch_add(1, Ordering::SeqCst);
        x + add
    };
    (f, count)
}

fn calls(count: &Arc<AtomicU32>) -> u32 {
    count.load(Ordering::SeqCst)
}

#[test]
fn a_released_stream_applies_its_function_no_more() {
    let mut net: Network = Network::new();
    let sink: Sink<i32> = Sink::new(&mut net);
    let (f, count) = counting(3);
    let mapped: Stream<i32> = sink.stream().map(&mut net, f);
    sink.send(&mut net, 1);
    assert_eq!(calls(&count), 1);
    mapped.release(&mut net);
    sink.send(&mut net, 1);
    assert_eq!(calls(&count), 1);
    assert!(!net.is_poisoned());
}

#[test]
fn what_has_ended_lets_go_of_its_function() {
    let mut net: Network = Network::new();
    let sink: Sink<i32> = Sink::new(&mut net);
    let (f, count) = counting(3);
    let mapped: Stream<i32> = sink.stream().map(&mut net, f);
    assert_eq!(Arc::strong_count(&count), 2);
    mapped.release(&mut net);
    sink.send(&mut net, 1);
    assert_eq!(Arc::strong_count(&count), 1);
}

#[test]
fn a_listener_keeps_what_it_listens_to() {
    let mut net: Network = Network::new();
    let sink: Sink<i32> = Sink::new(&mut net);
    let (f, count) = counting(3);
    let mapped: Stream<i32> = sink.stream().map(&mut net, f);
    let mut events = mapped.events(&mut net);
    mapped.release(&mut net);
    sink.send(&mut net, 1);
    assert_eq!(events.next(&mut net), Some(4));
    assert_eq!(calls(&count), 1);
    events.close(&mut net);
    sink.send(&mut net, 1);
    assert_eq!(calls(&count), 1);
}

#[test]
fn a_derived_stream_keeps_what_it_is_made_of() {
    let mut net: Network = Network::new();
    let sink: Sink<i32> = Sink::new(&mut net);
    let (f, count_f) = counting(3);
    let (g, count_g) = counting(10);
    let first: Stream<i32> = sink.stream().map(&mut net, f);
    let second: Stream<i32> = first.map(&mut net, g);
    first.release(&mut net);
    sink.send(&mut net, 1);
    assert_eq!((calls(&count_f), calls(&count_g)), (1, 1));
    second.release(&mut net);
    sink.send(&mut net, 1);
    assert_eq!((calls(&count_f), calls(&count_g)), (1, 1));
}

#[test]
fn one_of_two_derived_streams_is_released() {
    let mut net: Network = Network::new();
    let sink: Sink<i32> = Sink::new(&mut net);
    let (f, count_f) = counting(3);
    let (g, count_g) = counting(10);
    let one: Stream<i32> = sink.stream().map(&mut net, f);
    let two: Stream<i32> = sink.stream().map(&mut net, g);
    let mut events = two.events(&mut net);
    one.release(&mut net);
    sink.send(&mut net, 1);
    assert_eq!((calls(&count_f), calls(&count_g)), (0, 1));
    assert_eq!(events.next(&mut net), Some(11));
}

#[test]
fn merge_keeps_both_streams() {
    let mut net: Network = Network::new();
    let one: Sink<i32> = Sink::new(&mut net);
    let two: Sink<i32> = Sink::new(&mut net);
    let (f, count_f) = counting(1);
    let (g, count_g) = counting(2);
    let left: Stream<i32> = one.stream().map(&mut net, f);
    let right: Stream<i32> = two.stream().map(&mut net, g);
    let merged = left.merge(&mut net, &right);
    left.release(&mut net);
    right.release(&mut net);
    let mut events = merged.events(&mut net);
    one.send(&mut net, 10);
    two.send(&mut net, 20);
    assert_eq!(events.next(&mut net), Some(11));
    assert_eq!(events.next(&mut net), Some(22));
    events.close(&mut net);
    merged.release(&mut net);
    one.send(&mut net, 10);
    two.send(&mut net, 20);
    assert_eq!((calls(&count_f), calls(&count_g)), (1, 1));
}

#[test]
fn filters_end_as_a_whole() {
    let mut net: Network = Network::new();
    let sink: Sink<i32> = Sink::new(&mut net);
    let (f, count) = counting(0);
    let even: Stream<i32> = sink.stream().filter_map(&mut net, move |x: i32| {
        let y = f(x);
        if y % 2 == 0 {
            Some(y)
        } else {
            None
        }
    });
    sink.feed(&mut net, 0..3);
    assert_eq!(calls(&count), 3);
    even.release(&mut net);
    sink.feed(&mut net, 0..3);
    assert_eq!(calls(&count), 3);
}

#[test]
fn a_signal_keeps_the_stream_that_it_holds() {
    let mut net: Network = Network::new();
    let sink: Sink<i32> = Sink::new(&mut net);
    let (f, count) = counting(3);
    let mapped: Stream<i32> = sink.stream().map(&mut net, f);
    let held = mapped.hold(&mut net, 0);
    mapped.release(&mut net);
    sink.send(&mut net, 1);
    assert_eq!(held.sample(&mut net), 4);
    held.release(&mut net);
    sink.send(&mut net, 1);
    assert_eq!(calls(&count), 1);
}

#[test]
fn a_released_scan_accumulates_no_more() {
    let mut net: Network = Network::new();
    let sink: Sink<i32> = Sink::new(&mut net);
    let (f, count) = counting(0);
    let sum: Signal<i32> = sink.stream().scan(&mut net, 0, move |a: i32, b: i32| a + f(b));
    sink.feed(&mut net, 1..3);
    assert_eq!(sum.sample(&mut net), 3);
    sum.release(&mut net);
    sink.feed(&mut net, 1..3);
    assert_eq!(calls(&count), 2);
}

#[test]
fn a_combination_keeps_its_signals() {
    let mut net: Network = Network::new();
    let sink: Sink<i32> = Sink::new(&mut net);
    let (f, count) = counting(0);
    let state = sink.stream().scan_mut(&mut net, 0, move |a: i32, b: i32| a + f(b));
    let ten: Signal<i32> = Signal::new(&mut net, 10);
    let sum: Signal<i32> = state.combine(&mut net, &ten, |a: &i32, b: i32| *a + b);
    state.release(&mut net);
    ten.release(&mut net);
    sink.feed(&mut net, 1..3);
    assert_eq!(sum.sample(&mut net), 13);
    sum.release(&mut net);
    sink.feed(&mut net, 1..3);
    assert_eq!(calls(&count), 2);
}

#[test]
fn a_combination_that_has_ended_lets_go_of_its_function() {
    let mut net: Network = Network::new();
    let sink: Sink<i32> = Sink::new(&mut net);
    let (f, count) = counting(3);
    let state = sink.stream().scan_mut(&mut net, 1, |a: i32, b: i32| a + b);
    let ten: Signal<i32> = Signal::new(&mut net, 10);
    let sum: Signal<i32> = state.combine(&mut net, &ten, move |a: &i32, b: i32| f(*a) + b);
    assert_eq!(sum.sample(&mut net), 14);
    assert_eq!(Arc::strong_count(&count), 2);
    sum.release(&mut net);
    assert_eq!(Arc::strong_count(&count), 1);
    sink.send(&mut net, 5);
    assert!(!net.is_poisoned());
    assert_eq!(ten.sample(&mut net), 10);
}

#[test]
fn a_snapshot_keeps_its_signal() {
    let mut net: Network = Network::new();
    let values: Sink<i32> = Sink::new(&mut net);
    let ticks: Sink<()> = Sink::new(&mut net);
    let (f, count) = counting(1);
    let images: Stream<i32> = values.stream().map(&mut net, f);
    let held = images.hold(&mut net, 0);
    let snaps: Stream<i32> = snapshot(&mut net, &held, &ticks.stream(), |x: i32, _: ()| x);
    images.release(&mut net);
    held.release(&mut net);
    let mut events = snaps.events(&mut net);
    values.send(&mut net, 4);
    ticks.send(&mut net, ());
    assert_eq!(events.next(&mut net), Some(5));
    events.close(&mut net);
    snaps.release(&mut net);
    values.send(&mut net, 4);
    assert_eq!(calls(&count), 1);
}

#[test]
fn a_switch_keeps_what_it_follows() {
    let mut net: Network = Network::new();
    let streams: Sink<Stream<i32>> = Sink::new(&mut net);
    let sink: Sink<i32> = Sink::new(&mut net);
    let switched = streams.stream().switch(&mut net);
    let mut events = switched.events(&mut net);
    let (f, count) = counting(3);
    let mapped: Stream<i32> = sink.stream().map(&mut net, f);
    streams.send(&mut net, mapped.clone());
    mapped.release(&mut net);
    sink.send(&mut net, 1);
    assert_eq!(events.next(&mut net), Some(4));
    assert_eq!(calls(&count), 1);
    // Once it follows another stream, nothing rests on the first one.
    streams.send(&mut net, sink.stream());
    sink.send(&mut net, 2);
    assert_eq!(events.next(&mut net), Some(2));
    assert_eq!(calls(&count), 1);
    assert!(!net.is_poisoned());
}

#[test]
fn a_released_switch_follows_nothing() {
    let mut net: Network = Network::new();
    let streams: Sink<Stream<i32>> = Sink::new(&mut net);
    let sink: Sink<i32> = Sink::new(&mut net);
    let switched = streams.stream().switch(&mut net);
    let (f, count) = counting(3);
    let mapped: Stream<i32> = sink.stream().map(&mut net, f);
    streams.send(&mut net, mapped.clone());
    mapped.release(&mut net);
    sink.send(&mut net, 1);
    assert_eq!(calls(&count), 1);
    switched.release(&mut net);
    sink.send(&mut net, 1);
    assert_eq!(calls(&count), 1);
}

#[test]
fn the_stream_of_a_released_sink() {
    let mut net: Network = Network::new();
    let sink: Sink<i32> = Sink::new(&mut net);
    let stream = sink.stream();
    let copy = stream.clone();
    sink.release(&mut net);
    assert!(copy.belongs(&net));
    stream.release(&mut net);
    assert!(!copy.belongs(&net));
}

#[test]
fn a_sink_goes_on_without_a_handle_of_its_stream() {
    let mut net: Network = Network::new();
    let sink: Sink<i32> = Sink::new(&mut net);
    sink.stream().release(&mut net);
    let held = sink.stream().hold(&mut net, 0);
    sink.send(&mut net, 6);
    assert_eq!(held.sample(&mut net), 6);
}
