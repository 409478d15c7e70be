//! Streams that are carried as values: what keeps them alive, and what does not.
use carboxyl::network::Network;
use carboxyl::signal::Signal;
use carboxyl::stream::{snapshot, Sink, Stream};
use std::sync::atomic::{AtomicU32, Ordering};
use std::sync::Arc;

/// A stream of the events of a sink plus three, and how often that was computed.
fn counted(net: &mut Network, sink: &Sink<i32>) -> (Stream<i32>, Arc<AtomicU32>) {
    let count = Arc::new(AtomicU32::new(0));
    let own = count.clone();
    let stream = sink.stream().map(net, move |x: i32| {
        own.fetch_add(1, Ordering::SeqCst);
        x + 3
    });
    (stream, count)
}

fn calls(count: &Arc<AtomicU32>) -> u32 {
    count.load(Ordering::SeqCst)
}

#[test]
fn a_signal_keeps_the_stream_that_is_its_value() {
    let mut net: Network = Network::new();
    let sink: Sink<i32> = Sink::new(&mut net);
    let streams: Sink<Stream<i32>> = Sink::new(&mut net);
    let (mapped, count) = counted(&mut net, &sink);
    let held: Signal<Stream<i32>> = streams.stream().hold(&mut net, mapped.clone());
    let switch = streams.stream().switch(&mut net);
    let mut events = switch.events(&mut net);
    mapped.release(&mut net);
    sink.send(&mut net, 1);
    assert_eq!(calls(&count), 1);
    let copy = held.sample(&mut net);
    streams.send(&mut net, copy);
    assert!(!net.is_poisoned());
    sink.send(&mut net, 2);
    assert_eq!(events.next(&mut net), Some(5));
    assert_eq!(calls(&count), 2);
}

#[test]
fn a_stream_ends_when_no_signal_holds_it_any_more() {
    let mut net: Network = Network::new();
    let sink: Sink<i32> = Sink::new(&mut net);
    let streams: Sink<Stream<i32>> = Sink::new(&mut net);
    let (mapped, count) = counted(&mut net, &sink);
    let _held: Signal<Stream<i32>> = streams.stream().hold(&mut net, mapped.clone());
    mapped.release(&mut net);
    sink.send(&mut net, 1);
    assert_eq!(calls(&count), 1);
    streams.send(&mut net, sink.stream());
    sink.send(&mut net, 1);
    assert_eq!(calls(&count), 1);
    assert!(!net.is_poisoned());
}

#[test]
fn a_released_signal_lets_go_of_the_stream_that_is_its_value() {
    let mut net: Network = Network::new();
    let sink: Sink<i32> = Sink::new(&mut net);
    let (mapped, count) = counted(&mut net, &sink);
    let constant: Signal<Stream<i32>> = Signal::new(&mut net, mapped.clone());
    mapped.release(&mut net);
    sink.send(&mut net, 1);
    assert_eq!(calls(&count), 1);
    constant.release(&mut net);
    sink.send(&mut net, 1);
    assert_eq!(calls(&count), 1);
}

#[test]
fn streams_within_options_pairs_and_results_are_kept() {
    let mut net: Network = Network::new();
    let sink: Sink<i32> = Sink::new(&mut net);
    let (one, ones) = counted(&mut net, &sink);
    let (two, twos) = counted(&mut net, &sink);
    let (three, threes) = counted(&mut net, &sink);
    let (four, fours) = counted(&mut net, &sink);
    let _pair: Signal<(i32, Option<Stream<i32>>)> = Signal::new(&mut net, (7, Some(one.clone())));
    let _good: Signal<Result<Stream<i32>, i32>> = Signal::new(&mut net, Ok(two.clone()));
    let _bad: Signal<Result<i32, Stream<i32>>> = Signal::new(&mut net, Err(three.clone()));
    let _none: Signal<Option<Stream<i32>>> = Signal::new(&mut net, None);
    one.release(&mut net);
    two.release(&mut net);
    three.release(&mut net);
    four.release(&mut net);
    sink.send(&mut net, 1);
    assert_eq!((calls(&ones), calls(&twos), calls(&threes), calls(&fours)), (1, 1, 1, 0));
}

#[test]
fn a_stream_that_waits_is_kept_and_then_handed_out() {
    let mut net: Network = Network::new();
    let sink: Sink<i32> = Sink::new(&mut net);
    let streams: Sink<Stream<i32>> = Sink::new(&mut net);
    let mut events = streams.stream().events(&mut net);
    let (mapped, count) = counted(&mut net, &sink);
    streams.send(&mut net, mapped.clone());
    mapped.release(&mut net);
    sink.send(&mut net, 1);
    assert_eq!(calls(&count), 1);
    let copy = events.next(&mut net).unwrap();
    assert!(copy.belongs(&net));
    sink.send(&mut net, 1);
    assert_eq!(calls(&count), 2);
    copy.release(&mut net);
    sink.send(&mut net, 1);
    assert_eq!(calls(&count), 2);
}

#[test]
fn a_closed_listener_lets_go_of_the_streams_that_waited() {
    let mut net: Network = Network::new();
    let sink: Sink<i32> = Sink::new(&mut net);
    let streams: Sink<Stream<i32>> = Sink::new(&mut net);
    let events = streams.stream().events(&mut net);
    let (mapped, count) = counted(&mut net, &sink);
    streams.send(&mut net, mapped.clone());
    mapped.release(&mut net);
    events.close(&mut net);
    sink.send(&mut net, 1);
    assert_eq!(calls(&count), 0);
}

#[test]
fn a_sampled_stream_is_a_handle() {
    let mut net: Network = Network::new();
    let sink: Sink<i32> = Sink::new(&mut net);
    let streams: Sink<Stream<i32>> = Sink::new(&mut net);
    let (mapped, count) = counted(&mut net, &sink);
    let held: Signal<Stream<i32>> = streams.stream().hold(&mut net, mapped.clone());
    mapped.release(&mut net);
    let copy = held.sample(&mut net);
    streams.send(&mut net, sink.stream());
    sink.send(&mut net, 1);
    assert_eq!(calls(&count), 1);
    let mut events = copy.events(&mut net);
    sink.send(&mut net, 4);
    assert_eq!(events.next(&mut net), Some(7));
    events.close(&mut net);
    copy.release(&mut net);
    sink.send(&mut net, 1);
    assert_eq!(calls(&count), 2);
}

#[test]
fn a_stream_that_has_ended_stays_so_where_it_is_held() {
    let mut net: Network = Network::new();
    let sink: Sink<i32> = Sink::new(&mut net);
    let (mapped, count) = counted(&mut net, &sink);
    let stale = mapped.clone();
    mapped.release(&mut net);
    let constant: Signal<Stream<i32>> = Signal::new(&mut net, stale);
    sink.send(&mut net, 1);
    assert_eq!(calls(&count), 0);
    let copy = constant.sample(&mut net);
    assert!(!copy.belongs(&net));
}

#[test]
fn a_derived_stream_hands_held_streams_to_a_switch() {
    let mut net: Network = Network::new();
    let numbers: Sink<i32> = Sink::new(&mut net);
    let ticks: Sink<()> = Sink::new(&mut net);
    let streams: Sink<Stream<i32>> = Sink::new(&mut net);
    let (mapped, _) = counted(&mut net, &numbers);
    let held = streams.stream().hold(&mut net, mapped.clone());
    mapped.release(&mut net);
    let chosen: Stream<Stream<i32>> =
        snapshot(&mut net, &held, &ticks.stream(), |s: Stream<i32>, _: ()| s);
    let switch = chosen.switch(&mut net);
    let mut events = switch.events(&mut net);
    numbers.send(&mut net, 1);
    ticks.send(&mut net, ());
    numbers.send(&mut net, 2);
    streams.send(&mut net, numbers.stream());
    numbers.send(&mut net, 3);
    ticks.send(&mut net, ());
    numbers.send(&mut net, 4);
    assert!(!net.is_poisoned());
    assert_eq!(events.next(&mut net), Some(5));
    assert_eq!(events.next(&mut net), Some(6));
    assert_eq!(events.next(&mut net), Some(4));
    assert_eq!(events.try_next(&mut net), None);
}

#[test]
fn a_fed_switch_of_mapped_streams() {
    let mut net: Network = Network::new();
    let one: Sink<i32> = Sink::new(&mut net);
    let two: Sink<i32> = Sink::new(&mut net);
    let picks: Sink<bool> = Sink::new(&mut net);
    let (first, second) = (one.stream(), two.stream());
    let chosen: Stream<Stream<i32>> = picks.stream().map(&mut net, move |left: bool| {
        if left {
            first.clone()
        } else {
            second.clone()
        }
    });
    let mut events = chosen.switch(&mut net).events(&mut net);
    picks.feed(&mut net, vec![true, false, true].into_iter());
    one.send(&mut net, 1);
    two.send(&mut net, 2);
    picks.send(&mut net, false);
    two.send(&mut net, 3);
    assert!(!net.is_poisoned());
    assert_eq!(events.next(&mut net), Some(1));
    assert_eq!(events.next(&mut net), Some(3));
    assert_eq!(events.try_next(&mut net), None);
}
