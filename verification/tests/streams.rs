//! Sinks, streams and their combinators.
use carboxyl::network::Network;
use carboxyl::stream::{Events, Sink, Stream};

#[test]
fn sink() {
    let mut net: Network = Network::new();
    let sink: Sink<i32> = Sink::new(&mut net);
    let mut events = sink.stream().events(&mut net);
    sink.send(&mut net, 1);
    sink.send(&mut net, 2);
    assert_eq!(events.next(&mut net), Some(1));
    assert_eq!(events.next(&mut net), Some(2));
}

#[test]
fn map() {
    let mut net: Network = Network::new();
    let sink: Sink<i32> = Sink::new(&mut net);
    let triple: Stream<i32> = sink.stream().map(&mut net, |x: i32| 3 * x);
    let mut events = triple.events(&mut net);
    sink.send(&mut net, 1);
    assert_eq!(events.next(&mut net), Some(3));
}

#[test]
fn filter_some() {
    let mut net: Network = Network::new();
    let sink: Sink<Option<i32>> = Sink::new(&mut net);
    let small = sink.stream().filter_some(&mut net);
    let mut events = small.events(&mut net);
    sink.send(&mut net, None);
    sink.send(&mut net, Some(9));
    assert_eq!(events.next(&mut net), Some(9));
}

#[test]
fn chain_1() {
    let mut net: Network = Network::new();
    let sink: Sink<i32> = Sink::new(&mut net);
    let halves: Stream<i32> = sink.stream().map(&mut net, |x: i32| x / 2);
    let chain = halves.filter(&mut net, |x: &i32| *x < 3);
    let mut events = chain.events(&mut net);
    sink.send(&mut net, 7);
    sink.send(&mut net, 4);
    assert_eq!(events.next(&mut net), Some(2));
}

#[test]
fn merge() {
    let mut net: Network = Network::new();
    let sink1: Sink<i32> = Sink::new(&mut net);
    let sink2: Sink<i32> = Sink::new(&mut net);
    let merged = sink1.stream().merge(&mut net, &sink2.stream());
    let mut events = merged.events(&mut net);
    sink1.send(&mut net, 12);
    sink2.send(&mut net, 9);
    assert_eq!(events.next(&mut net), Some(12));
    assert_eq!(events.next(&mut net), Some(9));
}

#[test]
fn chain_2() {
    let mut net: Network = Network::new();
    let sink1: Sink<i32> = Sink::new(&mut net);
    let sink2: Sink<i32> = Sink::new(&mut net);
    let left: Stream<i32> = sink1.stream().map(&mut net, |x: i32| x + 4);
    let small: Stream<i32> = sink2
        .stream()
        .filter_map(&mut net, |x: i32| if x < 4 { Some(x) } else { None });
    let right: Stream<i32> = small.map(&mut net, |x: i32| x * 5);
    let merged = left.merge(&mut net, &right);
    let mut events = merged.events(&mut net);
    sink1.send(&mut net, 12);
    sink2.send(&mut net, 3);
    assert_eq!(events.next(&mut net), Some(16));
    assert_eq!(events.next(&mut net), Some(15));
}

#[test]
fn move_closure() {
    let mut net: Network = Network::new();
    let sink: Sink<i32> = Sink::new(&mut net);
    let x = 3;
    let _: Stream<i32> = sink.stream().map(&mut net, move |y: i32| y + x);
}

#[test]
fn sink_feed() {
    let mut net: Network = Network::new();
    let sink: Sink<i32> = Sink::new(&mut net);
    let mut events = sink.stream().events(&mut net);
    sink.feed(&mut net, 0..10);
    for n in 0..10 {
        assert_eq!(events.next(&mut net), Some(n));
    }
}

#[test]
fn feed_of_a_range() {
    let mut net: Network = Network::new();
    let sink: Sink<i32> = Sink::new(&mut net);
    let mut events: Events<i32> = sink.stream().events(&mut net);
    sink.feed(&mut net, 20..40);
    let mut first = Vec::new();
    for _ in 0..4 {
        first.push(events.next(&mut net).unwrap());
    }
    assert_eq!(first, vec![20, 21, 22, 23]);
}

#[test]
fn send_and_take_out() {
    let mut net: Network = Network::new();
    let sink: Sink<i32> = Sink::new(&mut net);
    let mut events = sink.stream().events(&mut net);
    sink.send(&mut net, 5);
    assert_eq!(events.next(&mut net), Some(5));
    assert_eq!(events.try_next(&mut net), None);
}

#[test]
fn map_adds_four() {
    let mut net: Network = Network::new();
    let sink: Sink<i32> = Sink::new(&mut net);
    let more: Stream<i32> = sink.stream().map(&mut net, |x: i32| x + 4);
    let mut events = more.events(&mut net);
    sink.send(&mut net, 3);
    assert_eq!(events.next(&mut net), Some(7));
}

#[test]
fn filter_keeps_a_range() {
    let mut net: Network = Network::new();
    let sink: Sink<i32> = Sink::new(&mut net);
    let some = sink.stream().filter(&mut net, |x: &i32| *x >= 4 && *x <= 10);
    let mut events = some.events(&mut net);
    sink.send(&mut net, 2);
    sink.send(&mut net, 5);
    assert_eq!(events.next(&mut net), Some(5));
    assert_eq!(events.try_next(&mut net), None);
}

#[test]
fn filter_map_keeps_and_adds() {
    let mut net: Network = Network::new();
    let sink: Sink<i32> = Sink::new(&mut net);
    let some: Stream<i32> = sink
        .stream()
        .filter_map(&mut net, |i: i32| if i > 3 { Some(i + 2) } else { None });
    let mut events = some.events(&mut net);
    sink.send(&mut net, 2);
    sink.send(&mut net, 4);
    assert_eq!(events.next(&mut net), Some(6));
    assert_eq!(events.try_next(&mut net), None);
}

#[test]
fn filter_some_unwraps() {
    let mut net: Network = Network::new();
    let sink: Sink<Option<i32>> = Sink::new(&mut net);
    let mut events = sink.stream().filter_some(&mut net).events(&mut net);
    sink.send(&mut net, None);
    sink.send(&mut net, Some(5));
    assert_eq!(events.next(&mut net), Some(5));
    assert_eq!(events.try_next(&mut net), None);
}

#[test]
fn merge_in_turn() {
    let mut net: Network = Network::new();
    let sink_1: Sink<i32> = Sink::new(&mut net);
    let sink_2: Sink<i32> = Sink::new(&mut net);
    let mut events = sink_1
        .stream()
        .merge(&mut net, &sink_2.stream())
        .events(&mut net);
    sink_1.send(&mut net, 2);
    assert_eq!(events.next(&mut net), Some(2));
    sink_2.send(&mut net, 4);
    assert_eq!(events.next(&mut net), Some(4));
}

#[test]
fn switch_between_sinks() {
    let mut net: Network = Network::new();
    let stream_sink: Sink<Stream<i32>> = Sink::new(&mut net);
    let sink1: Sink<i32> = Sink::new(&mut net);
    let sink2: Sink<i32> = Sink::new(&mut net);

    let switched = stream_sink.stream().switch(&mut net);
    let mut events = switched.events(&mut net);

    sink1.send(&mut net, 1);
    sink2.send(&mut net, 2);

    stream_sink.send(&mut net, sink2.stream());
    sink1.send(&mut net, 3);
    sink2.send(&mut net, 4);
    assert_eq!(events.next(&mut net), Some(4));

    stream_sink.send(&mut net, sink1.stream());
    sink1.send(&mut net, 5);
    sink2.send(&mut net, 6);
    assert_eq!(events.next(&mut net), Some(5));
    assert_eq!(events.try_next(&mut net), None);
    assert!(!net.is_poisoned());
}

#[test]
fn never_is_silent() {
    let mut net: Network = Network::new();
    let sink: Sink<i32> = Sink::new(&mut net);
    let never: Stream<i32> = Stream::never(&mut net);
    let mut silence = never.events(&mut net);
    let mut events = never.merge(&mut net, &sink.stream()).events(&mut net);
    sink.send(&mut net, 1);
    assert_eq!(silence.try_next(&mut net), None);
    assert_eq!(events.next(&mut net), Some(1));
}
