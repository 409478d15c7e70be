//! How events run through a network.
use carboxyl::network::Network;
use carboxyl::signal::Signal;
use carboxyl::stream::{snapshot, source, Events, Sink, Stream};

fn drain(net: &mut Network, events: &mut Events<i32>) -> Vec<i32> {
    let mut all = Vec::new();
    while let Some(x) = events.try_next(net) {
        all.push(x);
    }
    all
}

#[test]
fn callbacks_react_in_the_order_of_registration() {
    let mut net: Network = Network::new();
    let sink: Sink<i32> = Sink::new(&mut net);
    let stream = sink.stream();
    let tens: Stream<i32> = stream.map(&mut net, |x: i32| 10 * x);
    let merged = stream.merge(&mut net, &tens);
    let mut events = merged.events(&mut net);
    sink.feed(&mut net, 1..3);
    // `tens` was registered first, so its image comes before the event itself.
    assert_eq!(drain(&mut net, &mut events), vec![10, 1, 20, 2]);
}

#[test]
fn merge_with_itself_fires_twice() {
    let mut net: Network = Network::new();
    let sink: Sink<i32> = Sink::new(&mut net);
    let stream = sink.stream();
    let twice = stream.merge(&mut net, &stream);
    let mut events = twice.events(&mut net);
    sink.send(&mut net, 4);
    assert_eq!(drain(&mut net, &mut events), vec![4, 4]);
    assert!(!net.is_poisoned());
}

#[test]
fn every_listener_hears_every_event_since_it_was_made() {
    let mut net: Network = Network::new();
    let sink: Sink<i32> = Sink::new(&mut net);
    let mut first = sink.stream().events(&mut net);
    sink.feed(&mut net, 0..3);
    let mut second = sink.stream().events(&mut net);
    sink.feed(&mut net, 3..5);
    assert_eq!(drain(&mut net, &mut first), vec![0, 1, 2, 3, 4]);
    assert_eq!(drain(&mut net, &mut second), vec![3, 4]);
}

#[test]
fn a_closed_listener_hears_nothing_more() {
    let mut net: Network = Network::new();
    let sink: Sink<i32> = Sink::new(&mut net);
    let closed = sink.stream().events(&mut net);
    let mut open = sink.stream().events(&mut net);
    sink.send(&mut net, 1);
    closed.close(&mut net);
    sink.send(&mut net, 2);
    sink.send(&mut net, 3);
    assert_eq!(drain(&mut net, &mut open), vec![1, 2, 3]);
}

#[test]
fn map_of_a_stream_with_a_past() {
    let mut net: Network = Network::new();
    let sink: Sink<i32> = Sink::new(&mut net);
    sink.send(&mut net, 1);
    let negative: Stream<i32> = sink.stream().map(&mut net, |x: i32| -x);
    let mut events = negative.events(&mut net);
    sink.send(&mut net, 2);
    assert_eq!(drain(&mut net, &mut events), vec![-2]);
}

#[test]
fn sinks_do_not_disturb_each_other() {
    let mut net: Network = Network::new();
    let one: Sink<i32> = Sink::new(&mut net);
    let two: Sink<i32> = Sink::new(&mut net);
    let mut from_one = one.stream().events(&mut net);
    let mut from_two = two.stream().events(&mut net);
    one.feed(&mut net, 0..2);
    two.clone().send(&mut net, 7);
    assert_eq!(drain(&mut net, &mut from_one), vec![0, 1]);
    assert_eq!(drain(&mut net, &mut from_two), vec![7]);
}

#[test]
fn feeding_in_parts_is_feeding_at_once() {
    let mut net: Network = Network::new();
    let sink: Sink<i32> = Sink::new(&mut net);
    let sum: Signal<i32> = sink.stream().scan(&mut net, 0, |a: i32, b: i32| 2 * a + b);
    let mut events = sink.stream().events(&mut net);
    sink.feed(&mut net, 0..4);
    sink.feed(&mut net, 4..7);
    assert_eq!(drain(&mut net, &mut events), vec![0, 1, 2, 3, 4, 5, 6]);
    let mut expected: i32 = 0;
    for x in 0..7 {
        expected = 2 * expected + x;
    }
    assert_eq!(sum.sample(&mut net), expected);
    sink.feed(&mut net, 0..0);
    assert_eq!(sum.sample(&mut net), expected);
}

#[test]
fn feed_takes_any_iterator() {
    let mut net: Network = Network::new();
    let sink: Sink<i32> = Sink::new(&mut net);
    let mut events = sink.stream().events(&mut net);
    sink.feed(&mut net, vec![5, 1, 4].into_iter());
    assert_eq!(drain(&mut net, &mut events), vec![5, 1, 4]);
}

#[test]
fn filter_is_filter_map() {
    let mut net: Network = Network::new();
    let sink: Sink<i32> = Sink::new(&mut net);
    let even = sink.stream().filter(&mut net, |x: &i32| *x % 2 == 0);
    let also: Stream<i32> = sink
        .stream()
        .filter_map(&mut net, |x: i32| if x % 2 == 0 { Some(x) } else { None });
    let again: Stream<Option<i32>> = sink
        .stream()
        .map(&mut net, |x: i32| if x % 2 == 0 { Some(x) } else { None });
    let unwrapped = again.filter_some(&mut net);
    let mut a = even.events(&mut net);
    let mut b = also.events(&mut net);
    let mut c = unwrapped.events(&mut net);
    sink.feed(&mut net, 0..7);
    assert_eq!(drain(&mut net, &mut a), vec![0, 2, 4, 6]);
    assert_eq!(drain(&mut net, &mut b), vec![0, 2, 4, 6]);
    assert_eq!(drain(&mut net, &mut c), vec![0, 2, 4, 6]);
}

#[test]
fn switch_follows_derived_streams() {
    let mut net: Network = Network::new();
    let streams: Sink<Stream<i32>> = Sink::new(&mut net);
    let sink: Sink<i32> = Sink::new(&mut net);
    let doubled: Stream<i32> = sink.stream().map(&mut net, |x: i32| 2 * x);
    let switched = streams.stream().switch(&mut net);
    let total: Signal<i32> = switched.scan(&mut net, 0, |a: i32, b: i32| a + b);
    let mut events = switched.events(&mut net);
    streams.send(&mut net, sink.stream());
    sink.send(&mut net, 1);
    streams.send(&mut net, doubled.clone());
    sink.send(&mut net, 1);
    streams.send(&mut net, doubled);
    sink.send(&mut net, 3);
    assert_eq!(drain(&mut net, &mut events), vec![1, 2, 6]);
    assert_eq!(total.sample(&mut net), 9);
    assert!(!net.is_poisoned());
}

#[test]
fn two_switches_of_one_stream() {
    let mut net: Network = Network::new();
    let streams: Sink<Stream<i32>> = Sink::new(&mut net);
    let sink: Sink<i32> = Sink::new(&mut net);
    let early = streams.stream().switch(&mut net);
    streams.send(&mut net, sink.stream());
    let late = streams.stream().switch(&mut net);
    let mut a = early.events(&mut net);
    let mut b = late.events(&mut net);
    sink.send(&mut net, 1);
    streams.send(&mut net, sink.stream());
    sink.send(&mut net, 2);
    assert_eq!(drain(&mut net, &mut a), vec![1, 2]);
    assert_eq!(drain(&mut net, &mut b), vec![2]);
}

#[test]
fn a_switch_that_is_handed_itself_is_poisoned_when_it_fires() {
    let mut net: Network = Network::new();
    let streams: Sink<Stream<i32>> = Sink::new(&mut net);
    let sink: Sink<i32> = Sink::new(&mut net);
    let switched = streams.stream().switch(&mut net);
    let all = switched.merge(&mut net, &sink.stream());
    streams.send(&mut net, all);
    assert!(!net.is_poisoned());
    sink.send(&mut net, 1);
    assert!(net.is_poisoned());
}

#[test]
fn a_stream_of_another_network_poisons() {
    let mut other: Network = Network::numbered(1);
    let far: Stream<i32> = Stream::never(&mut other);
    let mut net: Network = Network::numbered(2);
    let sink: Sink<i32> = Sink::new(&mut net);
    let streams: Sink<Stream<i32>> = Sink::new(&mut net);
    let switched = streams.stream().switch(&mut net);
    let mut events = switched.events(&mut net);
    // There is a stream of the same number and type in this network.
    assert_eq!(source(&far), source(&sink.stream()));
    assert!(far.belongs(&other));
    assert!(!far.belongs(&net));
    streams.send(&mut net, far);
    assert!(net.is_poisoned());
    sink.send(&mut net, 1);
    assert_eq!(events.try_next(&mut net), None);
}

#[test]
fn networks_have_numbers() {
    let plain: Network = Network::new();
    let numbered: Network = Network::numbered(7);
    assert_eq!(plain.number(), 0);
    assert_eq!(numbered.number(), 7);
}

#[test]
fn a_stream_made_later_can_be_handed_over() {
    let mut net: Network = Network::new();
    let streams: Sink<Stream<i32>> = Sink::new(&mut net);
    let switched = streams.stream().switch(&mut net);
    let mut events = switched.events(&mut net);
    let sink: Sink<i32> = Sink::new(&mut net);
    let late: Stream<i32> = sink.stream().map(&mut net, |x: i32| x + 1);
    let latest = late.filter(&mut net, |x: &i32| *x != 3);
    streams.send(&mut net, latest);
    sink.feed(&mut net, 1..4);
    assert_eq!(drain(&mut net, &mut events), vec![2, 4]);
    assert!(!net.is_poisoned());
}

#[test]
fn a_stream_that_has_ended_poisons() {
    let mut net: Network = Network::new();
    let streams: Sink<Stream<i32>> = Sink::new(&mut net);
    let _switched = streams.stream().switch(&mut net);
    let never: Stream<i32> = Stream::never(&mut net);
    let copy = never.clone();
    assert!(copy.belongs(&net));
    never.release(&mut net);
    assert!(!copy.belongs(&net));
    streams.send(&mut net, copy);
    assert!(net.is_poisoned());
}

#[test]
fn a_switch_that_is_handed_streams_by_what_it_listens_to() {
    let mut net: Network = Network::new();
    let one: Sink<i32> = Sink::new(&mut net);
    let two: Sink<i32> = Sink::new(&mut net);
    let (first, second) = (one.stream(), two.stream());
    let choice: Sink<bool> = Sink::new(&mut net);
    let streams: Stream<Stream<i32>> = choice.stream().map(&mut net, move |yes: bool| {
        if yes {
            first.clone()
        } else {
            second.clone()
        }
    });
    let switched = streams.switch(&mut net);
    let mut events = switched.events(&mut net);
    one.send(&mut net, 1);
    choice.send(&mut net, true);
    one.send(&mut net, 2);
    two.send(&mut net, 3);
    choice.send(&mut net, true);
    one.send(&mut net, 4);
    choice.send(&mut net, false);
    one.send(&mut net, 5);
    two.feed(&mut net, 6..8);
    choice.send(&mut net, true);
    one.send(&mut net, 8);
    assert_eq!(drain(&mut net, &mut events), vec![2, 4, 6, 7, 8]);
    assert!(!net.is_poisoned());
}

#[test]
fn a_switch_in_the_transaction_that_hands_over() {
    let mut net: Network = Network::new();
    let sink: Sink<i32> = Sink::new(&mut net);
    let other: Sink<i32> = Sink::new(&mut net);
    let tens: Stream<i32> = sink.stream().map(&mut net, |x: i32| 10 * x);
    let target = other.stream();
    let handed: Stream<Stream<i32>> = tens.map(&mut net, move |_: i32| target.clone());
    let switched = handed.switch(&mut net);
    let mut events = switched.events(&mut net);
    other.send(&mut net, 1);
    sink.send(&mut net, 2);
    other.send(&mut net, 3);
    sink.send(&mut net, 4);
    other.send(&mut net, 5);
    assert_eq!(drain(&mut net, &mut events), vec![3, 5]);
    assert!(!net.is_poisoned());
}

#[test]
fn merging_commutes() {
    let mut net: Network = Network::new();
    let one: Sink<i32> = Sink::new(&mut net);
    let two: Sink<i32> = Sink::new(&mut net);
    let mut a = one.stream().merge(&mut net, &two.stream()).events(&mut net);
    let mut b = two.stream().merge(&mut net, &one.stream()).events(&mut net);
    one.feed(&mut net, 0..2);
    two.send(&mut net, 7);
    one.send(&mut net, 2);
    two.feed(&mut net, 8..10);
    let expected = vec![0, 1, 7, 2, 8, 9];
    assert_eq!(drain(&mut net, &mut a), expected);
    assert_eq!(drain(&mut net, &mut b), expected);
}

#[test]
fn what_is_not_downstream_stays_silent() {
    let mut net: Network = Network::new();
    let one: Sink<i32> = Sink::new(&mut net);
    let two: Sink<i32> = Sink::new(&mut net);
    let doubled: Stream<i32> = two.stream().map(&mut net, |x: i32| 2 * x);
    let mut events = doubled.events(&mut net);
    one.feed(&mut net, 0..5);
    assert_eq!(drain(&mut net, &mut events), vec![]);
}

#[test]
fn filtering_twice_is_filtering_once() {
    let mut net: Network = Network::new();
    let sink: Sink<i32> = Sink::new(&mut net);
    let even = |x: &i32| *x % 2 == 0;
    let once = sink.stream().filter(&mut net, even);
    let twice = once.filter(&mut net, even);
    let mut a = once.events(&mut net);
    let mut b = twice.events(&mut net);
    sink.feed(&mut net, 0..7);
    assert_eq!(drain(&mut net, &mut a), vec![0, 2, 4, 6]);
    assert_eq!(drain(&mut net, &mut b), vec![0, 2, 4, 6]);
}

#[test]
fn a_function_that_does_not_take_everything() {
    let mut net: Network = Network::new();
    let sink: Sink<i32> = Sink::new(&mut net);
    let nonzero = sink.stream().filter(&mut net, |x: &i32| *x != 0);
    let shares: Stream<i32> = nonzero.map(&mut net, |x: i32| 60 / x);
    let mut events = shares.events(&mut net);
    sink.feed(&mut net, 0..5);
    assert_eq!(drain(&mut net, &mut events), vec![60, 30, 20, 15]);
}

#[test]
fn a_stream_that_nobody_switches_to_may_be_any() {
    let mut net: Network = Network::new();
    let streams: Sink<Stream<i32>> = Sink::new(&mut net);
    let never: Stream<i32> = Stream::never(&mut net);
    let held = streams.stream().hold(&mut net, never.clone());
    let sink: Sink<i32> = Sink::new(&mut net);
    streams.send(&mut net, sink.stream());
    assert_eq!(source(&held.sample(&mut net)), source(&sink.stream()));
    assert!(source(&held.sample(&mut net)) != source(&never));
    assert!(!net.is_poisoned());
}

#[test]
fn a_loop_through_a_held_value_and_back() {
    let mut net: Network = Network::new();
    let sink: Sink<i32> = Sink::new(&mut net);
    let counter: Signal<i32> = sink.stream().scan(&mut net, 0, |n: i32, _: i32| n + 1);
    let numbered: Stream<(i32, i32)> =
        snapshot(&mut net, &counter, &sink.stream(), |n: i32, x: i32| (n, x));
    let odd = numbered.filter(&mut net, |p: &(i32, i32)| p.0 % 2 == 1);
    let mut events = odd.events(&mut net);
    sink.feed(&mut net, 10..15);
    assert_eq!(events.next(&mut net), Some((1, 10)));
    assert_eq!(events.next(&mut net), Some((3, 12)));
    assert_eq!(events.next(&mut net), Some((5, 14)));
    assert_eq!(events.try_next(&mut net), None);
}

#[test]
fn what_comes_waits_behind_what_has_been_waiting() {
    let mut net: Network = Network::new();
    let sink: Sink<i32> = Sink::new(&mut net);
    let mut events = sink.stream().events(&mut net);
    sink.feed(&mut net, 0..3);
    assert_eq!(events.next(&mut net), Some(0));
    sink.send(&mut net, 9);
    assert_eq!(drain(&mut net, &mut events), vec![1, 2, 9]);
    assert_eq!(events.try_next(&mut net), None);
    sink.send(&mut net, 4);
    assert_eq!(drain(&mut net, &mut events), vec![4]);
}

#[test]
fn a_stream_fires_without_a_handle() {
    let mut net: Network = Network::new();
    let streams: Sink<Stream<i32>> = Sink::new(&mut net);
    let sink: Sink<i32> = Sink::new(&mut net);
    let tripled: Stream<i32> = sink.stream().map(&mut net, |x: i32| 3 * x);
    let mut events = streams.stream().switch(&mut net).events(&mut net);
    streams.send(&mut net, tripled);
    sink.feed(&mut net, 1..3);
    assert_eq!(drain(&mut net, &mut events), vec![3, 6]);
}
