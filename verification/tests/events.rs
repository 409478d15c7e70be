//! The types that a network carries.
use carboxyl::network::Network;
use carboxyl::signal::Signal;
use carboxyl::stream::{Sink, Stream};
use carboxyl::value::{Copied, Item};

#[test]
fn streams_of_many_types_in_one_network() {
    let mut net: Network = Network::new();
    let sink: Sink<i32> = Sink::new(&mut net);
    let large: Stream<bool> = sink.stream().map(&mut net, |x: i32| x > 100);
    let words: Stream<String> = sink.stream().map(&mut net, |x: i32| format!("<{}>", x));
    let bytes: Stream<Option<u8>> = sink.stream().map(&mut net, |x: i32| u8::try_from(x).ok());
    let small: Stream<u8> = bytes.filter_some(&mut net);
    let text: Signal<String> =
        words.scan(&mut net, String::new(), |all: String, word: String| all + &word);
    let mut verdicts = large.events(&mut net);
    let mut numbers = small.events(&mut net);
    sink.send(&mut net, 12);
    sink.send(&mut net, 300);
    assert_eq!(verdicts.next(&mut net), Some(false));
    assert_eq!(verdicts.next(&mut net), Some(true));
    assert_eq!(numbers.next(&mut net), Some(12));
    assert_eq!(numbers.try_next(&mut net), None);
    assert_eq!(text.sample(&mut net), "<12><300>");
}

#[test]
fn every_number_arrives_as_it_was_sent() {
    let mut net: Network = Network::new();
    let a: Sink<u64> = Sink::new(&mut net);
    let b: Sink<i64> = Sink::new(&mut net);
    let c: Sink<u32> = Sink::new(&mut net);
    let d: Sink<usize> = Sink::new(&mut net);
    let e: Sink<char> = Sink::new(&mut net);
    let held_a = a.stream().hold(&mut net, 0);
    let held_b = b.stream().hold(&mut net, 0);
    let held_c = c.stream().hold(&mut net, 0);
    let held_d = d.stream().hold(&mut net, 0);
    let held_e = e.stream().hold(&mut net, ' ');
    a.send(&mut net, u64::MAX);
    b.send(&mut net, i64::MIN);
    c.send(&mut net, u32::MAX);
    d.send(&mut net, usize::MAX);
    e.send(&mut net, 'q');
    assert_eq!(held_a.sample(&mut net), u64::MAX);
    assert_eq!(held_b.sample(&mut net), i64::MIN);
    assert_eq!(held_c.sample(&mut net), u32::MAX);
    assert_eq!(held_d.sample(&mut net), usize::MAX);
    assert_eq!(held_e.sample(&mut net), 'q');
}

#[derive(Debug, PartialEq)]
struct Point {
    x: i32,
    y: i32,
}

impl Item for Point {
    fn is_copied() -> bool {
        true
    }

    fn duplicate(&self) -> Option<Point> {
        Some(Point { x: self.x, y: self.y })
    }
}

impl Copied for Point {
    fn copied() {}
}

#[test]
fn a_type_of_ones_own() {
    let mut net: Network<Point> = Network::new();
    let moves: Sink<(i32, i32)> = Sink::new(&mut net);
    let start = Point { x: 1, y: 2 };
    let place: Signal<Point> = moves.stream().scan(&mut net, start, |p: Point, d: (i32, i32)| {
        Point { x: p.x + d.0, y: p.y + d.1 }
    });
    moves.send(&mut net, (1, 0));
    moves.send(&mut net, (0, -5));
    assert_eq!(place.sample(&mut net), Point { x: 2, y: -3 });
}

#[test]
fn nested_options_and_pairs() {
    let mut net: Network = Network::new();
    let sink: Sink<Option<Option<(bool, String)>>> = Sink::new(&mut net);
    let inner = sink.stream().filter_some(&mut net);
    let innermost = inner.filter_some(&mut net);
    let mut options = inner.events(&mut net);
    let mut pairs = innermost.events(&mut net);
    sink.send(&mut net, None);
    sink.send(&mut net, Some(None));
    sink.send(&mut net, Some(Some((true, String::from("x")))));
    assert_eq!(options.next(&mut net), Some(None));
    assert_eq!(options.next(&mut net), Some(Some((true, String::from("x")))));
    assert_eq!(options.try_next(&mut net), None);
    assert_eq!(pairs.next(&mut net), Some((true, String::from("x"))));
    assert_eq!(pairs.try_next(&mut net), None);
}

#[test]
fn the_other_numbers_arrive_too() {
    let mut net: Network = Network::new();
    let a: Sink<u16> = Sink::new(&mut net);
    let b: Sink<u128> = Sink::new(&mut net);
    let c: Sink<i8> = Sink::new(&mut net);
    let d: Sink<i16> = Sink::new(&mut net);
    let e: Sink<i128> = Sink::new(&mut net);
    let f: Sink<isize> = Sink::new(&mut net);
    let held_a = a.stream().hold(&mut net, 0);
    let held_b = b.stream().hold(&mut net, 0);
    let held_c = c.stream().hold(&mut net, 0);
    let held_d = d.stream().hold(&mut net, 0);
    let held_e = e.stream().hold(&mut net, 0);
    let held_f = f.stream().hold(&mut net, 0);
    a.send(&mut net, u16::MAX);
    b.send(&mut net, u128::MAX);
    c.send(&mut net, i8::MIN);
    d.send(&mut net, i16::MIN);
    e.send(&mut net, i128::MIN);
    f.send(&mut net, isize::MIN);
    assert_eq!(held_a.sample(&mut net), u16::MAX);
    assert_eq!(held_b.sample(&mut net), u128::MAX);
    assert_eq!(held_c.sample(&mut net), i8::MIN);
    assert_eq!(held_d.sample(&mut net), i16::MIN);
    assert_eq!(held_e.sample(&mut net), i128::MIN);
    assert_eq!(held_f.sample(&mut net), isize::MIN);
}

#[test]
fn results_are_events() {
    let mut net: Network = Network::new();
    let sink: Sink<String> = Sink::new(&mut net);
    let parsed: Stream<Result<i32, String>> =
        sink.stream().map(&mut net, |text: String| text.parse::<i32>().map_err(|_| text));
    let good: Stream<i32> = parsed.filter_map(&mut net, |r: Result<i32, String>| r.ok());
    let bad: Stream<String> = parsed.filter_map(&mut net, |r: Result<i32, String>| r.err());
    let mut numbers = good.events(&mut net);
    let mut others = bad.events(&mut net);
    sink.send(&mut net, String::from("12"));
    sink.send(&mut net, String::from("x"));
    assert_eq!(numbers.next(&mut net), Some(12));
    assert_eq!(numbers.try_next(&mut net), None);
    assert_eq!(others.next(&mut net), Some(String::from("x")));
    assert_eq!(others.try_next(&mut net), None);
}

#[derive(Debug, PartialEq)]
struct Names(Vec<String>);

impl Item for Names {
    fn is_copied() -> bool {
        true
    }

    fn duplicate(&self) -> Option<Names> {
        Some(Names(self.0.clone()))
    }
}

impl Copied for Names {
    fn copied() {}
}

#[test]
fn a_vector_in_a_type_of_ones_own() {
    let mut net: Network<Names> = Network::new();
    let sink: Sink<String> = Sink::new(&mut net);
    let all: Signal<Names> =
        sink.stream().scan(&mut net, Names(Vec::new()), |names: Names, name: String| {
            let mut names = names;
            names.0.push(name);
            names
        });
    sink.send(&mut net, String::from("a"));
    sink.send(&mut net, String::from("b"));
    assert_eq!(all.sample(&mut net), Names(vec![String::from("a"), String::from("b")]));
}

struct Tally {
    seen: Vec<i32>,
}

impl Item for Tally {
    fn is_copied() -> bool {
        false
    }

    fn duplicate(&self) -> Option<Tally> {
        None
    }
}

#[test]
fn an_accumulator_that_cannot_be_copied() {
    let mut net: Network<Tally> = Network::new();
    let sink: Sink<i32> = Sink::new(&mut net);
    let factor: Signal<i32> = sink.stream().hold(&mut net, 1);
    let state = sink.stream().scan_mut(&mut net, Tally { seen: Vec::new() }, |t: Tally, n: i32| {
        let mut t = t;
        t.seen.push(n);
        t
    });
    let sum: Signal<i32> = state.combine(&mut net, &factor, |t: &Tally, k: i32| {
        k * t.seen.iter().sum::<i32>()
    });
    assert_eq!(sum.sample(&mut net), 0);
    sink.send(&mut net, 4);
    sink.send(&mut net, 3);
    assert_eq!(sum.sample(&mut net), 21);
    assert_eq!(sum.sample(&mut net), 21);
}

#[test]
fn a_pair_as_accumulator() {
    let mut net: Network = Network::new();
    let sink: Sink<i32> = Sink::new(&mut net);
    let unit: Signal<i32> = Signal::new(&mut net, 10);
    let state = sink.stream().scan_mut(&mut net, (0, String::new()), |s: (i32, String), n: i32| {
        (s.0 + 1, format!("{}{}", s.1, n))
    });
    let text: Signal<String> = state.combine(&mut net, &unit, |s: &(i32, String), k: i32| {
        format!("{}:{}", s.0 * k, s.1)
    });
    sink.send(&mut net, 7);
    sink.send(&mut net, 8);
    assert_eq!(text.sample(&mut net), "20:78");
}
