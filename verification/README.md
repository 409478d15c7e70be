# carboxyl

Functional reactive programming with streams of discrete events and signals
that vary over time, verified with Verus.

A `Network` holds everything that streams and signals share. Handles (`Sink`,
`Stream`, `Signal`, `SignalMut`, `Events`) are numbers of its parts, and
whoever has the network at hand exclusively is in a transaction: an event that
is sent runs through everything that depends on it before anything else
happens.

```rust
let mut net: Network = Network::new();
let sink: Sink<i32> = Sink::new(&mut net);
let sum: Signal<i32> = sink.stream().scan(&mut net, 0, |a: i32, b: i32| a + b);
let mut events = sink.stream().events(&mut net);
sink.send(&mut net, 2);
sink.send(&mut net, 4);
assert_eq!(sum.sample(&mut net), 6);
assert_eq!(events.next(&mut net), Some(2));
```

A listener's `next` gives the next event of the stream. While the network is at
hand nobody else can send, so there has to be one that waits; `try_next` says
whether there is. `app/` waits.

Events are integers of every width, booleans, characters, texts, unit, and
options, results, pairs and streams of events (`Event`). A network can carry a
type of one's own besides (`Item`, and `Copied` if its values are to be fired); a
vector travels inside of such a type. A value of one's own that is only
accumulated (`scan_mut`) is never copied, and need not be of a type that can be
(`Accumulator`).

## How long things last

What a combinator makes rests on what it is made of, and a switch rests on the
stream that it follows at present. A stream that is carried as a value rests in
the signal that holds it, or in the listener that it waits for. A stream or
signal goes on as long as a handle of it is held or something that goes on
rests on it or holds it. `release` gives up the last handle; sampling a signal
of streams, or taking a stream out of a listener, gives one again. What has
ended fires no more, holds nothing, and its functions are applied no more; its
number is not given out again.

Networks have numbers (`Network::numbered`), and a handle carries that of its
network. Networks with the same number are not told apart.

## What is promised

A function that is handed to a combinator may ask something of what it is
applied to, and need not return the same whenever it is applied to the same. If
every function takes everything (`NetworkView::covered`), anything can be sent
and sampled. Otherwise `NetworkView::can_send` says what can be.
`NetworkView::returned` records the results that were used, and with those at
hand the state after sending an event is exactly `NetworkView::sent`.

A source that is made to fire while it is firing poisons its network. So does
sampling a signal that has no value yet while events run, and handing over to a
switch a stream which is firing, has ended or carries the number of another
network. `Network::is_poisoned` tells. Nothing is promised of a poisoned network
but that it stays sound. `sending_does_not_poison` and `feeding_does_not_poison`
say when this cannot happen.

## Layout

- `src/value.rs`, `src/primitive.rs`, `src/function.rs`: events and users'
  functions in the form in which a network keeps them.
- `src/model.rs`: what a network is and how events run through it,
  mathematically. The contracts are stated over this model.
- `src/source.rs`, `src/network.rs`: the executable network.
- `src/stream.rs`, `src/signal.rs`: what users call.
- `src/sound.rs`, `src/consistency.rs`, `src/building.rs`, `src/life.rs`: the
  invariants of a network and the proof that everything keeps them.
- `src/cover.rs`: networks whose functions take everything.
- `src/copies.rs`: what is copied in a network, and what is not.
- `src/results.rs`: what is decided by the results that users' functions give.
- `src/steady.rs`, `src/flow.rs`: what events leave as it was, and when they run
  through a network without poisoning it.
- `src/*_laws.rs`: what users can rely on, as proof functions.
- `app/`: the same streams shared between threads, with handles that count
  themselves, asynchronous sending and blocking listeners.
