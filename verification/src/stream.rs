//! Streams of discrete events.
use crate::building::{
    lemma_add_source_valid, lemma_filter_map_made, lemma_filter_map_valid,
    lemma_filter_some_valid, lemma_lets_go_valid, lemma_listen_valid, lemma_map_valid,
    lemma_merge_valid, lemma_release_valid, lemma_scan_made, lemma_scan_valid,
    lemma_snapshot_valid, lemma_switch_valid, lemma_take_next_hands_out, lemma_take_next_valid,
};
use crate::consistency::lemma_sending_consistent;
use crate::copies::{
    lemma_becomes_copies, lemma_grows_copies, lemma_hands_out_copies, lemma_lets_go_copies,
};
use crate::course_laws::giving_up_changes_nothing_else;
use crate::cover::{
    covered_can_feed, covered_can_send, lemma_grows_covered, lemma_hands_out_covered,
    lemma_lets_go_covered,
    lemma_mapped2_covers, lemma_mapped_covers, lemma_selected_covers,
};
use crate::function::{
    mapped, mapped2, selected, total, total2, total_test, Mapping, Mapping2, Selection,
};
use crate::life::{lemma_sweep_consistent, lemma_sweep_sound};
use crate::life_laws::{what_is_held_survives_releases, what_is_held_survives_sending};
use crate::made_laws::{
    accumulates_to, are_accepted, are_contents, are_images, are_snapshots, filter_goes_on,
    filter_map_goes_on, filter_some_goes_on, fires_the_latest, interleaves, latest,
    listening_goes_on, map_goes_on, merge_fires_at_once, merge_goes_on, never_stays_silent,
    scan_goes_on, snapshot_goes_on, switch_goes_on,
};
use crate::model::{CellOrigin, ContentView, NetworkView, Origin, QueueView, SourceView};
use crate::network::Network;
use crate::signal::{self, Signal, SignalCycle, SignalMut};
use crate::signal_laws::lemma_is_now;
use crate::sound::{
    lemma_becomes_transitive, lemma_fire_sound, lemma_mapped2_takes, lemma_mapped_takes,
    lemma_reflexive, lemma_selected_takes,
};
use crate::source::Callback;
use crate::stream_laws::{
    lemma_fed_not_overstepped, lemma_sends, runs, sink_fires_what_is_fed, sink_fires_what_is_sent,
};
use crate::value::{lend_copy, Accumulator, Carried, Event, Item, Lent, Shape, Value};
use core::marker::PhantomData;
use vstd::prelude::*;
use vstd::std_specs::iter::IteratorSpec;

verus! {

/// An event sink.
///
/// This primitive is a way of generating streams of events. One can send
/// input values into a sink and generate a stream that fires all these inputs
/// as events.
///
/// The handles of a sink are its own and those of its stream. Once both have been
/// released, the source of the sink lives only as long as something that is alive
/// rests on it.
pub struct Sink<A> {
    number: u64,
    source: usize,
    marker: PhantomData<A>,
}

impl<A> Clone for Sink<A> {
    /// Another handle of the same sink.
    fn clone(&self) -> (copy: Sink<A>)
        ensures
            copy == *self,
    {
        Sink { number: self.number, source: self.source, marker: PhantomData }
    }
}

impl<A> Sink<A> {
    /// The number of the sink's source.
    pub closed spec fn id(&self) -> int {
        self.source as int
    }

    /// The number of the sink's network.
    pub closed spec fn home(&self) -> u64 {
        self.number
    }

    /// The sink is one of the network and has not been released.
    pub open spec fn within<T: Item>(&self, network: NetworkView<T>) -> bool where A: Event<T> {
        &&& self.home() == network.number
        &&& network.is_source(self.id())
        &&& network.sources[self.id()].shape == A::shape()
        &&& network.sources[self.id()].origin is Sink
        &&& network.sources[self.id()].pinned
    }

    /// All the events that have been sent into the sink, oldest first.
    pub open spec fn history<T: Item>(&self, network: NetworkView<T>) -> Seq<A> where A: Event<T> {
        decodings(network.sources[self.id()].history)
    }

    /// Create a new sink.
    pub fn new<T: Item>(network: &mut Network<T>) -> (sink: Sink<A>) where A: Event<T>
        requires
            old(network).wf(),
        ensures
            final(network).wf(),
            old(network)@.grows_to(final(network)@),
            final(network)@ == old(network)@.add_source(A::shape(), Origin::Sink),
            sink.id() == old(network)@.sources.len(),
            sink.within(final(network)@),
            sink.history(final(network)@).len() == 0,
            final(network)@.sources.len() == old(network)@.sources.len() + 1,
            final(network)@.cells.len() == old(network)@.cells.len(),
            final(network)@.queues.len() == old(network)@.queues.len(),
            final(network)@.sources[sink.id()].origin is Sink,
            final(network)@.sources[sink.id()].callbacks.len() == 0,
            old(network)@.covered() ==> final(network)@.covered(),
    {
        let ghost start = network@;
        proof {
            lemma_add_source_valid(network@, A::shape(), Origin::Sink);
        }
        let number: u64 = network.number();
        let source: usize = network.add_source(A::carried(), true, Ghost(Origin::Sink));
        proof {
            A::copied();
            lemma_grows_copies(start, network@);
            if start.covered() {
                lemma_grows_covered(start, network@);
            }
        }
        Sink { number, source, marker: PhantomData }
    }

    /// Generate a stream that fires all events sent into the sink.
    pub fn stream(&self) -> (stream: Stream<A>)
        ensures
            stream.id() == self.id(),
            stream.home() == self.home(),
    {
        Stream { number: self.number, source: self.source, marker: PhantomData }
    }

    /// Feed values from an iterator into the sink.
    ///
    /// This method feeds events into the sink from an iterator. They may be any
    /// if every function in the network takes everything, and otherwise those
    /// that make no function be applied to what it does not take.
    pub fn feed<T: Item, I: Iterator<Item = A>>(
        &self,
        network: &mut Network<T>,
        iterator: I,
    ) where A: Event<T>
        requires
            old(network).wf(),
            self.within(old(network)@),
            iterator.obeys_prophetic_iter_laws(),
            iterator.decrease() is Some,
            old(network)@.covered() || old(network)@.can_feed(
                self.id(),
                encodings(iterator.remaining()),
            ),
        ensures
            final(network).wf(),
            old(network)@.becomes(final(network)@),
            self.within(final(network)@),
            old(network)@.covered() ==> final(network)@.covered(),
            old(network)@.feeds(self.id(), encodings(iterator.remaining()), final(network)@),
            self.history(final(network)@) == self.history(old(network)@) + iterator.remaining(),
    {
        let ghost start = network@;
        let ghost all = iterator.remaining();
        let mut rest = iterator;
        let ghost mut count: int = 0;
        assert(encodings(all.take(0)) =~= Seq::<Value<T>>::empty());
        proof {
            lemma_reflexive(start, start.ids());
            lemma_encodings_fit::<T, A>(all);
            if start.covered() {
                covered_can_feed(start, self.id(), encodings(all));
            }
        }
        loop
            invariant_except_break
                network.wf(),
                start.becomes(network@),
                self.within(network@),
                rest.obeys_prophetic_iter_laws(),
                rest.decrease() is Some,
                0 <= count <= all.len(),
                rest.remaining() == all.skip(count),
                start.feeds(self.id(), encodings(all.take(count)), network@),
                start.can_feed(self.id(), encodings(all)),
                start.covered() ==> network@.covered(),
                start.sound(),
                start.is_source(self.id()),
                start.sources[self.id()].shape == A::shape(),
            ensures
                network.wf(),
                start.becomes(network@),
                self.within(network@),
                start.covered() ==> network@.covered(),
                start.feeds(self.id(), encodings(all), network@),
            decreases rest.decrease()->0,
        {
            match rest.next() {
                Some(event) => {
                    let ghost before = network@;
                    let ghost v = event.encode();
                    assert(event == all[count]);
                    proof {
                        let now = encodings::<T, A>(all.take(count + 1));
                        assert(now.last() == v);
                        assert(now.drop_last() =~= encodings::<T, A>(all.take(count)));
                        assert forall|given: Seq<Value<T>>|
                            before.returned.is_prefix_of(given) implies !(#[trigger] before.sent(
                            self.id(),
                            v,
                            given,
                        )).overstepped by {
                            assert(start.returned =~= given.subrange(
                                0,
                                start.returned.len() as int,
                            ));
                            assert(before == start.fed(self.id(), now.drop_last(), given));
                            assert(start.fed(self.id(), now, given) == before.sent(
                                self.id(),
                                v,
                                given,
                            ));
                            assert(!start.fed(self.id(), encodings(all), given).overstepped);
                            lemma_encodings_fit::<T, A>(all);
                            assert(now =~= encodings::<T, A>(all).take(count + 1));
                            lemma_fed_not_overstepped(
                                start,
                                self.id(),
                                encodings(all),
                                count + 1,
                                given,
                            );
                        }
                    }
                    self.send(network, event);
                    proof {
                        let after = network@;
                        let now = encodings::<T, A>(all.take(count + 1));
                        assert(now.last() == v);
                        assert(now.drop_last() =~= encodings::<T, A>(all.take(count)));
                        assert(all.skip(count).drop_first() =~= all.skip(count + 1));
                        lemma_becomes_transitive(start, before, after);
                        assert forall|given: Seq<Value<T>>|
                            after.returned.is_prefix_of(given) implies after
                            == #[trigger] start.fed(self.id(), now, given) by {
                            assert(before.returned =~= given.subrange(
                                0,
                                before.returned.len() as int,
                            ));
                            assert(before == start.fed(self.id(), now.drop_last(), given));
                            assert(after == before.sent(self.id(), v, given));
                        }
                        count = count + 1;
                    }
                },
                None => {
                    assert(all.take(count) =~= all);
                    break;
                },
            }
        }
        proof {
            sink_fires_what_is_fed(start, *self, all, network@);
        }
    }

    /// Send a value into the sink.
    ///
    /// When a value is sent into the sink, an event is fired in all dependent
    /// streams. The value may be any if every function in the network takes
    /// everything, and otherwise one that makes no function be applied to what it
    /// does not take.
    pub fn send<T: Item>(&self, network: &mut Network<T>, a: A) where A: Event<T>
        requires
            old(network).wf(),
            self.within(old(network)@),
            old(network)@.covered() || old(network)@.can_send(self.id(), a.encode()),
        ensures
            final(network).wf(),
            old(network)@.becomes(final(network)@),
            self.within(final(network)@),
            old(network)@.keeps_what_is_held(final(network)@),
            old(network)@.covered() ==> final(network)@.covered(),
            old(network)@.sends(self.id(), a.encode(), final(network)@),
            self.history(final(network)@) == self.history(old(network)@).push(a),
    {
        let ghost start = network@;
        let ghost v = a.encode();
        proof {
            a.encoded();
            if start.covered() {
                covered_can_send(start, self.id(), v);
            }
        }
        network.send(self.source, a.into_value());
        proof {
            lemma_becomes_copies(start, network@);
            let given = network@.returned;
            let fired = start.fire(given, start.ids(), self.id(), v, v);
            lemma_sends(start, self.id(), v, network@);
            lemma_fire_sound(start, given, start.ids(), self.id(), v, v);
            lemma_sweep_sound(fired);
            assert(network@.sources[self.id()].shape == start.sources[self.id()].shape);
            if !network@.poisoned {
                lemma_sending_consistent(start, self.id(), v, given);
                lemma_sweep_consistent(fired);
            }
            sink_fires_what_is_sent(start, *self, a, network@);
            what_is_held_survives_sending(start, *self, a, network@);
        }
    }

    /// Give up the sink: nobody sends into it any more.
    pub fn release<T: Item>(self, network: &mut Network<T>) where A: Event<T>
        requires
            old(network).wf(),
            self.within(old(network)@),
        ensures
            final(network).wf(),
            final(network)@ == old(network)@.unpin(self.id()),
            old(network)@.gives_up(final(network)@),
            old(network)@.keeps_what_is_held(final(network)@),
            old(network)@.leads_to(final(network)@),
            !final(network)@.sources[self.id()].pinned,
            final(network)@.sources[self.id()].released
                == old(network)@.sources[self.id()].released,
            old(network)@.same_streams_but(final(network)@, self.id()),
            old(network)@.same_signals_but(final(network)@, -1),
            old(network)@.same_listeners_but(final(network)@, -1),
            old(network)@.covered() ==> final(network)@.covered(),
    {
        let ghost start = network@;
        network.unpin(self.source);
        proof {
            let free = start.with_source(
                self.id(),
                SourceView { pinned: false, ..start.sources[self.id()] },
            );
            lemma_lets_go_valid(start, free);
            giving_up_changes_nothing_else(start, free);
            what_is_held_survives_releases(start, free);
            if start.covered() {
                lemma_lets_go_covered(start, free);
            }
        }
    }
}

/// The forms in which events travel have the shape of the events.
pub proof fn lemma_encodings_fit<T: Item, A: Event<T>>(events: Seq<A>)
    ensures
        forall|i: int|
            0 <= i < events.len() ==> (#[trigger] encodings::<T, A>(events)[i]).fits(A::shape()),
{
    assert forall|i: int| 0 <= i < events.len() implies (#[trigger] encodings::<T, A>(
        events,
    )[i]).fits(A::shape()) by {
        events[i].encoded();
    }
}

/// The forms in which events travel.
pub open spec fn encodings<T: Item, A: Event<T>>(events: Seq<A>) -> Seq<Value<T>> {
    events.map_values(|a: A| a.encode())
}

/// The events that travel as `values`.
pub open spec fn decodings<T: Item, A: Event<T>>(values: Seq<Value<T>>) -> Seq<A> {
    values.map_values(|v: Value<T>| A::decode(v)->0)
}

/// Access a stream's source.
pub fn source<A>(stream: &Stream<A>) -> (id: usize)
    ensures
        id == stream.id(),
{
    stream.source
}

/// A stream of discrete events.
///
/// This occasionally fires an event of type `A`.
///
/// A copy of a handle is a handle of the same stream. [`Stream::release`] is for
/// the last of them.
pub struct Stream<A> {
    number: u64,
    source: usize,
    marker: PhantomData<A>,
}

impl<A> Clone for Stream<A> {
    /// Another handle of the same stream.
    fn clone(&self) -> (copy: Stream<A>)
        ensures
            copy == *self,
    {
        Stream { number: self.number, source: self.source, marker: PhantomData }
    }
}

impl<T: Item, A: Event<T>> Carried<T> for Stream<A> {
    open spec fn shape() -> Shape {
        Shape::Stream(Box::new(A::shape()))
    }

    open spec fn encode(self) -> Value<T> {
        Value::Stream(self.home(), self.id() as usize, A::shape())
    }

    closed spec fn decode(value: Value<T>) -> Option<Stream<A>> {
        match value {
            Value::Stream(number, source, shape) => if shape == A::shape() {
                Some(Stream { number, source, marker: PhantomData })
            } else {
                None
            },
            _ => None,
        }
    }

    proof fn encoded(self) {
    }

    proof fn decoded(value: Value<T>) {
    }

    fn carried() -> (shape: Shape) {
        Shape::Stream(Box::new(A::carried()))
    }

    fn into_value(self) -> (value: Value<T>) {
        Value::Stream(self.number, self.source, A::carried())
    }

    fn from_value(value: Value<T>) -> (event: Option<Stream<A>>) {
        match value {
            Value::Stream(number, source, shape) => if shape.same(&A::carried()) {
                Some(Stream { number, source, marker: PhantomData })
            } else {
                None
            },
            _ => None,
        }
    }
}

impl<T: Item, A: Event<T>> Accumulator<T> for Stream<A> {
    fn lend<'a>(value: &'a Value<T>) -> (lent: Lent<'a, Stream<A>>) {
        lend_copy(value)
    }
}

impl<T: Item, A: Event<T>> Event<T> for Stream<A> {
    proof fn copied() {
    }
}

impl<A> Stream<A> {
    /// The number of the stream's source.
    pub closed spec fn id(&self) -> int {
        self.source as int
    }

    /// The number of the stream's network.
    pub closed spec fn home(&self) -> u64 {
        self.number
    }

    /// The number is one that the form in which a stream travels can hold.
    pub proof fn lemma_id_range(&self)
        ensures
            0 <= self.id() <= usize::MAX,
    {
    }

    /// The stream is one of the network; it may have ended.
    pub open spec fn known<T: Item>(&self, network: NetworkView<T>) -> bool where A: Event<T> {
        &&& self.home() == network.number
        &&& network.is_source(self.id())
        &&& network.sources[self.id()].shape == A::shape()
    }

    /// The stream is one of the network and has not ended.
    pub open spec fn lives<T: Item>(&self, network: NetworkView<T>) -> bool where A: Event<T> {
        self.known(network) && !network.sources[self.id()].ended
    }

    /// The stream is one of the network, and somebody has a handle of it.
    pub open spec fn within<T: Item>(&self, network: NetworkView<T>) -> bool where A: Event<T> {
        self.known(network) && network.sources[self.id()].is_held()
    }

    /// Whether the stream is one of the network and has not been released.
    pub fn belongs<T: Item>(&self, network: &Network<T>) -> (yes: bool) where A: Event<T>
        ensures
            yes == self.within(network@),
    {
        self.number == network.number() && network.is_held(self.source, &A::carried())
    }

    /// Give up the last handle of the stream outside of the network, those in
    /// functions and in values of a type of one's own included. It goes on firing
    /// as long as something that is alive rests on it; if there is nothing, it
    /// ends. A copy of the stream that a signal holds or that waits for a listener
    /// keeps it alive by itself, and whoever gets it from there has a handle again.
    pub fn release<T: Item>(self, network: &mut Network<T>) where A: Event<T>
        requires
            old(network).wf(),
            self.within(old(network)@),
        ensures
            final(network).wf(),
            final(network)@ == old(network)@.release(self.id()),
            old(network)@.gives_up(final(network)@),
            old(network)@.keeps_what_is_held(final(network)@),
            old(network)@.leads_to(final(network)@),
            final(network)@.sources[self.id()].released,
            final(network)@.sources[self.id()].pinned == old(network)@.sources[self.id()].pinned,
            old(network)@.same_streams_but(final(network)@, self.id()),
            old(network)@.same_signals_but(final(network)@, -1),
            old(network)@.same_listeners_but(final(network)@, -1),
            old(network)@.covered() ==> final(network)@.covered(),
    {
        let ghost start = network@;
        proof {
            lemma_release_valid(start, self.id());
        }
        network.release(self.source);
        proof {
            lemma_lets_go_copies(start, start.let_go(self.id()));
            giving_up_changes_nothing_else(start, start.let_go(self.id()));
            what_is_held_survives_releases(start, start.let_go(self.id()));
            if start.covered() {
                lemma_lets_go_covered(start, start.let_go(self.id()));
            }
        }
    }

    /// All the events that the stream has fired, oldest first.
    pub open spec fn history<T: Item>(&self, network: NetworkView<T>) -> Seq<A> where A: Event<T> {
        decodings(network.sources[self.id()].history)
    }

    /// What the stream has fired on the way from `network` to `later`, oldest first.
    pub open spec fn fired_since<T: Item>(
        &self,
        network: NetworkView<T>,
        later: NetworkView<T>,
    ) -> Seq<A> where A: Event<T> {
        self.history(later).skip(self.history(network).len() as int)
    }

    /// Create a stream that never fires. This can be useful in certain
    /// situations, where a stream is logically required, but no events are
    /// expected.
    pub fn never<T: Item>(network: &mut Network<T>) -> (stream: Stream<A>) where A: Event<T>
        requires
            old(network).wf(),
        ensures
            final(network).wf(),
            old(network)@.grows_to(final(network)@),
            final(network)@ == old(network)@.add_source(A::shape(), Origin::Never),
            stream.id() == old(network)@.sources.len(),
            stream.within(final(network)@),
            stream.history(final(network)@).len() == 0,
            final(network)@.sources.len() == old(network)@.sources.len() + 1,
            final(network)@.cells.len() == old(network)@.cells.len(),
            final(network)@.queues.len() == old(network)@.queues.len(),
            final(network)@.sources[stream.id()].origin is Never,
            forall|later: NetworkView<T>|
                #[trigger] final(network)@.leads_to(later) && runs(later) && stream.lives(later)
                    ==> stream.history(later).len() == 0,
            old(network)@.covered() ==> final(network)@.covered(),
    {
        let ghost start = network@;
        proof {
            lemma_add_source_valid(network@, A::shape(), Origin::Never);
        }
        let source: usize = network.add_source(A::carried(), false, Ghost(Origin::Never));
        proof {
            A::copied();
            lemma_grows_copies(start, network@);
            if start.covered() {
                lemma_grows_covered(start, network@);
            }
        }
        let stream = Stream { number: network.number(), source, marker: PhantomData };
        proof {
            let made = network@;
            assert forall|later: NetworkView<T>|
                #[trigger] made.leads_to(later) && runs(later) && stream.lives(
                    later,
                ) implies stream.history(later).len() == 0 by {
                never_stays_silent(made, later, stream);
            }
        }
        stream
    }

    /// Map the stream to another stream using a function.
    ///
    /// `map` applies a function to every event fired in this stream to create a
    /// new stream of type `B`.
    pub fn map<T: Item, B, F>(&self, network: &mut Network<T>, f: F) -> (stream: Stream<B>) where
        A: Event<T>,
        B: Event<T>,
        F: Fn(A) -> B + Send + Sync + 'static,

        requires
            old(network).wf(),
            self.within(old(network)@),
        ensures
            final(network).wf(),
            old(network)@.grows_to(final(network)@),
            final(network)@ == old(network)@.map(
                self.id(),
                B::shape(),
                mapped::<T, A, B, F>(f),
            ),
            stream.id() == old(network)@.sources.len(),
            stream.within(final(network)@),
            stream.history(final(network)@).len() == 0,
            final(network)@.sources.len() == old(network)@.sources.len() + 1,
            final(network)@.cells.len() == old(network)@.cells.len(),
            final(network)@.queues.len() == old(network)@.queues.len(),
            final(network)@.sources[stream.id()].origin == (Origin::Mapped {
                parent: self.id(),
                since: old(network)@.fired(self.id()),
                f: mapped::<T, A, B, F>(f),
            }),
            forall|later: NetworkView<T>|
                #[trigger] final(network)@.leads_to(later) && runs(later) && stream.lives(later)
                    ==> are_images::<A, B, F>(
                    f,
                    self.fired_since(old(network)@, later),
                    stream.history(later),
                ),
            old(network)@.covered() && total::<A, B, F>(f) ==> final(network)@.covered(),
    {
        let ghost start = network@;
        let ghost g = mapped::<T, A, B, F>(f);
        proof {
            lemma_mapped_takes::<T, A, B, F>(f);
            lemma_map_valid(start, self.id(), B::shape(), g);
        }
        let ghost origin = Origin::Mapped {
            parent: self.id(),
            since: start.fired(self.id()),
            f: g,
        };
        let target: usize = network.add_source(B::carried(), false, Ghost(origin));
        let kept = Box::new(Mapping::<T, A, B, F>::new(f));
        network.register(self.source, Callback::Mapped { f: kept, target });
        proof {
            B::copied();
            lemma_grows_copies(start, network@);
            if start.covered() && total::<A, B, F>(f) {
                lemma_mapped_covers::<T, A, B, F>(f);
                lemma_grows_covered(start, network@);
            }
        }
        let stream = Stream { number: network.number(), source: target, marker: PhantomData };
        proof {
            let made = network@;
            assert forall|later: NetworkView<T>|
                #[trigger] made.leads_to(later) && runs(later) && stream.lives(
                    later,
                ) implies are_images::<A, B, F>(
                f,
                self.fired_since(start, later),
                stream.history(later),
            ) by {
                map_goes_on::<T, A, B, F>(
                    made,
                    later,
                    *self,
                    start.fired(self.id()),
                    f,
                    stream,
                );
            }
        }
        stream
    }

    /// Filter a stream according to a predicate.
    ///
    /// `filter` creates a new stream that only fires those events from the
    /// stream that satisfy the predicate.
    pub fn filter<T: Item, F>(&self, network: &mut Network<T>, f: F) -> (stream: Stream<A>) where
        A: Event<T>,
        F: Fn(&A) -> bool + Send + Sync + 'static,

        requires
            old(network).wf(),
            self.within(old(network)@),
        ensures
            final(network).wf(),
            old(network)@.grows_to(final(network)@),
            final(network)@ == old(network)@.filter_map(
                self.id(),
                A::shape(),
                selected::<T, A, F>(f),
            ),
            stream.id() == old(network)@.sources.len() + 1,
            final(network)@.sources[old(network)@.sources.len() as int].origin == (Origin::Mapped {
                parent: self.id(),
                since: old(network)@.fired(self.id()),
                f: selected::<T, A, F>(f),
            }),
            final(network)@.sources[stream.id()].origin == (Origin::<T>::FilterSome {
                parent: old(network)@.sources.len() as int,
                since: 0,
            }),
            stream.within(final(network)@),
            stream.history(final(network)@).len() == 0,
            final(network)@.sources.len() == old(network)@.sources.len() + 2,
            final(network)@.cells.len() == old(network)@.cells.len(),
            final(network)@.queues.len() == old(network)@.queues.len(),
            forall|later: NetworkView<T>|
                #[trigger] final(network)@.leads_to(later) && runs(later) && stream.lives(later)
                    ==> are_accepted::<A, F>(
                    f,
                    self.fired_since(old(network)@, later),
                    stream.history(later),
                ),
            old(network)@.covered() && total_test::<A, F>(f) ==> final(network)@.covered(),
    {
        let ghost start = network@;
        let ghost g = selected::<T, A, F>(f);
        proof {
            lemma_selected_takes::<T, A, F>(f);
            lemma_map_valid(start, self.id(), <Option<A> as Carried<T>>::shape(), g);
            lemma_filter_map_valid(start, self.id(), A::shape(), g);
            lemma_filter_map_made(start, self.id(), A::shape(), g);
        }
        let ghost origin = Origin::Mapped {
            parent: self.id(),
            since: start.fired(self.id()),
            f: g,
        };
        let target: usize = network.add_source(
            <Option<A> as Carried<T>>::carried(),
            false,
            Ghost(origin),
        );
        let kept = Box::new(Selection::<T, A, F>::new(f));
        network.register(self.source, Callback::Mapped { f: kept, target });
        let options: Stream<Option<A>> = Stream {
            number: network.number(),
            source: target,
            marker: PhantomData,
        };
        proof {
            <Option<A> as Event<T>>::copied();
            lemma_grows_copies(start, network@);
        }
        let stream = options.filter_some(network);
        let ghost made = network@;
        proof {
            lemma_release_valid(made, target as int);
        }
        network.release(target);
        proof {
            lemma_lets_go_copies(made, made.let_go(target as int));
            if start.covered() && total_test::<A, F>(f) {
                lemma_selected_covers::<T, A, F>(f);
                lemma_grows_covered(start, network@);
            }
            let last = network@;
            assert forall|later: NetworkView<T>|
                #[trigger] last.leads_to(later) && runs(later) && stream.lives(
                    later,
                ) implies are_accepted::<A, F>(
                f,
                self.fired_since(start, later),
                stream.history(later),
            ) by {
                filter_goes_on::<T, A, F>(
                    last,
                    later,
                    *self,
                    start.fired(self.id()),
                    f,
                    target as int,
                    stream,
                );
            }
        }
        stream
    }

    /// Both filter and map a stream.
    ///
    /// This is equivalent to `.map(f).filter_some()`.
    pub fn filter_map<T: Item, B, F>(&self, network: &mut Network<T>, f: F) -> (stream: Stream<
        B,
    >) where A: Event<T>, B: Event<T>, F: Fn(A) -> Option<B> + Send + Sync + 'static
        requires
            old(network).wf(),
            self.within(old(network)@),
        ensures
            final(network).wf(),
            old(network)@.grows_to(final(network)@),
            final(network)@ == old(network)@.filter_map(
                self.id(),
                B::shape(),
                mapped::<T, A, Option<B>, F>(f),
            ),
            stream.id() == old(network)@.sources.len() + 1,
            final(network)@.sources[old(network)@.sources.len() as int].origin == (Origin::Mapped {
                parent: self.id(),
                since: old(network)@.fired(self.id()),
                f: mapped::<T, A, Option<B>, F>(f),
            }),
            final(network)@.sources[stream.id()].origin == (Origin::<T>::FilterSome {
                parent: old(network)@.sources.len() as int,
                since: 0,
            }),
            stream.within(final(network)@),
            stream.history(final(network)@).len() == 0,
            final(network)@.sources.len() == old(network)@.sources.len() + 2,
            final(network)@.cells.len() == old(network)@.cells.len(),
            final(network)@.queues.len() == old(network)@.queues.len(),
            forall|later: NetworkView<T>|
                #[trigger] final(network)@.leads_to(later) && runs(later) && stream.lives(later)
                    ==> are_contents::<A, B, F>(
                    f,
                    self.fired_since(old(network)@, later),
                    stream.history(later),
                ),
            old(network)@.covered() && total::<A, Option<B>, F>(f) ==> final(network)@.covered(),
    {
        let ghost start = network@;
        let ghost g = mapped::<T, A, Option<B>, F>(f);
        proof {
            lemma_mapped_takes::<T, A, Option<B>, F>(f);
            lemma_filter_map_valid(start, self.id(), B::shape(), g);
            lemma_filter_map_made(start, self.id(), B::shape(), g);
        }
        let options = self.map(network, f);
        let stream = options.filter_some(network);
        let ghost made = network@;
        proof {
            lemma_release_valid(made, options.id());
        }
        network.release(options.source);
        proof {
            lemma_lets_go_copies(made, made.let_go(options.id()));
            if start.covered() && total::<A, Option<B>, F>(f) {
                lemma_mapped_covers::<T, A, Option<B>, F>(f);
                lemma_grows_covered(start, network@);
            }
            let last = network@;
            assert forall|later: NetworkView<T>|
                #[trigger] last.leads_to(later) && runs(later) && stream.lives(
                    later,
                ) implies are_contents::<A, B, F>(
                f,
                self.fired_since(start, later),
                stream.history(later),
            ) by {
                filter_map_goes_on::<T, A, B, F>(
                    last,
                    later,
                    *self,
                    start.fired(self.id()),
                    f,
                    options.id(),
                    stream,
                );
            }
        }
        stream
    }

    /// Merge with another stream.
    ///
    /// `merge` takes two streams and creates a new stream that fires events
    /// from both input streams.
    pub fn merge<T: Item>(&self, network: &mut Network<T>, other: &Stream<A>) -> (stream: Stream<
        A,
    >) where A: Event<T>
        requires
            old(network).wf(),
            self.within(old(network)@),
            other.within(old(network)@),
        ensures
            final(network).wf(),
            old(network)@.grows_to(final(network)@),
            final(network)@ == old(network)@.merge(self.id(), other.id(), A::shape()),
            stream.id() == old(network)@.sources.len(),
            stream.within(final(network)@),
            stream.history(final(network)@).len() == 0,
            final(network)@.sources.len() == old(network)@.sources.len() + 1,
            final(network)@.cells.len() == old(network)@.cells.len(),
            final(network)@.queues.len() == old(network)@.queues.len(),
            final(network)@.sources[stream.id()].origin == (Origin::<T>::Merge {
                left: self.id(),
                left_since: old(network)@.fired(self.id()),
                right: other.id(),
                right_since: old(network)@.fired(other.id()),
            }),
            forall|later: NetworkView<T>|
                #[trigger] final(network)@.leads_to(later) && runs(later) && stream.lives(later)
                    ==> interleaves(
                    stream.history(later),
                    self.fired_since(old(network)@, later),
                    other.fired_since(old(network)@, later),
                ),
            forall|mid: NetworkView<T>, later: NetworkView<T>|
                #![trigger final(network)@.leads_to(mid), mid.leads_to(later)]
                final(network)@.leads_to(mid) && mid.leads_to(later) && runs(mid) && runs(later)
                    && stream.lives(later) ==> {
                    &&& other.history(later) == other.history(mid) ==> stream.history(later)
                        == stream.history(mid) + self.fired_since(mid, later)
                    &&& self.history(later) == self.history(mid) ==> stream.history(later)
                        == stream.history(mid) + other.fired_since(mid, later)
                },
            old(network)@.covered() ==> final(network)@.covered(),
    {
        let ghost start = network@;
        proof {
            lemma_merge_valid(start, self.id(), other.id(), A::shape());
        }
        let ghost origin = Origin::Merge {
            left: self.id(),
            left_since: start.fired(self.id()),
            right: other.id(),
            right_since: start.fired(other.id()),
        };
        let target: usize = network.add_source(A::carried(), false, Ghost(origin));
        network.register(self.source, Callback::Merge { left: true, target });
        network.register(other.source, Callback::Merge { left: false, target });
        proof {
            A::copied();
            lemma_grows_copies(start, network@);
            if start.covered() {
                assert forall|s: int, i: int|
                    #![trigger network@.sources[s].callbacks[i]]
                    network@.is_callback(s, i) && start.is_added(s, i) implies network@
                    .covered_entry(s, network@.sources[s].callbacks[i]) by {
                    assert(network@.sources[s].callbacks[i].reaction is Merge);
                }
                lemma_grows_covered(start, network@);
            }
        }
        let stream = Stream { number: network.number(), source: target, marker: PhantomData };
        proof {
            let made = network@;
            let left_since = start.fired(self.id());
            let right_since = start.fired(other.id());
            assert forall|later: NetworkView<T>|
                #[trigger] made.leads_to(later) && runs(later) && stream.lives(
                    later,
                ) implies interleaves(
                stream.history(later),
                self.fired_since(start, later),
                other.fired_since(start, later),
            ) by {
                merge_goes_on(made, later, *self, left_since, *other, right_since, stream);
            }
            assert forall|mid: NetworkView<T>, later: NetworkView<T>|
                #![trigger made.leads_to(mid), mid.leads_to(later)]
                made.leads_to(mid) && mid.leads_to(later) && runs(mid) && runs(later)
                    && stream.lives(later) implies {
                &&& other.history(later) == other.history(mid) ==> stream.history(later)
                    == stream.history(mid) + self.fired_since(mid, later)
                &&& self.history(later) == self.history(mid) ==> stream.history(later)
                    == stream.history(mid) + other.fired_since(mid, later)
            } by {
                merge_fires_at_once(
                    made,
                    mid,
                    later,
                    *self,
                    left_since,
                    *other,
                    right_since,
                    stream,
                );
            }
        }
        stream
    }

    /// Hold an event in a signal.
    ///
    /// The resulting signal `hold`s the value of the last event fired by the
    /// stream.
    pub fn hold<T: Item>(&self, network: &mut Network<T>, initial: A) -> (signal: Signal<A>) where
        A: Event<T>,

        requires
            old(network).wf(),
            self.within(old(network)@),
        ensures
            final(network).wf(),
            old(network)@.grows_to(final(network)@),
            final(network)@ == old(network)@.hold(self.id(), initial.encode()),
            signal.id() == old(network)@.cells.len(),
            signal.within(final(network)@),
            signal.is_now(final(network)@, initial),
            final(network)@.sources.len() == old(network)@.sources.len(),
            final(network)@.cells.len() == old(network)@.cells.len() + 1,
            final(network)@.queues.len() == old(network)@.queues.len(),
            final(network)@.cells[signal.id()].origin == (CellOrigin::Hold {
                parent: self.id(),
                since: old(network)@.fired(self.id()),
                initial: initial.encode(),
            }),
            forall|later: NetworkView<T>|
                #[trigger] final(network)@.leads_to(later) && runs(later) && signal.lives(later)
                    ==> signal.is_now(
                    later,
                    latest(initial, self.fired_since(old(network)@, later)),
                ),
            old(network)@.covered() ==> final(network)@.covered(),
    {
        signal::hold(network, initial, self)
    }

    /// The events that the stream fires from now on, one after the other.
    pub fn events<T: Item>(&self, network: &mut Network<T>) -> (events: Events<A>) where
        A: Event<T>,

        requires
            old(network).wf(),
            self.within(old(network)@),
        ensures
            final(network).wf(),
            old(network)@.grows_to(final(network)@),
            final(network)@ == old(network)@.listen(self.id()),
            events.id() == old(network)@.queues.len(),
            events.within(final(network)@),
            events.received(final(network)@).len() == 0,
            events.waiting(final(network)@).len() == 0,
            final(network)@.sources.len() == old(network)@.sources.len(),
            final(network)@.cells.len() == old(network)@.cells.len(),
            final(network)@.queues.len() == old(network)@.queues.len() + 1,
            final(network)@.queues[events.id()].open,
            final(network)@.queues[events.id()].parent == self.id(),
            final(network)@.queues[events.id()].since == old(network)@.fired(self.id()),
            forall|later: NetworkView<T>|
                #[trigger] final(network)@.leads_to(later) && runs(later)
                    && later.queues[events.id()].open ==> {
                    &&& events.received(later) == self.fired_since(old(network)@, later)
                    &&& events.waiting(later).is_suffix_of(events.received(later))
                },
            old(network)@.covered() ==> final(network)@.covered(),
    {
        Events::new(network, self)
    }

    /// Scan a stream and accumulate its event firings in a signal.
    ///
    /// Starting at some initial value, each new event changes the value of the
    /// resulting signal as prescribed by the supplied function.
    pub fn scan<T: Item, B, F>(&self, network: &mut Network<T>, initial: B, f: F) -> (signal:
        Signal<B>) where
        A: Event<T>,
        B: Event<T>,
        F: Fn(B, A) -> B + Send + Sync + 'static,

        requires
            old(network).wf(),
            self.within(old(network)@),
        ensures
            final(network).wf(),
            old(network)@.grows_to(final(network)@),
            final(network)@ == old(network)@.scan(
                self.id(),
                B::shape(),
                initial.encode(),
                mapped2::<T, B, A, B, F>(f),
            ),
            signal.id() == old(network)@.cells.len(),
            signal.within(final(network)@),
            signal.is_now(final(network)@, initial),
            final(network)@.sources.len() == old(network)@.sources.len() + 1,
            final(network)@.cells.len() == old(network)@.cells.len() + 2,
            final(network)@.queues.len() == old(network)@.queues.len(),
            final(network)@.sources[old(network)@.sources.len() as int].shape == B::shape(),
            final(network)@.sources[old(network)@.sources.len() as int].origin == (
            Origin::Snapshot {
                parent: self.id(),
                since: old(network)@.fired(self.id()),
                signal: signal.id(),
                f: mapped2::<T, B, A, B, F>(f),
            }),
            final(network)@.cells[signal.id()].content matches ContentView::Alias(held)
                && final(network)@.cells[held].origin == (CellOrigin::Hold {
                parent: old(network)@.sources.len() as int,
                since: 0,
                initial: initial.encode(),
            }),
            forall|later: NetworkView<T>|
                #[trigger] final(network)@.leads_to(later) && runs(later) && signal.lives(later)
                    ==> exists|b: B| #[trigger]
                accumulates_to::<A, B, F>(
                        f,
                        initial,
                        self.fired_since(old(network)@, later),
                        b,
                    ) && signal.is_now(later, b),
            old(network)@.covered() && total2::<B, A, B, F>(f) ==> final(network)@.covered(),
    {
        let ghost start = network@;
        let ghost first = initial.encode();
        let ghost g = mapped2::<T, B, A, B, F>(f);
        proof {
            initial.encoded();
            lemma_mapped2_takes::<T, B, A, B, F>(f);
            lemma_scan_valid(start, self.id(), B::shape(), first, g);
        }
        let scan = SignalCycle::new(network);
        let results = scan.snapshot(network, self, f);
        let definition = results.hold(network, initial);
        let signal = scan.define(network, definition);
        let ghost made = network@;
        proof {
            lemma_release_valid(made, results.id());
        }
        network.release(results.source);
        proof {
            lemma_lets_go_copies(made, made.let_go(results.id()));
            lemma_scan_made(start, self.id(), B::shape(), first, g);
            lemma_is_now(network@, signal.id(), initial);
            if start.covered() && total2::<B, A, B, F>(f) {
                lemma_mapped2_covers::<T, B, A, B, F>(f);
                lemma_grows_covered(start, network@);
            }
            let last = network@;
            assert forall|later: NetworkView<T>|
                #[trigger] last.leads_to(later) && runs(later) && signal.lives(
                    later,
                ) implies exists|b: B| #[trigger]
                accumulates_to::<A, B, F>(
                    f,
                    initial,
                    self.fired_since(start, later),
                    b,
                ) && signal.is_now(later, b) by {
                let b = scan_goes_on::<T, A, B, F>(
                    last,
                    later,
                    *self,
                    start.fired(self.id()),
                    initial,
                    f,
                    results.id(),
                    signal,
                );
                assert(accumulates_to::<A, B, F>(
                    f,
                    initial,
                    self.fired_since(start, later),
                    b,
                ));
            }
        }
        signal
    }

    /// Scan a stream and accumulate its event firings in some mutable state.
    ///
    /// Semantically this is equivalent to `scan`. However, an update does not copy
    /// the accumulator: it is handed to the function, which hands it back. One of
    /// one's own type is never copied, and need not be of a type that can be: a
    /// combination reads it where it is.
    pub fn scan_mut<T: Item, B, F>(&self, network: &mut Network<T>, initial: B, f: F) -> (signal:
        SignalMut<B>) where
        A: Event<T>,
        B: Accumulator<T>,
        F: Fn(B, A) -> B + Send + Sync + 'static,

        requires
            old(network).wf(),
            self.within(old(network)@),
        ensures
            final(network).wf(),
            old(network)@.grows_to(final(network)@),
            final(network)@ == old(network)@.scan_mut(
                self.id(),
                B::shape(),
                initial.encode(),
                mapped2::<T, B, A, B, F>(f),
            ),
            signal.id() == old(network)@.cells.len(),
            signal.within(final(network)@),
            signal.is_now(final(network)@, initial),
            final(network)@.sources.len() == old(network)@.sources.len(),
            final(network)@.cells.len() == old(network)@.cells.len() + 1,
            final(network)@.queues.len() == old(network)@.queues.len(),
            final(network)@.cells[signal.id()].origin == (CellOrigin::ScanMut {
                parent: self.id(),
                since: old(network)@.fired(self.id()),
                initial: initial.encode(),
                f: mapped2::<T, B, A, B, F>(f),
            }),
            forall|later: NetworkView<T>|
                #[trigger] final(network)@.leads_to(later) && runs(later) && signal.lives(later)
                    ==> exists|b: B| #[trigger]
                accumulates_to::<A, B, F>(
                        f,
                        initial,
                        self.fired_since(old(network)@, later),
                        b,
                    ) && signal.is_now(later, b),
            old(network)@.covered() && total2::<B, A, B, F>(f) ==> final(network)@.covered(),
    {
        signal::scan_mut(network, self, initial, f)
    }
}

impl<A> Stream<Option<A>> {
    /// Filter a stream of options.
    ///
    /// `filter_some` creates a new stream that only fires the unwrapped
    /// `Some(..)` events from the stream of options omitting any `None` events.
    pub fn filter_some<T: Item>(&self, network: &mut Network<T>) -> (stream: Stream<A>) where
        A: Event<T>,

        requires
            old(network).wf(),
            self.within(old(network)@),
        ensures
            final(network).wf(),
            old(network)@.grows_to(final(network)@),
            final(network)@ == old(network)@.filter_some(self.id(), A::shape()),
            stream.id() == old(network)@.sources.len(),
            stream.within(final(network)@),
            stream.history(final(network)@).len() == 0,
            final(network)@.sources.len() == old(network)@.sources.len() + 1,
            final(network)@.cells.len() == old(network)@.cells.len(),
            final(network)@.queues.len() == old(network)@.queues.len(),
            final(network)@.sources[stream.id()].origin == (Origin::<T>::FilterSome {
                parent: self.id(),
                since: old(network)@.fired(self.id()),
            }),
            forall|later: NetworkView<T>|
                #[trigger] final(network)@.leads_to(later) && runs(later) && stream.lives(later)
                    ==> stream.history(later)
                    == self.fired_since(old(network)@, later).filter_map(|o: Option<A>| o),
            old(network)@.covered() ==> final(network)@.covered(),
    {
        let ghost start = network@;
        proof {
            lemma_filter_some_valid(start, self.id(), A::shape());
        }
        let ghost origin = Origin::FilterSome {
            parent: self.id(),
            since: start.fired(self.id()),
        };
        let target: usize = network.add_source(A::carried(), false, Ghost(origin));
        network.register(self.source, Callback::FilterSome { target });
        proof {
            A::copied();
            lemma_grows_copies(start, network@);
            if start.covered() {
                lemma_grows_covered(start, network@);
            }
        }
        let stream = Stream { number: network.number(), source: target, marker: PhantomData };
        proof {
            let made = network@;
            assert forall|later: NetworkView<T>|
                #[trigger] made.leads_to(later) && runs(later) && stream.lives(
                    later,
                ) implies stream.history(later) == self.fired_since(start, later).filter_map(
                |o: Option<A>| o,
            ) by {
                filter_some_goes_on(made, later, *self, start.fired(self.id()), stream);
            }
        }
        stream
    }
}

impl<A> Stream<Stream<A>> {
    /// Switch between streams.
    ///
    /// This takes a stream of streams and maps it to a new stream, which fires
    /// all events from the most recent stream fired into it.
    pub fn switch<T: Item>(&self, network: &mut Network<T>) -> (stream: Stream<A>) where
        A: Event<T>,

        requires
            old(network).wf(),
            self.within(old(network)@),
        ensures
            final(network).wf(),
            old(network)@.grows_to(final(network)@),
            final(network)@ == old(network)@.switch(self.id(), A::shape()),
            stream.id() == old(network)@.sources.len(),
            stream.within(final(network)@),
            stream.history(final(network)@).len() == 0,
            final(network)@.sources.len() == old(network)@.sources.len() + 1,
            final(network)@.cells.len() == old(network)@.cells.len(),
            final(network)@.queues.len() == old(network)@.queues.len(),
            final(network)@.sources[stream.id()].origin == (Origin::<T>::Switch {
                parent: self.id(),
                since: old(network)@.fired(self.id()),
            }),
            forall|mid: NetworkView<T>, later: NetworkView<T>|
                #![trigger final(network)@.leads_to(mid), mid.leads_to(later)]
                final(network)@.leads_to(mid) && mid.leads_to(later) && runs(mid) && runs(later)
                    && stream.lives(later) && self.history(later) == self.history(mid)
                    ==> fires_the_latest(
                    mid,
                    later,
                    self.fired_since(old(network)@, mid),
                    stream,
                ),
            old(network)@.covered() ==> final(network)@.covered(),
    {
        let ghost start = network@;
        proof {
            lemma_switch_valid(start, self.id(), A::shape());
        }
        let ghost origin = Origin::Switch { parent: self.id(), since: start.fired(self.id()) };
        let target: usize = network.add_source(A::carried(), false, Ghost(origin));
        network.register(self.source, Callback::Switch { target });
        proof {
            A::copied();
            lemma_grows_copies(start, network@);
            if start.covered() {
                lemma_grows_covered(start, network@);
            }
        }
        let stream = Stream { number: network.number(), source: target, marker: PhantomData };
        proof {
            let made = network@;
            assert forall|mid: NetworkView<T>, later: NetworkView<T>|
                #![trigger made.leads_to(mid), mid.leads_to(later)]
                made.leads_to(mid) && mid.leads_to(later) && runs(mid) && runs(later)
                    && stream.lives(later) && self.history(later) == self.history(
                    mid,
                ) implies fires_the_latest(
                mid,
                later,
                self.fired_since(start, mid),
                stream,
            ) by {
                switch_goes_on(made, mid, later, *self, start.fired(self.id()), stream);
            }
        }
        stream
    }
}

/// Make a snapshot of a signal, whenever a stream fires an event.
pub fn snapshot<T: Item, A, B, C, F>(
    network: &mut Network<T>,
    signal: &Signal<A>,
    stream: &Stream<B>,
    f: F,
) -> (snapshots: Stream<C>) where
    A: Event<T>,
    B: Event<T>,
    C: Event<T>,
    F: Fn(A, B) -> C + Send + Sync + 'static,

    requires
        old(network).wf(),
        signal.usable(old(network)@),
        stream.within(old(network)@),
    ensures
        final(network).wf(),
        old(network)@.grows_to(final(network)@),
        final(network)@ == old(network)@.snapshot(
            signal.id(),
            stream.id(),
            C::shape(),
            mapped2::<T, A, B, C, F>(f),
        ),
        snapshots.id() == old(network)@.sources.len(),
        snapshots.within(final(network)@),
        snapshots.history(final(network)@).len() == 0,
        final(network)@.sources.len() == old(network)@.sources.len() + 1,
        final(network)@.cells.len() == old(network)@.cells.len(),
        final(network)@.queues.len() == old(network)@.queues.len(),
        final(network)@.sources[snapshots.id()].origin == (Origin::Snapshot {
            parent: stream.id(),
            since: old(network)@.fired(stream.id()),
            signal: signal.id(),
            f: mapped2::<T, A, B, C, F>(f),
        }),
        forall|later: NetworkView<T>|
            #[trigger] final(network)@.leads_to(later) && runs(later) && snapshots.lives(later)
                ==> exists|samples: Seq<A>| #[trigger]
                are_snapshots::<A, B, C, F>(
                    f,
                    samples,
                    stream.fired_since(old(network)@, later),
                    snapshots.history(later),
                ),
        old(network)@.covered() && total2::<A, B, C, F>(f) ==> final(network)@.covered(),
{
    let ghost start = network@;
    let ghost g = mapped2::<T, A, B, C, F>(f);
    proof {
        lemma_mapped2_takes::<T, A, B, C, F>(f);
        lemma_snapshot_valid(start, signal.id(), stream.id(), C::shape(), g);
    }
    let ghost origin = Origin::Snapshot {
        parent: stream.id(),
        since: start.fired(stream.id()),
        signal: signal.id(),
        f: g,
    };
    let target: usize = network.add_source(C::carried(), false, Ghost(origin));
    let kept = Box::new(Mapping2::<T, A, B, C, F>::new(f));
    network.register(
        stream.source,
        Callback::Snapshot { signal: signal::cell(signal), f: kept, target },
    );
    proof {
        A::copied();
        C::copied();
        lemma_grows_copies(start, network@);
        if start.covered() && total2::<A, B, C, F>(f) {
            lemma_mapped2_covers::<T, A, B, C, F>(f);
            lemma_grows_covered(start, network@);
        }
    }
    let snapshots = Stream { number: network.number(), source: target, marker: PhantomData };
    proof {
        let made = network@;
        assert forall|later: NetworkView<T>|
            #[trigger] made.leads_to(later) && runs(later) && snapshots.lives(
                later,
            ) implies exists|samples: Seq<A>| #[trigger]
            are_snapshots::<A, B, C, F>(
                f,
                samples,
                stream.fired_since(start, later),
                snapshots.history(later),
            ) by {
            let samples = snapshot_goes_on::<T, A, B, C, F>(
                made,
                later,
                *signal,
                *stream,
                start.fired(stream.id()),
                f,
                snapshots,
            );
            assert(are_snapshots::<A, B, C, F>(
                f,
                samples,
                stream.fired_since(start, later),
                snapshots.history(later),
            ));
        }
    }
    snapshots
}

/// The events in a stream, from the time on when it was made.
pub struct Events<A> {
    number: u64,
    queue: usize,
    marker: PhantomData<A>,
}

impl<A> Events<A> {
    /// The number of the queue in which the events wait.
    pub closed spec fn id(&self) -> int {
        self.queue as int
    }

    /// The number of the network.
    pub closed spec fn home(&self) -> u64 {
        self.number
    }

    /// The events are those of a stream of the network.
    pub open spec fn within<T: Item>(&self, network: NetworkView<T>) -> bool where A: Event<T> {
        &&& self.home() == network.number
        &&& network.is_queue(self.id())
        &&& network.queues[self.id()].shape == A::shape()
    }

    /// All the events that have come, oldest first.
    pub open spec fn received<T: Item>(&self, network: NetworkView<T>) -> Seq<A> where A: Event<T> {
        decodings(network.queues[self.id()].received)
    }

    /// Those of them that have not been taken out yet.
    pub open spec fn waiting<T: Item>(&self, network: NetworkView<T>) -> Seq<A> where A: Event<T> {
        decodings(network.queues[self.id()].waiting)
    }

    /// Listen to a stream.
    fn new<T: Item>(network: &mut Network<T>, stream: &Stream<A>) -> (events: Events<A>) where
        A: Event<T>,

        requires
            old(network).wf(),
            stream.within(old(network)@),
        ensures
            final(network).wf(),
            old(network)@.grows_to(final(network)@),
            final(network)@ == old(network)@.listen(stream.id()),
            events.id() == old(network)@.queues.len(),
            events.within(final(network)@),
            events.received(final(network)@).len() == 0,
            events.waiting(final(network)@).len() == 0,
            final(network)@.sources.len() == old(network)@.sources.len(),
            final(network)@.cells.len() == old(network)@.cells.len(),
            final(network)@.queues.len() == old(network)@.queues.len() + 1,
            final(network)@.queues[events.id()].open,
            final(network)@.queues[events.id()].parent == stream.id(),
            final(network)@.queues[events.id()].since == old(network)@.fired(stream.id()),
            forall|later: NetworkView<T>|
                #[trigger] final(network)@.leads_to(later) && runs(later)
                    && later.queues[events.id()].open ==> {
                    &&& events.received(later) == stream.fired_since(old(network)@, later)
                    &&& events.waiting(later).is_suffix_of(events.received(later))
                },
            old(network)@.covered() ==> final(network)@.covered(),
    {
        let ghost start = network@;
        proof {
            lemma_listen_valid(network@, stream.id());
        }
        let queue: usize = network.listen(stream.source);
        proof {
            lemma_grows_copies(start, network@);
            if start.covered() {
                lemma_grows_covered(start, network@);
            }
        }
        let events = Events { number: network.number(), queue, marker: PhantomData };
        proof {
            let made = network@;
            assert forall|later: NetworkView<T>|
                #[trigger] made.leads_to(later) && runs(later)
                    && later.queues[events.id()].open implies {
                &&& events.received(later) == stream.fired_since(start, later)
                &&& events.waiting(later).is_suffix_of(events.received(later))
            } by {
                listening_goes_on(made, later, *stream, start.fired(stream.id()), events);
            }
        }
        events
    }

    /// The next event of the stream: the oldest one that waits. There has to be
    /// one, since nobody can send while the network is at hand. Whoever gets the
    /// event has handles of the streams in it.
    pub fn next<T: Item>(&mut self, network: &mut Network<T>) -> (event: Option<A>) where
        A: Event<T>,

        requires
            old(network).wf(),
            old(self).within(old(network)@),
            old(self).waiting(old(network)@).len() > 0,
        ensures
            final(network).wf(),
            *final(self) == *old(self),
            final(self).within(final(network)@),
            final(network)@ == old(network)@.take_next(old(self).id()),
            old(network)@.hands_out(final(network)@),
            old(network)@.same_listeners_but(final(network)@, old(self).id()),
            final(network)@.queues[old(self).id()].open
                == old(network)@.queues[old(self).id()].open,
            forall|s: int|
                old(network)@.is_source(s) ==> (#[trigger] final(network)@.sources[s]).released == (
                old(network)@.sources[s].released && !(event is Some && event->0.encode().names(
                    old(network)@.number,
                    s,
                ) && !old(network)@.sources[s].ended)),
            old(network)@.covered() ==> final(network)@.covered(),
            event == Some(old(self).waiting(old(network)@).first()),
            final(self).waiting(final(network)@) == old(self).waiting(
                old(network)@,
            ).drop_first(),
            final(self).received(final(network)@) == old(self).received(old(network)@),
    {
        self.try_next(network)
    }

    /// Take the oldest event that waits, if there is one: there is none if all
    /// that the stream has fired so far has been taken.
    pub fn try_next<T: Item>(&mut self, network: &mut Network<T>) -> (event: Option<A>) where
        A: Event<T>,

        requires
            old(network).wf(),
            old(self).within(old(network)@),
        ensures
            final(network).wf(),
            *final(self) == *old(self),
            final(self).within(final(network)@),
            final(network)@ == old(network)@.take_next(old(self).id()),
            old(network)@.hands_out(final(network)@),
            old(network)@.same_listeners_but(final(network)@, old(self).id()),
            final(network)@.queues[old(self).id()].open
                == old(network)@.queues[old(self).id()].open,
            forall|s: int|
                old(network)@.is_source(s) ==> (#[trigger] final(network)@.sources[s]).released == (
                old(network)@.sources[s].released && !(event is Some && event->0.encode().names(
                    old(network)@.number,
                    s,
                ) && !old(network)@.sources[s].ended)),
            old(network)@.covered() ==> final(network)@.covered(),
            event is None <==> old(self).waiting(old(network)@).len() == 0,
            event is None ==> final(network)@ == old(network)@,
            event is Some ==> {
                &&& event->0 == old(self).waiting(old(network)@).first()
                &&& final(self).waiting(final(network)@) == old(self).waiting(
                    old(network)@,
                ).drop_first()
            },
            final(self).received(final(network)@) == old(self).received(old(network)@),
    {
        let ghost start = network@;
        proof {
            assert(start.sound_queue(self.id()));
            if start.queues[self.id()].waiting.len() > 0 {
                assert(start.queues[self.id()].waiting[0].fits(A::shape()));
                A::decoded(start.queues[self.id()].waiting[0]);
            }
            lemma_take_next_valid(start, self.id());
            lemma_take_next_hands_out(start, self.id());
        }
        let taken = network.take_next(self.queue);
        proof {
            assert(network@.queues[self.id()].received == start.queues[self.id()].received);
            lemma_hands_out_copies(start, network@);
            if start.covered() {
                lemma_hands_out_covered(start, network@);
            }
        }
        match taken {
            Some(v) => {
                assert(self.waiting(network@) =~= self.waiting(start).drop_first());
                A::from_value(v)
            },
            None => None,
        }
    }

    /// Stop listening.
    pub fn close<T: Item>(self, network: &mut Network<T>) where A: Event<T>
        requires
            old(network).wf(),
            self.within(old(network)@),
        ensures
            final(network).wf(),
            final(network)@ == old(network)@.close(self.id()),
            old(network)@.gives_up(final(network)@),
            old(network)@.keeps_what_is_held(final(network)@),
            old(network)@.leads_to(final(network)@),
            final(network)@.queues[self.id()] == (QueueView {
                open: false,
                waiting: Seq::empty(),
                ..old(network)@.queues[self.id()]
            }),
            old(network)@.same_streams_but(final(network)@, -1),
            old(network)@.same_signals_but(final(network)@, -1),
            old(network)@.same_listeners_but(final(network)@, self.id()),
            old(network)@.covered() ==> final(network)@.covered(),
    {
        let ghost start = network@;
        network.close(self.queue);
        proof {
            let shut = start.shut(self.id());
            lemma_lets_go_valid(start, shut);
            giving_up_changes_nothing_else(start, shut);
            what_is_held_survives_releases(start, shut);
            if start.covered() {
                lemma_lets_go_covered(start, shut);
            }
        }
    }
}

} // verus!
