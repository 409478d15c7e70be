//! The laws of what is made: what streams, signals and listeners do from the moment on
//! in which they are made.
//!
//! `made` is a network in which the thing has just been made, and `later` any network
//! that comes after it, whatever has been sent, made, handed out and released in
//! between.
use crate::consistency::{is_snapshot, woven};
use crate::course_laws::sending_leads_on;
use crate::function::{mapped, mapped2, mapped_on, selected, Binary};
use crate::model::{CellOrigin, ContentView, NetworkView, Origin, Reaction};
use crate::signal::{Signal, SignalMut};
use crate::signal_laws::{
    accumulates, combine_applies, constant_is_what_it_was_made_with, hold_is_the_last_event,
    sample_at, scan_accumulates, scan_mut_accumulates, snapshot_applies,
    snapshot_is_of_its_moment,
};
use crate::stream::{Events, Sink, Stream};
use crate::stream_laws::{
    events_arrive_in_order, filter_fires_what_is_accepted, filter_map_fires_what_results_hold,
    filter_some_unwraps, lemma_effect, map_fires_images, merge_fires_both, merge_fires_in_order,
    never_fires_nothing, picked, runs, sink_fires_what_is_sent,
};
use crate::switch_laws::{switch_fires_what_it_follows, switch_follows_the_latest};
use crate::value::{Carried, Event, Item};
use vstd::prelude::*;

verus! {

// ---- What functions make of events ----

/// The images are what the function gives for the events, one for each, in order.
pub open spec fn are_images<A, B, F: Fn(A) -> B>(f: F, events: Seq<A>, images: Seq<B>) -> bool {
    &&& images.len() == events.len()
    &&& forall|i: int| 0 <= i < events.len() ==> f.ensures((events[i],), #[trigger] images[i])
}

/// Those are left of the events for which the predicate gives true, in order.
pub open spec fn are_accepted<A, F: Fn(&A) -> bool>(f: F, events: Seq<A>, left: Seq<A>) -> bool {
    exists|verdicts: Seq<bool>|
        {
            &&& verdicts.len() == events.len()
            &&& forall|i: int|
                0 <= i < events.len() ==> f.ensures((&events[i],), #[trigger] verdicts[i])
            &&& left == #[trigger] picked(events, verdicts)
        }
}

/// What is left are the contents of what the function gives for the events, in order.
pub open spec fn are_contents<A, B, F: Fn(A) -> Option<B>>(
    f: F,
    events: Seq<A>,
    left: Seq<B>,
) -> bool {
    exists|results: Seq<Option<B>>|
        {
            &&& #[trigger] are_images::<A, Option<B>, F>(f, events, results)
            &&& left == results.filter_map(|o: Option<B>| o)
        }
}

/// The images are what the function gives for the samples and the events, one for
/// each, in order.
pub open spec fn are_snapshots<A, B, C, F: Fn(A, B) -> C>(
    f: F,
    samples: Seq<A>,
    events: Seq<B>,
    images: Seq<C>,
) -> bool {
    &&& samples.len() == events.len()
    &&& images.len() == events.len()
    &&& forall|i: int|
        0 <= i < events.len() ==> f.ensures((samples[i], events[i]), #[trigger] images[i])
}

/// The function can accumulate `b` of the events, one after the other, starting with
/// `initial`.
pub open spec fn accumulates_to<A, B, F: Fn(B, A) -> B>(
    f: F,
    initial: B,
    events: Seq<A>,
    b: B,
) -> bool {
    exists|steps: Seq<B>|
        #[trigger] accumulates::<A, B, F>(f, initial, events, steps) && steps.last() == b
}

/// The last of the events, or `initial` if there is none.
pub open spec fn latest<A>(initial: A, events: Seq<A>) -> A {
    if events.len() > 0 {
        events.last()
    } else {
        initial
    }
}

// ---- Streams ----

/// What was known of a source when it was made is known of it later.
proof fn lemma_known_later<T: Item, A: Event<T>>(
    made: NetworkView<T>,
    later: NetworkView<T>,
    stream: Stream<A>,
)
    requires
        made.leads_to(later),
        stream.known(made),
    ensures
        stream.known(later),
        later.sources[stream.id()].origin == made.sources[stream.id()].origin,
        stream.lives(later) ==> stream.lives(made),
        stream.history(made).len() <= stream.history(later).len(),
{
    assert(made.source_leads_to(later, stream.id()));
}

/// A stream made by `never` never fires.
pub proof fn never_stays_silent<T: Item, A: Event<T>>(
    made: NetworkView<T>,
    later: NetworkView<T>,
    stream: Stream<A>,
)
    requires
        stream.known(made),
        made.sources[stream.id()].origin is Never,
        made.leads_to(later),
        runs(later),
        stream.lives(later),
    ensures
        stream.history(later).len() == 0,
{
    lemma_known_later(made, later, stream);
    never_fires_nothing(later, stream);
}

/// A stream made by `map` fires what the function gives for each event that comes
/// after it was made, and nothing else.
pub proof fn map_goes_on<T: Item, A: Event<T>, B: Event<T>, F: Fn(A) -> B>(
    made: NetworkView<T>,
    later: NetworkView<T>,
    stream: Stream<A>,
    since: nat,
    f: F,
    image: Stream<B>,
)
    requires
        stream.known(made),
        image.known(made),
        made.sources[image.id()].origin == (Origin::Mapped {
            parent: stream.id(),
            since,
            f: mapped::<T, A, B, F>(f),
        }),
        made.leads_to(later),
        runs(later),
        image.lives(later),
    ensures
        are_images::<A, B, F>(
            f,
            stream.history(later).skip(since as int),
            image.history(later),
        ),
{
    lemma_known_later(made, later, stream);
    lemma_known_later(made, later, image);
    map_fires_images::<T, A, B, F>(later, stream, since, f, image);
}

/// A stream made by `filter` fires the events that come after it was made and for
/// which the predicate gives true, and nothing else.
pub proof fn filter_goes_on<T: Item, A: Event<T>, F: Fn(&A) -> bool>(
    made: NetworkView<T>,
    later: NetworkView<T>,
    stream: Stream<A>,
    since: nat,
    f: F,
    options: int,
    filtered: Stream<A>,
)
    requires
        stream.known(made),
        filtered.known(made),
        made.is_source(options),
        made.sources[options].shape == <Option<A> as Carried<T>>::shape(),
        made.sources[options].origin == (Origin::Mapped {
            parent: stream.id(),
            since,
            f: selected::<T, A, F>(f),
        }),
        made.sources[filtered.id()].origin == (Origin::<T>::FilterSome {
            parent: options,
            since: 0,
        }),
        made.leads_to(later),
        runs(later),
        filtered.lives(later),
    ensures
        are_accepted::<A, F>(
            f,
            stream.history(later).skip(since as int),
            filtered.history(later),
        ),
{
    lemma_known_later(made, later, stream);
    lemma_known_later(made, later, filtered);
    assert(made.source_leads_to(later, options));
    let verdicts = filter_fires_what_is_accepted::<T, A, F>(
        later,
        stream,
        since,
        f,
        options,
        filtered,
    );
    let events = stream.history(later).skip(since as int);
    assert(filtered.history(later) == picked(events, verdicts));
}

/// A stream made by `filter_map` fires what is in the options that the function gives
/// for the events that come after it was made, and nothing else.
pub proof fn filter_map_goes_on<
    T: Item,
    A: Event<T>,
    B: Event<T>,
    F: Fn(A) -> Option<B>,
>(
    made: NetworkView<T>,
    later: NetworkView<T>,
    stream: Stream<A>,
    since: nat,
    f: F,
    options: int,
    filtered: Stream<B>,
)
    requires
        stream.known(made),
        filtered.known(made),
        made.is_source(options),
        made.sources[options].shape == <Option<B> as Carried<T>>::shape(),
        made.sources[options].origin == (Origin::Mapped {
            parent: stream.id(),
            since,
            f: mapped::<T, A, Option<B>, F>(f),
        }),
        made.sources[filtered.id()].origin == (Origin::<T>::FilterSome {
            parent: options,
            since: 0,
        }),
        made.leads_to(later),
        runs(later),
        filtered.lives(later),
    ensures
        are_contents::<A, B, F>(
            f,
            stream.history(later).skip(since as int),
            filtered.history(later),
        ),
{
    lemma_known_later(made, later, stream);
    lemma_known_later(made, later, filtered);
    assert(made.source_leads_to(later, options));
    let results = filter_map_fires_what_results_hold::<T, A, B, F>(
        later,
        stream,
        since,
        f,
        options,
        filtered,
    );
    let events = stream.history(later).skip(since as int);
    assert(are_images::<A, Option<B>, F>(f, events, results));
}

/// A stream made by `filter_some` fires what is in the options that come after it was
/// made, and nothing else.
pub proof fn filter_some_goes_on<T: Item, A: Event<T>>(
    made: NetworkView<T>,
    later: NetworkView<T>,
    options: Stream<Option<A>>,
    since: nat,
    stream: Stream<A>,
)
    requires
        options.known(made),
        stream.known(made),
        made.sources[stream.id()].origin == (Origin::<T>::FilterSome {
            parent: options.id(),
            since,
        }),
        made.leads_to(later),
        runs(later),
        stream.lives(later),
    ensures
        stream.history(later) == options.history(later).skip(since as int).filter_map(
            |o: Option<A>| o,
        ),
{
    lemma_known_later(made, later, options);
    lemma_known_later(made, later, stream);
    filter_some_unwraps(later, options, since, stream);
}

/// `all` is made of all of `left` and all of `right`, those of each in their order.
pub open spec fn interleaves<X>(all: Seq<X>, left: Seq<X>, right: Seq<X>) -> bool {
    exists|sides: Seq<bool>| #[trigger] woven(all, sides, left, right)
}

/// A stream made by `merge` fires all events of both streams that come after it was
/// made, each once, those of each stream in their order, and nothing else.
pub proof fn merge_goes_on<T: Item, A: Event<T>>(
    made: NetworkView<T>,
    later: NetworkView<T>,
    left: Stream<A>,
    left_since: nat,
    right: Stream<A>,
    right_since: nat,
    merged: Stream<A>,
)
    requires
        left.known(made),
        right.known(made),
        merged.known(made),
        made.sources[merged.id()].origin == (Origin::<T>::Merge {
            left: left.id(),
            left_since,
            right: right.id(),
            right_since,
        }),
        made.leads_to(later),
        runs(later),
        merged.lives(later),
    ensures
        interleaves(
            merged.history(later),
            left.history(later).skip(left_since as int),
            right.history(later).skip(right_since as int),
        ),
{
    lemma_known_later(made, later, left);
    lemma_known_later(made, later, right);
    lemma_known_later(made, later, merged);
    merge_fires_both(later, left, left_since, right, right_since, merged);
}

/// While only one of two streams fires, the stream made of both by `merge` fires what
/// that one fires.
pub proof fn merge_fires_at_once<T: Item, A: Event<T>>(
    made: NetworkView<T>,
    mid: NetworkView<T>,
    later: NetworkView<T>,
    left: Stream<A>,
    left_since: nat,
    right: Stream<A>,
    right_since: nat,
    merged: Stream<A>,
)
    requires
        left.known(made),
        right.known(made),
        merged.known(made),
        made.sources[merged.id()].origin == (Origin::<T>::Merge {
            left: left.id(),
            left_since,
            right: right.id(),
            right_since,
        }),
        made.leads_to(mid),
        mid.leads_to(later),
        runs(mid),
        runs(later),
        merged.lives(later),
    ensures
        right.history(later) == right.history(mid) ==> merged.history(later) == merged.history(mid)
            + left.fired_since(mid, later),
        left.history(later) == left.history(mid) ==> merged.history(later) == merged.history(mid)
            + right.fired_since(mid, later),
{
    lemma_known_later(made, mid, left);
    lemma_known_later(made, mid, right);
    lemma_known_later(made, mid, merged);
    merge_fires_in_order(mid, later, left, left_since, right, right_since, merged);
}

/// What a stream made by `switch` fires from `mid` to `later`, while `streams` fires no
/// stream: what the stream fires that `streams` fired last since the switch was made,
/// and nothing if there is none.
pub open spec fn fires_the_latest<T: Item, A: Event<T>>(
    mid: NetworkView<T>,
    later: NetworkView<T>,
    handed: Seq<Stream<A>>,
    switched: Stream<A>,
) -> bool {
    if handed.len() > 0 {
        switched.history(later) == switched.history(mid) + handed.last().fired_since(mid, later)
    } else {
        switched.history(later).len() == 0
    }
}

/// A stream made by `switch` fires all that the stream fires that it was handed last,
/// until it is handed another, and nothing else.
pub proof fn switch_goes_on<T: Item, A: Event<T>>(
    made: NetworkView<T>,
    mid: NetworkView<T>,
    later: NetworkView<T>,
    streams: Stream<Stream<A>>,
    since: nat,
    switched: Stream<A>,
)
    requires
        streams.known(made),
        switched.known(made),
        made.sources[switched.id()].origin == (Origin::<T>::Switch {
            parent: streams.id(),
            since,
        }),
        made.leads_to(mid),
        mid.leads_to(later),
        runs(mid),
        runs(later),
        switched.lives(later),
        streams.history(later) == streams.history(mid),
    ensures
        fires_the_latest(mid, later, streams.history(mid).skip(since as int), switched),
{
    lemma_known_later(made, mid, streams);
    lemma_known_later(made, mid, switched);
    lemma_known_later(mid, later, streams);
    lemma_known_later(mid, later, switched);
    switch_follows_the_latest(mid, streams, since, switched);
    switch_follows_the_latest(later, streams, since, switched);
    switch_fires_what_it_follows(mid, streams, since, switched, later);
    let handed = streams.history(mid).skip(since as int);
    if handed.len() > 0 {
        assert(mid.sources[switched.id()].current() == Some(handed.last().id()));
    }
}

/// A stream made by `snapshot` fires once for each event that comes after it was made,
/// what the function gives for a value of the signal and the event.
pub proof fn snapshot_goes_on<
    T: Item,
    A: Event<T>,
    B: Event<T>,
    C: Event<T>,
    F: Fn(A, B) -> C,
>(
    made: NetworkView<T>,
    later: NetworkView<T>,
    signal: Signal<A>,
    stream: Stream<B>,
    since: nat,
    f: F,
    snapshots: Stream<C>,
) -> (samples: Seq<A>)
    requires
        stream.known(made),
        snapshots.known(made),
        made.sources[snapshots.id()].origin == (Origin::Snapshot {
            parent: stream.id(),
            since,
            signal: signal.id(),
            f: mapped2::<T, A, B, C, F>(f),
        }),
        made.leads_to(later),
        runs(later),
        snapshots.lives(later),
    ensures
        are_snapshots::<A, B, C, F>(
            f,
            samples,
            stream.history(later).skip(since as int),
            snapshots.history(later),
        ),
{
    lemma_known_later(made, later, stream);
    lemma_known_later(made, later, snapshots);
    snapshot_applies::<T, A, B, C, F>(later, signal, stream, since, f, snapshots);
    let events = stream.history(later).skip(since as int);
    Seq::new(events.len(), |j: int| sample_at::<T, A, C>(later, snapshots, j))
}

/// A snapshot has one cause for each event.
proof fn lemma_causes<T>(
    a: NetworkView<T>,
    parent: int,
    since: nat,
    signal: int,
    f: Binary<T>,
    m: int,
)
    requires
        runs(a),
        a.is_source(m),
        !a.sources[m].ended,
        a.sources[m].origin == (Origin::Snapshot { parent, since, signal, f }),
    ensures
        a.sources[m].causes.len() == a.sources[m].history.len(),
        since + a.sources[m].history.len() == a.sources[parent].history.len(),
        forall|j: int|
            0 <= j < a.sources[m].history.len() ==> is_snapshot(
                f,
                a.sources[m].causes[j],
                a.sources[parent].history.skip(since as int)[j],
                #[trigger] a.sources[m].history[j],
            ),
{
    assert(a.fed_source(m));
    lemma_effect(a, parent, Reaction::Snapshot { signal, f, target: m }, since);
}

/// What is sent makes snapshots of what there is: every new event of a stream made by
/// `snapshot` is what the function gives for a value that the signal has at the moment
/// at which the stream fires, and for the event that it fires then.
pub proof fn snapshot_takes_what_there_is<
    T: Item,
    A: Event<T>,
    B: Event<T>,
    C: Event<T>,
    D: Event<T>,
    F: Fn(A, B) -> C,
>(
    made: NetworkView<T>,
    network: NetworkView<T>,
    next: NetworkView<T>,
    signal: Signal<A>,
    stream: Stream<B>,
    since: nat,
    f: F,
    snapshots: Stream<C>,
    sink: Sink<D>,
    d: D,
    j: int,
) -> (moment: NetworkView<T>)
    requires
        signal.known(made),
        stream.known(made),
        snapshots.known(made),
        made.sources[snapshots.id()].origin == (Origin::Snapshot {
            parent: stream.id(),
            since,
            signal: signal.id(),
            f: mapped2::<T, A, B, C, F>(f),
        }),
        made.leads_to(network),
        runs(network),
        runs(next),
        sink.within(network),
        network.sends(sink.id(), d.encode(), next),
        snapshots.lives(network),
        snapshots.lives(next),
        snapshots.history(network).len() <= j < snapshots.history(next).len(),
    ensures
        network.becomes(moment),
        moment.becomes(next),
        stream.history(moment).len() > 0,
        stream.history(moment).last() == stream.history(next)[since + j],
        exists|x: A|
            #[trigger] signal.can_be(moment, x) && f.ensures(
                (x, stream.history(next)[since + j]),
                snapshots.history(next)[j],
            ),
{
    lemma_known_later(made, network, stream);
    lemma_known_later(made, network, snapshots);
    assert(made.cell_leads_to(network, signal.id()));
    sink_fires_what_is_sent(network, sink, d, next);
    sending_leads_on(network, next);
    lemma_known_later(network, next, stream);
    lemma_known_later(network, next, snapshots);
    let g = mapped2::<T, A, B, C, F>(f);
    lemma_causes(network, stream.id(), since, signal.id(), g, snapshots.id());
    lemma_causes(next, stream.id(), since, signal.id(), g, snapshots.id());
    let moment = snapshot_is_of_its_moment(
        network,
        signal,
        stream,
        snapshots,
        sink,
        d,
        next,
        j,
    );
    snapshot_applies::<T, A, B, C, F>(next, signal, stream, since, f, snapshots);
    let m = snapshots.id();
    let p = stream.id();
    let events = stream.history(next).skip(since as int);
    assert(events[j] == stream.history(next)[since + j]);
    assert(f.ensures(
        (sample_at::<T, A, C>(next, snapshots, j), events[j]),
        snapshots.history(next)[j],
    ));
    let values = next.sources[p].history.skip(since as int);
    assert(is_snapshot(
        g,
        next.sources[m].causes[j],
        values[j],
        next.sources[m].history[j],
    ));
    assert(moment.sources[p].history.last() == values[j]);
    assert(values[j] == next.sources[p].history[since + j]);
    assert(moment.sources[p].shape == network.sources[p].shape);
    moment
}

// ---- Signals ----

/// A signal made by `new` keeps its value.
pub proof fn a_constant_stays<T: Item, A: Event<T>>(
    made: NetworkView<T>,
    later: NetworkView<T>,
    a: A,
    signal: Signal<A>,
)
    requires
        signal.known(made),
        made.cells[signal.id()].origin is Constant,
        made.cells[signal.id()].content == ContentView::Held(a.encode()),
        made.leads_to(later),
        signal.lives(later),
    ensures
        signal.is_now(later, a),
{
    assert(made.cell_leads_to(later, signal.id()));
    constant_is_what_it_was_made_with(later, a, signal);
}

/// A signal made by `hold` has the value of the last event that came after it was made,
/// and until there is one the initial value.
pub proof fn hold_goes_on<T: Item, A: Event<T>>(
    made: NetworkView<T>,
    later: NetworkView<T>,
    stream: Stream<A>,
    since: nat,
    initial: A,
    signal: Signal<A>,
)
    requires
        stream.known(made),
        signal.known(made),
        made.cells[signal.id()].origin == (CellOrigin::Hold {
            parent: stream.id(),
            since,
            initial: initial.encode(),
        }),
        made.leads_to(later),
        runs(later),
        signal.lives(later),
    ensures
        signal.is_now(later, latest(initial, stream.history(later).skip(since as int))),
{
    lemma_known_later(made, later, stream);
    assert(made.cell_leads_to(later, signal.id()));
    hold_is_the_last_event(later, stream, since, initial, signal);
}

/// A signal made by `scan` has the value that the function accumulates of the events
/// that come after it was made, one after the other, starting with the initial value.
pub proof fn scan_goes_on<T: Item, A: Event<T>, B: Event<T>, F: Fn(B, A) -> B>(
    made: NetworkView<T>,
    later: NetworkView<T>,
    stream: Stream<A>,
    since: nat,
    initial: B,
    f: F,
    results: int,
    signal: Signal<B>,
) -> (b: B)
    requires
        made.sound(),
        stream.known(made),
        made.is_source(results),
        made.sources[results].shape == B::shape(),
        signal.known(made),
        made.sources[results].origin == (Origin::Snapshot {
            parent: stream.id(),
            since,
            signal: signal.id(),
            f: mapped2::<T, B, A, B, F>(f),
        }),
        made.cells[signal.id()].content matches ContentView::Alias(held)
            && made.cells[held].origin == (CellOrigin::Hold {
            parent: results,
            since: 0,
            initial: initial.encode(),
        }),
        made.leads_to(later),
        runs(later),
        signal.lives(later),
    ensures
        accumulates_to::<A, B, F>(
            f,
            initial,
            stream.history(later).skip(since as int),
            b,
        ),
        signal.is_now(later, b),
{
    lemma_known_later(made, later, stream);
    assert(made.source_leads_to(later, results));
    assert(made.cell_leads_to(later, signal.id()));
    assert(made.sound_cell(signal.id()));
    if let ContentView::Alias(held) = made.cells[signal.id()].content {
        assert(made.cell_leads_to(later, held));
    }
    let steps = scan_accumulates::<T, A, B, F>(
        later,
        stream,
        since,
        initial,
        f,
        results,
        signal,
    );
    steps.last()
}

/// A state made by `scan_mut` is what the function accumulates of the events that come
/// after it was made, one after the other, starting with the initial value.
pub proof fn scan_mut_goes_on<T: Item, A: Event<T>, B: Carried<T>, F: Fn(B, A) -> B>(
    made: NetworkView<T>,
    later: NetworkView<T>,
    stream: Stream<A>,
    since: nat,
    initial: B,
    f: F,
    signal: SignalMut<B>,
) -> (b: B)
    requires
        stream.known(made),
        made.is_cell(signal.id()),
        made.cells[signal.id()].origin == (CellOrigin::ScanMut {
            parent: stream.id(),
            since,
            initial: initial.encode(),
            f: mapped2::<T, B, A, B, F>(f),
        }),
        made.leads_to(later),
        runs(later),
        signal.lives(later),
    ensures
        accumulates_to::<A, B, F>(
            f,
            initial,
            stream.history(later).skip(since as int),
            b,
        ),
        signal.is_now(later, b),
{
    lemma_known_later(made, later, stream);
    assert(made.cell_leads_to(later, signal.id()));
    let steps = scan_mut_accumulates::<T, A, B, F>(later, stream, since, initial, f, signal);
    steps.last()
}

/// Sampling gives `c` exactly if the function can give it for values of both signals.
pub open spec fn combines<T: Item, A: Carried<T>, B: Event<T>, C: Event<T>, F: Fn(&A, B) -> C>(
    network: NetworkView<T>,
    state: SignalMut<A>,
    other: Signal<B>,
    f: F,
    signal: Signal<C>,
    c: C,
) -> bool {
    signal.can_be(network, c) <==> exists|a: A, b: B|
        {
            &&& #[trigger] f.ensures((&a, b), c)
            &&& state.can_be(network, a)
            &&& other.can_be(network, b)
        }
}

/// A signal made by `combine` has the value that the function gives for the values that
/// both signals have at the time.
pub proof fn combine_goes_on<
    T: Item,
    A: Carried<T>,
    B: Event<T>,
    C: Event<T>,
    F: Fn(&A, B) -> C,
>(
    made: NetworkView<T>,
    later: NetworkView<T>,
    state: SignalMut<A>,
    other: Signal<B>,
    f: F,
    signal: Signal<C>,
    c: C,
)
    requires
        state.home() == made.number,
        made.is_cell(state.id()),
        made.cells[state.id()].shape == A::shape(),
        other.known(made),
        signal.known(made),
        made.cells[signal.id()].content == (ContentView::Combined {
            state: state.id(),
            other: other.id(),
            f: mapped_on::<T, A, B, C, F>(f),
        }),
        made.leads_to(later),
        runs(later),
        signal.lives(later),
    ensures
        combines::<T, A, B, C, F>(later, state, other, f, signal, c),
{
    assert(made.cell_leads_to(later, signal.id()));
    assert(made.cell_leads_to(later, state.id()));
    assert(made.cell_leads_to(later, other.id()));
    assert(later.sound_cell(signal.id()));
    assert(later.defined(signal.id()));
    combine_applies::<T, A, B, C, F>(later, state, other, f, signal, c);
}

// ---- Listeners ----

/// A listener gets all events of the stream that come after it was made, in order, and
/// nothing else, until it is closed. What waits are the last of them.
pub proof fn listening_goes_on<T: Item, A: Event<T>>(
    made: NetworkView<T>,
    later: NetworkView<T>,
    stream: Stream<A>,
    since: nat,
    events: Events<A>,
)
    requires
        stream.known(made),
        events.within(made),
        made.queues[events.id()].parent == stream.id(),
        made.queues[events.id()].since == since,
        made.leads_to(later),
        runs(later),
        later.queues[events.id()].open,
    ensures
        events.received(later) == stream.history(later).skip(since as int),
        events.waiting(later).is_suffix_of(events.received(later)),
{
    lemma_known_later(made, later, stream);
    assert(made.queue_leads_to(later, events.id()));
    events_arrive_in_order(later, stream, since, events);
}

} // verus!
