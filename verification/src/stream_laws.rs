//! The laws of sinks, streams and listeners.
//!
//! They hold of every network that is in order and not poisoned, at any time
//! at which no source is firing.
use crate::consistency::{unwrapping, woven};
use crate::flow::lemma_sent_reaches;
use crate::function::{chosen, mapped, selected, Unary};
use crate::life::{lemma_sweep_sound, unmarked};
use crate::model::{Entry, NetworkView, Origin, Reaction};
use crate::network_laws::dependents_are_closed;
use crate::sound::{all_fit, lemma_becomes_transitive, lemma_fire_sound, lemma_reflexive};
use crate::steady::lemma_sent_steady;
use crate::stream::{decodings, encodings, lemma_encodings_fit, Events, Sink, Stream};
use crate::value::{Carried, Event, Item, Value};
use vstd::prelude::*;

verus! {

/// A network that is in order and has not been poisoned.
pub open spec fn runs<T>(network: NetworkView<T>) -> bool {
    network.valid() && !network.poisoned
}

// ---- Callbacks ----

/// The effect of a callback is that of all the events since it was registered.
pub proof fn lemma_effect<T>(a: NetworkView<T>, s: int, reaction: Reaction<T>, since: nat)
    requires
        runs(a),
        a.has(s, reaction, since),
    ensures
        since <= a.sources[s].history.len(),
        a.sound_entry(s, Entry { reaction, since }),
        a.holds(s, Entry { reaction, since }, a.sources[s].history.skip(since as int)),
{
    let entry = Entry { reaction, since };
    let i = choose|i: int|
        0 <= i < a.sources[s].callbacks.len() && a.sources[s].callbacks[i] == entry;
    assert(a.is_callback(s, i));
    assert(a.up_to_date(Map::empty(), s, i));
    assert(a.sound_source(s));
    let history = a.sources[s].history;
    assert(a.heard(s, entry, 0) =~= history.skip(since as int));
}

// ---- Events and the form in which they travel ----

pub proof fn lemma_decodings_skip<T: Item, A: Event<T>>(values: Seq<Value<T>>, n: int)
    requires
        0 <= n <= values.len(),
    ensures
        decodings::<T, A>(values.skip(n)) == decodings::<T, A>(values).skip(n),
        decodings::<T, A>(values.take(n)) == decodings::<T, A>(values).take(n),
{
    assert(decodings::<T, A>(values.skip(n)) =~= decodings::<T, A>(values).skip(n));
    assert(decodings::<T, A>(values.take(n)) =~= decodings::<T, A>(values).take(n));
}

/// What options hold travels as what is held.
proof fn lemma_unwrapped_events<T: Item, A: Event<T>>(values: Seq<Value<T>>)
    requires
        all_fit(values, <Option<A> as Carried<T>>::shape()),
    ensures
        decodings::<T, A>(values.filter_map(unwrapping())) == decodings::<T, Option<A>>(
            values,
        ).filter_map(|o: Option<A>| o),
    decreases values.len(),
{
    let own = |o: Option<A>| o;
    let options = decodings::<T, Option<A>>(values);
    let plain = values.filter_map(unwrapping());
    if values.len() > 0 {
        let rest = values.drop_last();
        lemma_unwrapped_events::<T, A>(rest);
        let v = values.last();
        <Option<A> as Carried<T>>::decoded(v);
        assert(decodings::<T, Option<A>>(rest) =~= options.drop_last());
        assert(options.last() == <Option<A> as Carried<T>>::decode(v)->0);
        match options.last() {
            Some(a) => {
                a.encoded();
                assert(v.contained() == Some(a.encode()));
                assert(plain == rest.filter_map(unwrapping()) + seq![a.encode()]);
                assert(decodings::<T, A>(plain) =~= decodings::<T, A>(
                    rest.filter_map(unwrapping()),
                ) + seq![a]);
            },
            None => {
                assert(v.contained() is None);
            },
        }
    } else {
        assert(decodings::<T, A>(plain) =~= options.filter_map(own));
    }
}

/// What sending makes of a network.
pub proof fn lemma_sends<T>(network: NetworkView<T>, id: int, v: Value<T>, next: NetworkView<T>)
    requires
        network.sends(id, v, next),
    ensures
        next == network.sent(id, v, next.returned),
{
    let given = next.returned;
    assert(given =~= given.subrange(0, given.len() as int));
    assert(next == network.sent(id, v, given));
}

/// What feeding makes of a network.
pub proof fn lemma_feeds<T>(
    network: NetworkView<T>,
    id: int,
    vs: Seq<Value<T>>,
    next: NetworkView<T>,
)
    requires
        network.feeds(id, vs, next),
    ensures
        next == network.fed(id, vs, next.returned),
{
    let given = next.returned;
    assert(given =~= given.subrange(0, given.len() as int));
}

// ---- Sinks ----

/// Everything that is sent into a sink is fired by its stream, and no other
/// sink fires; all that there is remains what it is.
pub proof fn sink_fires_what_is_sent<T: Item, A: Event<T>>(
    network: NetworkView<T>,
    sink: Sink<A>,
    a: A,
    next: NetworkView<T>,
)
    requires
        network.valid(),
        sink.within(network),
        network.sends(sink.id(), a.encode(), next),
    ensures
        sink.history(next) == sink.history(network).push(a),
        forall|s: int|
            network.is_passive(s) && s != sink.id() ==> (#[trigger] next.sources[s]).history
                == network.sources[s].history,
        network.becomes(next),
{
    let id = sink.id();
    let v = a.encode();
    lemma_sends(network, id, v, next);
    a.encoded();
    lemma_sent_steady(network, id, v, next.returned);
    assert(next.sources[id].history == network.sources[id].history.push(v));
    assert(sink.history(next) =~= sink.history(network).push(a));
}

/// Feeding is sending one after the other: it can be done in parts.
pub proof fn feeding_is_sending_in_turn<T>(
    network: NetworkView<T>,
    id: int,
    first: Seq<Value<T>>,
    second: Seq<Value<T>>,
    all: Seq<Value<T>>,
)
    ensures
        network.fed(id, first + second, all) == network.fed(id, first, all).fed(id, second, all),
        forall|v: Value<T>|
            network.fed(id, seq![v], all) == #[trigger] network.sent(id, v, all),
    decreases second.len(),
{
    if second.len() > 0 {
        feeding_is_sending_in_turn(network, id, first, second.drop_last(), all);
        assert((first + second).drop_last() =~= first + second.drop_last());
        assert((first + second).last() == second.last());
    } else {
        assert(first + second =~= first);
    }
    assert forall|v: Value<T>| network.fed(id, seq![v], all) == #[trigger] network.sent(
        id,
        v,
        all,
    ) by {
        assert(seq![v].drop_last() =~= Seq::<Value<T>>::empty());
        assert(network.fed(id, Seq::<Value<T>>::empty(), all) == network);
    }
}

/// Feeding keeps a network sound.
pub proof fn lemma_fed_sound<T>(
    a: NetworkView<T>,
    id: int,
    values: Seq<Value<T>>,
    all: Seq<Value<T>>,
)
    requires
        a.sound(),
        a.is_source(id),
        all_fit(values, a.sources[id].shape),
    ensures
        a.fed(id, values, all).sound(),
        a.becomes(a.fed(id, values, all)),
    decreases values.len(),
{
    lemma_reflexive(a, a.ids());
    if values.len() > 0 {
        let rest = values.drop_last();
        let b = a.fed(id, rest, all);
        let v = values.last();
        assert(all_fit(rest, a.sources[id].shape));
        lemma_fed_sound(a, id, rest, all);
        assert(b.sources[id].shape == a.sources[id].shape);
        let fired = b.fire(all, b.ids(), id, v, v);
        lemma_fire_sound(b, all, b.ids(), id, v, v);
        lemma_sweep_sound(fired);
        lemma_becomes_transitive(b, fired, b.sent(id, v, all));
        lemma_becomes_transitive(a, b, b.sent(id, v, all));
    }
}

/// What has been fed in part has applied no function to what it cannot be
/// applied to, if the whole has not.
pub proof fn lemma_fed_not_overstepped<T>(
    a: NetworkView<T>,
    id: int,
    values: Seq<Value<T>>,
    n: int,
    all: Seq<Value<T>>,
)
    requires
        a.sound(),
        a.is_source(id),
        all_fit(values, a.sources[id].shape),
        0 <= n <= values.len(),
        !a.fed(id, values, all).overstepped,
    ensures
        !a.fed(id, values.take(n), all).overstepped,
{
    let first = values.take(n);
    let second = values.skip(n);
    let b = a.fed(id, first, all);
    assert(first + second =~= values);
    feeding_is_sending_in_turn(a, id, first, second, all);
    assert(all_fit(first, a.sources[id].shape));
    lemma_fed_sound(a, id, first, all);
    assert(b.sources[id].shape == a.sources[id].shape);
    assert(all_fit(second, b.sources[id].shape)) by {
        assert forall|i: int| 0 <= i < second.len() implies (#[trigger] second[i]).fits(
            b.sources[id].shape,
        ) by {
            assert(values[n + i].fits(a.sources[id].shape));
        }
    }
    lemma_fed_sound(b, id, second, all);
}

/// Everything that is fed into a sink is fired by its stream, in order.
pub proof fn sink_fires_what_is_fed<T: Item, A: Event<T>>(
    network: NetworkView<T>,
    sink: Sink<A>,
    events: Seq<A>,
    next: NetworkView<T>,
)
    requires
        network.valid(),
        sink.within(network),
        network.feeds(sink.id(), encodings(events), next),
    ensures
        sink.history(next) == sink.history(network) + events,
        network.becomes(next),
{
    let values = encodings::<T, A>(events);
    lemma_encodings_fit::<T, A>(events);
    lemma_feeds(network, sink.id(), values, next);
    lemma_fed_sound(network, sink.id(), values, next.returned);
    lemma_fed_history(network, sink.id(), values, next.returned);
    assert forall|i: int| 0 <= i < events.len() implies A::decode(#[trigger] values[i])
        == Some(events[i]) by {
        events[i].encoded();
    }
    assert(sink.history(next) =~= sink.history(network) + events);
}

proof fn lemma_fed_history<T>(
    a: NetworkView<T>,
    id: int,
    values: Seq<Value<T>>,
    all: Seq<Value<T>>,
)
    requires
        a.sound(),
        a.is_source(id),
        a.sources[id].origin is Sink,
        all_fit(values, a.sources[id].shape),
    ensures
        a.fed(id, values, all).sources[id].history == a.sources[id].history + values,
    decreases values.len(),
{
    if values.len() > 0 {
        let rest = values.drop_last();
        let b = a.fed(id, rest, all);
        let v = values.last();
        assert(all_fit(rest, a.sources[id].shape));
        lemma_fed_sound(a, id, rest, all);
        lemma_fed_history(a, id, rest, all);
        assert(b.sources[id].shape == a.sources[id].shape);
        assert(b.sources[id].origin == a.sources[id].origin);
        lemma_sent_steady(b, id, v, all);
        assert((a.sources[id].history + rest).push(v) =~= a.sources[id].history + values);
    } else {
        assert(a.sources[id].history + values =~= a.sources[id].history);
    }
}

// ---- Streams ----

/// A stream made by `never` has fired nothing.
pub proof fn never_fires_nothing<T: Item, A: Event<T>>(network: NetworkView<T>, stream: Stream<A>)
    requires
        runs(network),
        stream.lives(network),
        network.sources[stream.id()].origin is Never,
    ensures
        stream.history(network).len() == 0,
{
    assert(network.fed_source(stream.id()));
}

/// The stream made by `map` fires the image of every event since then, in
/// order.
pub proof fn map_fires_images<T: Item, A: Event<T>, B: Event<T>, F: Fn(A) -> B>(
    network: NetworkView<T>,
    stream: Stream<A>,
    since: nat,
    f: F,
    image: Stream<B>,
)
    requires
        runs(network),
        stream.known(network),
        image.lives(network),
        network.sources[image.id()].origin == (Origin::Mapped {
            parent: stream.id(),
            since,
            f: mapped::<T, A, B, F>(f),
        }),
    ensures
        since <= stream.history(network).len(),
        ({
            let events = stream.history(network).skip(since as int);
            let images = image.history(network);
            &&& images.len() == events.len()
            &&& forall|i: int|
                0 <= i < events.len() ==> f.ensures((events[i],), #[trigger] images[i])
        }),
{
    let g = mapped::<T, A, B, F>(f);
    let m = image.id();
    let p = stream.id();
    assert(network.fed_source(m));
    lemma_effect(network, p, Reaction::Mapped { f: g, target: m }, since);
    let values = network.sources[p].history.skip(since as int);
    lemma_decodings_skip::<T, A>(network.sources[p].history, since as int);
    let events = stream.history(network).skip(since as int);
    let images = image.history(network);
    assert forall|i: int| 0 <= i < events.len() implies f.ensures(
        (events[i],),
        #[trigger] images[i],
    ) by {
        assert((g.promise)(values[i], network.sources[m].history[i]));
    }
}

/// The stream made by `filter_some` fires what the options hold that have been
/// fired since then, in order.
pub proof fn filter_some_unwraps<T: Item, A: Event<T>>(
    network: NetworkView<T>,
    options: Stream<Option<A>>,
    since: nat,
    stream: Stream<A>,
)
    requires
        runs(network),
        options.known(network),
        stream.lives(network),
        network.sources[stream.id()].origin == (Origin::<T>::FilterSome {
            parent: options.id(),
            since,
        }),
    ensures
        since <= options.history(network).len(),
        stream.history(network) == options.history(network).skip(since as int).filter_map(
            |o: Option<A>| o,
        ),
{
    let m = stream.id();
    let p = options.id();
    assert(network.fed_source(m));
    lemma_effect(network, p, Reaction::FilterSome { target: m }, since);
    let values = network.sources[p].history.skip(since as int);
    assert(network.sound_source(p));
    assert(all_fit(values, <Option<A> as Carried<T>>::shape()));
    lemma_unwrapped_events::<T, A>(values);
    lemma_decodings_skip::<T, Option<A>>(network.sources[p].history, since as int);
}

/// A stream of options made by a kept function, and the stream of what they
/// hold.
proof fn lemma_two_stages<T>(
    network: NetworkView<T>,
    parent: int,
    since: nat,
    g: Unary<T>,
    options: int,
    m: int,
)
    requires
        runs(network),
        network.is_source(options),
        network.is_source(m),
        !network.sources[m].ended,
        network.sources[options].origin == (Origin::Mapped { parent, since, f: g }),
        network.sources[m].origin == (Origin::<T>::FilterSome { parent: options, since: 0 }),
    ensures
        network.is_source(parent),
        since <= network.sources[parent].history.len(),
        ({
            let heard = network.sources[parent].history.skip(since as int);
            let made = network.sources[options].history;
            &&& made.len() == heard.len()
            &&& forall|j: int|
                0 <= j < heard.len() ==> (g.promise)(heard[j], #[trigger] made[j])
            &&& network.sources[m].history == made.filter_map(unwrapping())
        }),
{
    assert(network.fed_source(m));
    lemma_effect(network, options, Reaction::FilterSome { target: m }, 0);
    assert(network.fed_source(options));
    lemma_effect(network, parent, Reaction::Mapped { f: g, target: options }, since);
    let history = network.sources[options].history;
    assert(history.skip(0) =~= history);
}

/// Those of `xs` for which `keep` says so, in order.
pub open spec fn picked<X>(xs: Seq<X>, keep: Seq<bool>) -> Seq<X>
    decreases xs.len(),
{
    if xs.len() == 0 {
        Seq::empty()
    } else {
        let rest = picked(xs.drop_last(), keep);
        if keep[xs.len() - 1] {
            rest.push(xs.last())
        } else {
            rest
        }
    }
}

/// Taking out what chosen options hold is picking.
proof fn lemma_choosing_is_picking<X>(xs: Seq<X>, keep: Seq<bool>, options: Seq<Option<X>>)
    requires
        xs.len() <= keep.len(),
        options.len() == xs.len(),
        forall|i: int| 0 <= i < xs.len() ==> #[trigger] options[i] == chosen(xs[i], keep[i]),
    ensures
        options.filter_map(|o: Option<X>| o) == picked(xs, keep),
    decreases xs.len(),
{
    let own = |o: Option<X>| o;
    if xs.len() > 0 {
        lemma_choosing_is_picking(xs.drop_last(), keep, options.drop_last());
        assert(options.last() == chosen(xs.last(), keep[xs.len() - 1]));
        let rest = options.drop_last().filter_map(own);
        assert(rest + seq![xs.last()] =~= rest.push(xs.last()));
    } else {
        assert(options.filter_map(own) =~= picked(xs, keep));
    }
}

/// The stream made by `filter` fires those events since then that satisfy the
/// predicate, in order, and no others. The verdicts are those of the predicate.
/// Between the two streams stands the source `options`.
pub proof fn filter_fires_what_is_accepted<T: Item, A: Event<T>, F: Fn(&A) -> bool>(
    network: NetworkView<T>,
    stream: Stream<A>,
    since: nat,
    f: F,
    options: int,
    filtered: Stream<A>,
) -> (verdicts: Seq<bool>)
    requires
        runs(network),
        stream.known(network),
        filtered.lives(network),
        network.is_source(options),
        network.sources[options].shape == <Option<A> as Carried<T>>::shape(),
        network.sources[options].origin == (Origin::Mapped {
            parent: stream.id(),
            since,
            f: selected::<T, A, F>(f),
        }),
        network.sources[filtered.id()].origin == (Origin::<T>::FilterSome {
            parent: options,
            since: 0,
        }),
    ensures
        since <= stream.history(network).len(),
        ({
            let events = stream.history(network).skip(since as int);
            &&& verdicts.len() == events.len()
            &&& forall|i: int|
                0 <= i < events.len() ==> f.ensures((&events[i],), #[trigger] verdicts[i])
            &&& filtered.history(network) == picked(events, verdicts)
        }),
{
    let g = selected::<T, A, F>(f);
    let p = stream.id();
    lemma_two_stages(network, p, since, g, options, filtered.id());
    let values = network.sources[p].history.skip(since as int);
    let made = network.sources[options].history;
    let events = stream.history(network).skip(since as int);
    let images = decodings::<T, Option<A>>(made);
    assert(network.sound_source(options));
    lemma_decodings_skip::<T, A>(network.sources[p].history, since as int);
    lemma_unwrapped_events::<T, A>(made);
    let verdicts = Seq::new(events.len(), |i: int| images[i] is Some);
    assert forall|i: int| 0 <= i < events.len() implies {
        &&& f.ensures((&events[i],), #[trigger] verdicts[i])
        &&& images[i] == chosen(events[i], verdicts[i])
    } by {
        let w = made[i];
        assert((g.promise)(values[i], w));
        let b = choose|b: bool|
            #![trigger f.ensures((&events[i],), b)]
            f.ensures((&events[i],), b) && w == <Option<A> as Carried<T>>::encode(
                chosen(events[i], b),
            );
        <Option<A> as Carried<T>>::encoded(chosen(events[i], b));
        assert(verdicts[i] == b);
    }
    assert forall|i: int| 0 <= i < events.len() implies #[trigger] images[i] == chosen(
        events[i],
        verdicts[i],
    ) by {
        assert(f.ensures((&events[i],), verdicts[i]));
    }
    lemma_choosing_is_picking(events, verdicts, images);
    verdicts
}

/// The stream made by `filter_map` fires what the results hold of the events
/// since then, in order. Between the two streams stands the source `options`,
/// that of the stream which `map` makes.
pub proof fn filter_map_fires_what_results_hold<
    T: Item,
    A: Event<T>,
    B: Event<T>,
    F: Fn(A) -> Option<B>,
>(
    network: NetworkView<T>,
    stream: Stream<A>,
    since: nat,
    f: F,
    options: int,
    filtered: Stream<B>,
) -> (results: Seq<Option<B>>)
    requires
        runs(network),
        stream.known(network),
        filtered.lives(network),
        network.is_source(options),
        network.sources[options].shape == <Option<B> as Carried<T>>::shape(),
        network.sources[options].origin == (Origin::Mapped {
            parent: stream.id(),
            since,
            f: mapped::<T, A, Option<B>, F>(f),
        }),
        network.sources[filtered.id()].origin == (Origin::<T>::FilterSome {
            parent: options,
            since: 0,
        }),
    ensures
        since <= stream.history(network).len(),
        ({
            let events = stream.history(network).skip(since as int);
            &&& results.len() == events.len()
            &&& forall|i: int|
                0 <= i < events.len() ==> f.ensures((events[i],), #[trigger] results[i])
            &&& filtered.history(network) == results.filter_map(|o: Option<B>| o)
        }),
{
    let g = mapped::<T, A, Option<B>, F>(f);
    let p = stream.id();
    lemma_two_stages(network, p, since, g, options, filtered.id());
    let values = network.sources[p].history.skip(since as int);
    let made = network.sources[options].history;
    let events = stream.history(network).skip(since as int);
    let results = decodings::<T, Option<B>>(made);
    assert(network.sound_source(options));
    lemma_decodings_skip::<T, A>(network.sources[p].history, since as int);
    lemma_unwrapped_events::<T, B>(made);
    assert forall|i: int| 0 <= i < events.len() implies f.ensures(
        (events[i],),
        #[trigger] results[i],
    ) by {
        assert((g.promise)(values[i], made[i]));
    }
    results
}

/// `filter` with the same predicate again changes nothing, if the predicate
/// gives the same whenever it is applied to the same: the stream that `filter`
/// makes of a filtered stream fires what that one fires since then.
pub proof fn filtering_twice_is_filtering_once<T: Item, A: Event<T>, F: Fn(&A) -> bool>(
    network: NetworkView<T>,
    stream: Stream<A>,
    since: nat,
    f: F,
    options: int,
    once: Stream<A>,
    again_since: nat,
    again_options: int,
    twice: Stream<A>,
)
    requires
        runs(network),
        stream.known(network),
        once.lives(network),
        twice.lives(network),
        network.is_source(options),
        network.sources[options].shape == <Option<A> as Carried<T>>::shape(),
        network.sources[options].origin == (Origin::Mapped {
            parent: stream.id(),
            since,
            f: selected::<T, A, F>(f),
        }),
        network.sources[once.id()].origin == (Origin::<T>::FilterSome {
            parent: options,
            since: 0,
        }),
        network.is_source(again_options),
        network.sources[again_options].shape == <Option<A> as Carried<T>>::shape(),
        network.sources[again_options].origin == (Origin::Mapped {
            parent: once.id(),
            since: again_since,
            f: selected::<T, A, F>(f),
        }),
        network.sources[twice.id()].origin == (Origin::<T>::FilterSome {
            parent: again_options,
            since: 0,
        }),
        forall|a: A, b: bool, c: bool| f.ensures((&a,), b) && f.ensures((&a,), c) ==> b == c,
    ensures
        again_since <= once.history(network).len(),
        twice.history(network) == once.history(network).skip(again_since as int),
{
    let verdicts = filter_fires_what_is_accepted::<T, A, F>(
        network,
        stream,
        since,
        f,
        options,
        once,
    );
    let again = filter_fires_what_is_accepted::<T, A, F>(
        network,
        once,
        again_since,
        f,
        again_options,
        twice,
    );
    let all = stream.history(network).skip(since as int);
    let events = once.history(network).skip(again_since as int);
    assert forall|i: int| 0 <= i < events.len() implies #[trigger] again[i] by {
        let a = once.history(network)[again_since + i];
        assert(events[i] == a);
        let n = lemma_picked_from(all, verdicts, again_since + i);
        assert(f.ensures((&all[n],), verdicts[n]));
        assert(f.ensures((&events[i],), again[i]));
    }
    lemma_picked_all(events, again);
}

/// What is picked is one of those for which `keep` says so.
proof fn lemma_picked_from<X>(xs: Seq<X>, keep: Seq<bool>, i: int) -> (n: int)
    requires
        xs.len() <= keep.len(),
        0 <= i < picked(xs, keep).len(),
    ensures
        0 <= n < xs.len(),
        keep[n],
        xs[n] == picked(xs, keep)[i],
    decreases xs.len(),
{
    let rest = picked(xs.drop_last(), keep);
    if keep[xs.len() - 1] && i == rest.len() {
        xs.len() - 1
    } else {
        lemma_picked_from(xs.drop_last(), keep, i)
    }
}

/// If `keep` says so of all, all are picked.
proof fn lemma_picked_all<X>(xs: Seq<X>, keep: Seq<bool>)
    requires
        xs.len() <= keep.len(),
        forall|i: int| 0 <= i < xs.len() ==> #[trigger] keep[i],
    ensures
        picked(xs, keep) == xs,
    decreases xs.len(),
{
    if xs.len() > 0 {
        lemma_picked_all(xs.drop_last(), keep);
        assert(keep[xs.len() - 1]);
        assert(xs.drop_last().push(xs.last()) =~= xs);
    } else {
        assert(picked(xs, keep) =~= xs);
    }
}

// ---- Merging ----

/// What is woven stays so when all is mapped.
proof fn lemma_woven_map<X, Y>(
    all: Seq<X>,
    sides: Seq<bool>,
    left: Seq<X>,
    right: Seq<X>,
    h: spec_fn(X) -> Y,
)
    requires
        woven(all, sides, left, right),
    ensures
        woven(all.map_values(h), sides, left.map_values(h), right.map_values(h)),
    decreases all.len(),
{
    if all.len() > 0 {
        let rest = all.drop_last();
        assert(all.map_values(h).drop_last() =~= rest.map_values(h));
        if sides.last() {
            lemma_woven_map(rest, sides.drop_last(), left.drop_last(), right, h);
            assert(left.map_values(h).drop_last() =~= left.drop_last().map_values(h));
        } else {
            lemma_woven_map(rest, sides.drop_last(), left, right.drop_last(), h);
            assert(right.map_values(h).drop_last() =~= right.drop_last().map_values(h));
        }
    }
}

/// What is woven is in both parts together.
proof fn lemma_woven_all<X>(all: Seq<X>, sides: Seq<bool>, left: Seq<X>, right: Seq<X>)
    requires
        woven(all, sides, left, right),
    ensures
        all.to_multiset() == left.to_multiset().add(right.to_multiset()),
    decreases all.len(),
{
    all.to_multiset_ensures();
    left.to_multiset_ensures();
    right.to_multiset_ensures();
    if all.len() > 0 {
        let rest = all.drop_last();
        let x = all.last();
        rest.to_multiset_ensures();
        assert(rest.push(x) =~= all);
        if sides.last() {
            lemma_woven_all(rest, sides.drop_last(), left.drop_last(), right);
            left.drop_last().to_multiset_ensures();
            assert(left.drop_last().push(x) =~= left);
            assert(all.to_multiset() =~= left.to_multiset().add(right.to_multiset()));
        } else {
            lemma_woven_all(rest, sides.drop_last(), left, right.drop_last());
            right.drop_last().to_multiset_ensures();
            assert(right.drop_last().push(x) =~= right);
            assert(all.to_multiset() =~= left.to_multiset().add(right.to_multiset()));
        }
    } else {
        assert(left =~= all);
        assert(right =~= all);
        assert(all.to_multiset() =~= left.to_multiset().add(right.to_multiset()));
    }
}

/// Where each comes from says how many come from each side.
proof fn lemma_woven_counts<X>(all: Seq<X>, sides: Seq<bool>, left: Seq<X>, right: Seq<X>)
    requires
        woven(all, sides, left, right),
    ensures
        right.len() == unmarked(sides),
        left.len() + right.len() == all.len(),
    decreases all.len(),
{
    if all.len() > 0 {
        if sides.last() {
            lemma_woven_counts(all.drop_last(), sides.drop_last(), left.drop_last(), right);
        } else {
            lemma_woven_counts(all.drop_last(), sides.drop_last(), left, right.drop_last());
        }
    }
}

/// Those of the beginning that are not marked are among all that are not.
proof fn lemma_unmarked_more(x: Seq<bool>, y: Seq<bool>)
    requires
        x.is_prefix_of(y),
    ensures
        unmarked(x) <= unmarked(y) <= unmarked(x) + y.len() - x.len(),
        unmarked(y) == unmarked(x) ==> forall|i: int| x.len() <= i < y.len() ==> #[trigger] y[i],
        unmarked(y) == unmarked(x) + y.len() - x.len() ==> forall|i: int|
            x.len() <= i < y.len() ==> !(#[trigger] y[i]),
    decreases y.len(),
{
    if x.len() < y.len() {
        assert(x =~= y.drop_last().subrange(0, x.len() as int));
        lemma_unmarked_more(x, y.drop_last());
        assert forall|i: int| x.len() <= i < y.len() && unmarked(y) == unmarked(x) implies
            #[trigger] y[i] by {
            if i < y.len() - 1 {
                assert(y.drop_last()[i]);
            }
        }
        assert forall|i: int|
            x.len() <= i < y.len() && unmarked(y) == unmarked(x) + y.len() - x.len() implies !(
        #[trigger] y[i]) by {
            if i < y.len() - 1 {
                assert(!y.drop_last()[i]);
            }
        }
    } else {
        assert(x =~= y);
    }
}

/// If the last all come from one side, they are the last of that side.
proof fn lemma_woven_end<X>(all: Seq<X>, sides: Seq<bool>, left: Seq<X>, right: Seq<X>, n: int)
    requires
        woven(all, sides, left, right),
        0 <= n <= all.len(),
    ensures
        (forall|i: int| n <= i < all.len() ==> #[trigger] sides[i]) ==> all.len() - n
            <= left.len() && all.skip(n) == left.skip(left.len() - (all.len() - n)),
        (forall|i: int| n <= i < all.len() ==> !(#[trigger] sides[i])) ==> all.len() - n
            <= right.len() && all.skip(n) == right.skip(right.len() - (all.len() - n)),
    decreases all.len(),
{
    if n < all.len() {
        let rest = all.drop_last();
        assert(all.skip(n) =~= rest.skip(n).push(all.last()));
        if forall|i: int| n <= i < all.len() ==> #[trigger] sides[i] {
            assert(sides[all.len() - 1]);
            lemma_woven_end(rest, sides.drop_last(), left.drop_last(), right, n);
            assert forall|i: int| n <= i < rest.len() implies #[trigger] sides.drop_last()[i] by {
                assert(sides[i]);
            }
            let k = left.len() - (all.len() - n);
            assert(left.skip(k) =~= left.drop_last().skip(k).push(left.last()));
        }
        if forall|i: int| n <= i < all.len() ==> !(#[trigger] sides[i]) {
            assert(!sides[all.len() - 1]);
            lemma_woven_end(rest, sides.drop_last(), left, right.drop_last(), n);
            assert forall|i: int| n <= i < rest.len() implies !(
            #[trigger] sides.drop_last()[i]) by {
                assert(!sides[i]);
            }
            let k = right.len() - (all.len() - n);
            assert(right.skip(k) =~= right.drop_last().skip(k).push(right.last()));
        }
    } else {
        assert(all.skip(n) =~= left.skip(left.len() as int));
        assert(all.skip(n) =~= right.skip(right.len() as int));
    }
}

/// What a merge consists of.
proof fn lemma_merged<T>(
    a: NetworkView<T>,
    left: int,
    left_since: nat,
    right: int,
    right_since: nat,
    m: int,
)
    requires
        runs(a),
        a.is_source(m),
        !a.sources[m].ended,
        a.sources[m].origin == (Origin::<T>::Merge { left, left_since, right, right_since }),
    ensures
        left_since <= a.sources[left].history.len(),
        right_since <= a.sources[right].history.len(),
        woven(
            a.sources[m].history,
            a.sources[m].sides,
            a.sources[left].history.skip(left_since as int),
            a.sources[right].history.skip(right_since as int),
        ),
{
    assert(a.fed_source(m));
    lemma_effect(a, left, Reaction::Merge { left: true, target: m }, left_since);
    lemma_effect(a, right, Reaction::Merge { left: false, target: m }, right_since);
}

/// The stream made by `merge` fires the events since then of both streams, all
/// of them, those of each in their order, and no others.
pub proof fn merge_fires_both<T: Item, A: Event<T>>(
    network: NetworkView<T>,
    left: Stream<A>,
    left_since: nat,
    right: Stream<A>,
    right_since: nat,
    merged: Stream<A>,
)
    requires
        runs(network),
        left.known(network),
        right.known(network),
        merged.lives(network),
        network.sources[merged.id()].origin == (Origin::<T>::Merge {
            left: left.id(),
            left_since,
            right: right.id(),
            right_since,
        }),
    ensures
        left_since <= left.history(network).len(),
        right_since <= right.history(network).len(),
        ({
            let from_left = left.history(network).skip(left_since as int);
            let from_right = right.history(network).skip(right_since as int);
            let all = merged.history(network);
            &&& woven(all, network.sources[merged.id()].sides, from_left, from_right)
            &&& all.to_multiset() == from_left.to_multiset().add(from_right.to_multiset())
        }),
{
    let m = merged.id();
    let l = left.id();
    let r = right.id();
    lemma_merged(network, l, left_since, r, right_since, m);
    lemma_decodings_skip::<T, A>(network.sources[l].history, left_since as int);
    lemma_decodings_skip::<T, A>(network.sources[r].history, right_since as int);
    let source = network.sources[m];
    let h = |v: Value<T>| A::decode(v)->0;
    lemma_woven_map(
        source.history,
        source.sides,
        network.sources[l].history.skip(left_since as int),
        network.sources[r].history.skip(right_since as int),
        h,
    );
    lemma_woven_all(
        merged.history(network),
        source.sides,
        left.history(network).skip(left_since as int),
        right.history(network).skip(right_since as int),
    );
}

/// While only one of two streams fires, the stream made of both by `merge` fires
/// what that one fires: the events come in the order in which the streams fired.
proof fn lemma_merge_step<T>(
    a: NetworkView<T>,
    b: NetworkView<T>,
    left: int,
    left_since: nat,
    right: int,
    right_since: nat,
    m: int,
)
    requires
        runs(a),
        runs(b),
        a.leads_to(b),
        a.is_source(m),
        !b.sources[m].ended,
        a.sources[m].origin == (Origin::<T>::Merge { left, left_since, right, right_since }),
    ensures
        a.is_source(left),
        a.is_source(right),
        b.sources[right].history.len() == a.sources[right].history.len() ==> b.sources[m].history
            == a.sources[m].history + b.sources[left].history.skip(
            a.sources[left].history.len() as int,
        ),
        b.sources[left].history.len() == a.sources[left].history.len() ==> b.sources[m].history
            == a.sources[m].history + b.sources[right].history.skip(
            a.sources[right].history.len() as int,
        ),
{
    assert(a.source_leads_to(b, m));
    assert(a.sound_source(m));
    assert(a.source_leads_to(b, left));
    assert(a.source_leads_to(b, right));
    lemma_merged(a, left, left_since, right, right_since, m);
    lemma_merged(b, left, left_since, right, right_since, m);
    let x = a.sources[m].history;
    let y = b.sources[m].history;
    let p = a.sources[m].sides;
    let q = b.sources[m].sides;
    let l = a.sources[left].history.skip(left_since as int);
    let l2 = b.sources[left].history.skip(left_since as int);
    let r = a.sources[right].history.skip(right_since as int);
    let r2 = b.sources[right].history.skip(right_since as int);
    lemma_woven_counts(x, p, l, r);
    lemma_woven_counts(y, q, l2, r2);
    lemma_unmarked_more(p, q);
    lemma_woven_end(y, q, l2, r2, x.len() as int);
    assert(y =~= x + y.skip(x.len() as int));
    if b.sources[right].history.len() == a.sources[right].history.len() {
        assert(forall|i: int| x.len() <= i < y.len() ==> #[trigger] q[i]);
        assert(l2.skip(l.len() as int) =~= b.sources[left].history.skip(
            a.sources[left].history.len() as int,
        ));
    }
    if b.sources[left].history.len() == a.sources[left].history.len() {
        assert(forall|i: int| x.len() <= i < y.len() ==> !(#[trigger] q[i]));
        assert(r2.skip(r.len() as int) =~= b.sources[right].history.skip(
            a.sources[right].history.len() as int,
        ));
    }
}

/// While only one of two streams fires, the stream made of both by `merge` fires
/// what that one fires: the events come in the order in which the streams fired.
pub proof fn merge_fires_in_order<T: Item, A: Event<T>>(
    network: NetworkView<T>,
    next: NetworkView<T>,
    left: Stream<A>,
    left_since: nat,
    right: Stream<A>,
    right_since: nat,
    merged: Stream<A>,
)
    requires
        runs(network),
        runs(next),
        network.leads_to(next),
        left.known(network),
        right.known(network),
        merged.known(network),
        merged.lives(next),
        network.sources[merged.id()].origin == (Origin::<T>::Merge {
            left: left.id(),
            left_since,
            right: right.id(),
            right_since,
        }),
    ensures
        right.history(next) == right.history(network) ==> merged.history(next) == merged.history(
            network,
        ) + left.history(next).skip(left.history(network).len() as int),
        left.history(next) == left.history(network) ==> merged.history(next) == merged.history(
            network,
        ) + right.history(next).skip(right.history(network).len() as int),
{
    let l = left.id();
    let r = right.id();
    let m = merged.id();
    lemma_merge_step(network, next, l, left_since, r, right_since, m);
    assert(network.source_leads_to(next, l));
    assert(network.source_leads_to(next, r));
    if right.history(next) == right.history(network) {
        assert(right.history(next).len() == next.sources[r].history.len());
        assert(right.history(network).len() == network.sources[r].history.len());
        assert(merged.history(next) =~= merged.history(network) + left.history(next).skip(
            left.history(network).len() as int,
        ));
    }
    if left.history(next) == left.history(network) {
        assert(left.history(next).len() == next.sources[l].history.len());
        assert(left.history(network).len() == network.sources[l].history.len());
        assert(merged.history(next) =~= merged.history(network) + right.history(next).skip(
            right.history(network).len() as int,
        ));
    }
}

/// Of two streams that never fire at once it does not matter which is merged
/// with which: over any run of networks, in each step of which at most one of them
/// fires, both merges fire the same if they did so at the beginning, as when
/// neither had fired anything.
pub proof fn merging_commutes<T: Item, A: Event<T>>(
    run: Seq<NetworkView<T>>,
    one: Stream<A>,
    one_since: nat,
    other: Stream<A>,
    other_since: nat,
    merged: Stream<A>,
    reversed: Stream<A>,
)
    requires
        run.len() > 0,
        forall|i: int|
            0 <= i < run.len() ==> {
                &&& runs(#[trigger] run[i])
                &&& merged.lives(run[i])
                &&& reversed.lives(run[i])
                &&& one.known(run[i])
                &&& other.known(run[i])
            },
        run[0].sources[merged.id()].origin == (Origin::<T>::Merge {
            left: one.id(),
            left_since: one_since,
            right: other.id(),
            right_since: other_since,
        }),
        run[0].sources[reversed.id()].origin == (Origin::<T>::Merge {
            left: other.id(),
            left_since: other_since,
            right: one.id(),
            right_since: one_since,
        }),
        merged.history(run[0]) == reversed.history(run[0]),
        forall|i: int|
            0 <= i < run.len() - 1 ==> #[trigger] steps_alone(run, i, one.id(), other.id()),
    ensures
        merged.history(run.last()) == reversed.history(run.last()),
        run.last().sources[merged.id()].origin == run[0].sources[merged.id()].origin,
        run.last().sources[reversed.id()].origin == run[0].sources[reversed.id()].origin,
    decreases run.len(),
{
    if run.len() > 1 {
        let less = run.drop_last();
        assert forall|i: int| 0 <= i < less.len() - 1 implies #[trigger] steps_alone(
            less,
            i,
            one.id(),
            other.id(),
        ) by {
            assert(steps_alone(run, i, one.id(), other.id()));
        }
        assert(forall|i: int| 0 <= i < less.len() ==> #[trigger] less[i] == run[i]);
        merging_commutes(less, one, one_since, other, other_since, merged, reversed);
        let n = run.len() - 2;
        let a = run[n];
        let b = run[n + 1];
        assert(less.last() == a);
        assert(steps_alone(run, n, one.id(), other.id()));
        assert(a.source_leads_to(b, merged.id()));
        assert(a.source_leads_to(b, reversed.id()));
        assert(runs(a) && runs(b));
        lemma_merge_step(a, b, one.id(), one_since, other.id(), other_since, merged.id());
        lemma_merge_step(a, b, other.id(), other_since, one.id(), one_since, reversed.id());
        assert(merged.history(b) =~= reversed.history(b)) by {
            let x = a.sources[merged.id()].history;
            let y = a.sources[reversed.id()].history;
            assert(decodings::<T, A>(x) == decodings::<T, A>(y));
            if b.sources[one.id()].history.len() == a.sources[one.id()].history.len() {
                let more = b.sources[other.id()].history.skip(
                    a.sources[other.id()].history.len() as int,
                );
                assert(decodings::<T, A>(x + more) =~= decodings::<T, A>(x) + decodings::<T, A>(
                    more,
                ));
                assert(decodings::<T, A>(y + more) =~= decodings::<T, A>(y) + decodings::<T, A>(
                    more,
                ));
            } else {
                let more = b.sources[one.id()].history.skip(
                    a.sources[one.id()].history.len() as int,
                );
                assert(decodings::<T, A>(x + more) =~= decodings::<T, A>(x) + decodings::<T, A>(
                    more,
                ));
                assert(decodings::<T, A>(y + more) =~= decodings::<T, A>(y) + decodings::<T, A>(
                    more,
                ));
            }
        }
    }
}

/// In the step number `i` of a run at most one of two sources fires.
pub open spec fn steps_alone<T>(run: Seq<NetworkView<T>>, i: int, one: int, other: int) -> bool {
    &&& run[i].leads_to(run[i + 1])
    &&& run[i + 1].sources[one].history.len() == run[i].sources[one].history.len() || run[i
        + 1].sources[other].history.len() == run[i].sources[other].history.len()
}

/// `next` is what `network` is after `v` has been sent into the source `id`, on
/// which at most one of the sources `one` and `other` depends.
pub open spec fn sent_apart<T>(
    network: NetworkView<T>,
    next: NetworkView<T>,
    id: int,
    v: Value<T>,
    one: int,
    other: int,
) -> bool {
    &&& network.is_source(id)
    &&& v.fits(network.sources[id].shape)
    &&& network.sends(id, v, next)
    &&& !(network.dependents(id).contains(one) && network.dependents(id).contains(other))
}

/// In the step number `i` of a run something is sent into a source on which at most
/// one of two sources depends, or neither fires: something is made, handed out or
/// released.
pub open spec fn steps_apart<T>(run: Seq<NetworkView<T>>, i: int, one: int, other: int) -> bool {
    &&& run[i].leads_to(run[i + 1])
    &&& {
        ||| exists|id: int, v: Value<T>| #[trigger]
            sent_apart(run[i], run[i + 1], id, v, one, other)
        ||| run[i + 1].sources[one].history == run[i].sources[one].history && run[i
            + 1].sources[other].history == run[i].sources[other].history
    }
}

/// Streams that depend on no common sink never fire at once.
pub proof fn streams_of_no_common_sink_step_alone<T>(
    run: Seq<NetworkView<T>>,
    i: int,
    one: int,
    other: int,
)
    requires
        run[i].sound(),
        run[i].is_source(one),
        run[i].is_source(other),
        steps_apart(run, i, one, other),
    ensures
        steps_alone(run, i, one, other),
{
    let a = run[i];
    let b = run[i + 1];
    if exists|id: int, v: Value<T>| #[trigger] sent_apart(a, b, id, v, one, other) {
        let (id, v) = choose|id: int, v: Value<T>| #[trigger] sent_apart(a, b, id, v, one, other);
        lemma_sends(a, id, v, b);
        dependents_are_closed(a, id);
        lemma_sent_reaches(a, a.dependents(id), id, v, b.returned);
    }
}

proof fn lemma_along<T>(run: Seq<NetworkView<T>>, i: int, m: int, one: int, other: int)
    requires
        0 <= i < run.len(),
        run[0].is_source(m),
        forall|n: int|
            0 <= n < run.len() - 1 ==> #[trigger] steps_apart(run, n, one, other),
    ensures
        run[i].is_source(m),
        run[i].sources[m].origin == run[0].sources[m].origin,
    decreases i,
{
    if i > 0 {
        lemma_along(run, i - 1, m, one, other);
        assert(steps_apart(run, i - 1, one, other));
        assert(run[i - 1].source_leads_to(run[i], m));
    }
}

/// What a merge fires in the step number `i` of a run.
pub open spec fn merges_in_turn<T: Item, A: Event<T>>(
    run: Seq<NetworkView<T>>,
    i: int,
    one: Stream<A>,
    other: Stream<A>,
    merged: Stream<A>,
) -> bool {
    merged.history(run[i + 1]) == merged.history(run[i]) + one.history(run[i + 1]).skip(
        one.history(run[i]).len() as int,
    ) + other.history(run[i + 1]).skip(other.history(run[i]).len() as int)
}

/// Of two streams that depend on no common sink: the stream made of both by `merge`
/// fires all that they fire since then, each event once and as it is, in the order
/// in which they fire it; and merged the other way round they fire the same. The
/// run is any in which things are sent, made, handed out and released; `run[0]` is
/// the network after both merges were made.
pub proof fn merge_of_streams_of_no_common_sink<T: Item, A: Event<T>>(
    run: Seq<NetworkView<T>>,
    one: Stream<A>,
    one_since: nat,
    other: Stream<A>,
    other_since: nat,
    merged: Stream<A>,
    reversed: Stream<A>,
)
    requires
        run.len() > 0,
        forall|i: int|
            0 <= i < run.len() ==> {
                &&& runs(#[trigger] run[i])
                &&& merged.lives(run[i])
                &&& reversed.lives(run[i])
                &&& one.known(run[i])
                &&& other.known(run[i])
            },
        run[0].sources[merged.id()].origin == (Origin::<T>::Merge {
            left: one.id(),
            left_since: one_since,
            right: other.id(),
            right_since: other_since,
        }),
        run[0].sources[reversed.id()].origin == (Origin::<T>::Merge {
            left: other.id(),
            left_since: other_since,
            right: one.id(),
            right_since: one_since,
        }),
        merged.history(run[0]).len() == 0,
        reversed.history(run[0]).len() == 0,
        forall|i: int|
            0 <= i < run.len() - 1 ==> #[trigger] steps_apart(run, i, one.id(), other.id()),
    ensures
        forall|i: int|
            0 <= i < run.len() - 1 ==> #[trigger] merges_in_turn(run, i, one, other, merged),
        one_since <= one.history(run.last()).len(),
        other_since <= other.history(run.last()).len(),
        woven(
            merged.history(run.last()),
            run.last().sources[merged.id()].sides,
            one.history(run.last()).skip(one_since as int),
            other.history(run.last()).skip(other_since as int),
        ),
        reversed.history(run.last()) == merged.history(run.last()),
{
    let l = one.id();
    let r = other.id();
    assert(merged.history(run[0]) =~= reversed.history(run[0]));
    assert(runs(run[0]));
    assert forall|i: int| 0 <= i < run.len() - 1 implies #[trigger] steps_alone(run, i, l, r) by {
        assert(steps_apart(run, i, l, r));
        assert(runs(run[i]));
        streams_of_no_common_sink_step_alone(run, i, l, r);
    }
    assert forall|i: int| 0 <= i < run.len() - 1 implies #[trigger] merges_in_turn(
        run,
        i,
        one,
        other,
        merged,
    ) by {
        let a = run[i];
        let b = run[i + 1];
        assert(steps_alone(run, i, l, r));
        assert(runs(a) && runs(b));
        lemma_along(run, i, merged.id(), l, r);
        merge_fires_in_order(a, b, one, one_since, other, other_since, merged);
        assert(a.source_leads_to(b, l) && a.source_leads_to(b, r));
        if b.sources[l].history.len() == a.sources[l].history.len() {
            assert(b.sources[l].history =~= a.sources[l].history);
            assert(one.history(b).skip(one.history(a).len() as int) =~= Seq::empty());
        } else {
            assert(b.sources[r].history =~= a.sources[r].history);
            assert(other.history(b).skip(other.history(a).len() as int) =~= Seq::empty());
        }
        assert(merges_in_turn(run, i, one, other, merged));
    }
    merging_commutes(run, one, one_since, other, other_since, merged, reversed);
    merge_fires_both(run.last(), one, one_since, other, other_since, merged);
}

// ---- Listeners ----

/// A listener has received every event since it was made, in order, as long as
/// it is not closed; what waits is what came last.
pub proof fn events_arrive_in_order<T: Item, A: Event<T>>(
    network: NetworkView<T>,
    stream: Stream<A>,
    since: nat,
    events: Events<A>,
)
    requires
        runs(network),
        stream.known(network),
        events.within(network),
        network.queues[events.id()].parent == stream.id(),
        network.queues[events.id()].since == since,
    ensures
        network.queues[events.id()].open ==> {
            &&& since <= stream.history(network).len()
            &&& events.received(network) == stream.history(network).skip(since as int)
        },
        events.waiting(network).is_suffix_of(events.received(network)),
        !network.queues[events.id()].open ==> events.waiting(network).len() == 0,
{
    let q = events.id();
    let queue = network.queues[q];
    assert(network.fed_queue(q));
    if queue.open {
        lemma_effect(network, stream.id(), Reaction::Events { queue: q }, since);
        lemma_decodings_skip::<T, A>(network.sources[stream.id()].history, since as int);
    }
    let taken = queue.received.len() - queue.waiting.len();
    lemma_decodings_skip::<T, A>(queue.received, taken);
    let received = events.received(network);
    let waiting = events.waiting(network);
    assert(waiting =~= received.subrange(
        received.len() - waiting.len(),
        received.len() as int,
    ));
}

/// What is sent takes nothing out of a listener: what comes waits behind what
/// has been waiting.
pub proof fn events_wait_until_taken<T: Item, A: Event<T>>(
    network: NetworkView<T>,
    next: NetworkView<T>,
    events: Events<A>,
)
    requires
        runs(network),
        runs(next),
        network.becomes(next),
        events.within(network),
    ensures
        events.received(network).is_prefix_of(events.received(next)),
        events.waiting(next) == events.waiting(network) + events.received(next).skip(
            events.received(network).len() as int,
        ),
{
    let q = events.id();
    assert(network.fed_queue(q));
    assert(next.fed_queue(q));
    let x = network.queues[q];
    let y = next.queues[q];
    assert(x.received.is_prefix_of(y.received));
    assert(y.waiting =~= x.waiting + y.received.skip(x.received.len() as int));
    let received = events.received(next);
    assert(events.received(network) =~= received.subrange(0, x.received.len() as int));
    assert(events.waiting(next) =~= events.waiting(network) + received.skip(
        x.received.len() as int,
    ));
}

} // verus!
