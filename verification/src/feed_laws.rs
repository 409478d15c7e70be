//! The laws of feeding: it is sending one after the other.
use crate::life::lemma_sweep_sound;
use crate::model::NetworkView;
use crate::results::lemma_sent_agrees;
use crate::sound::{all_fit, lemma_becomes_transitive, lemma_fire_sound, lemma_reflexive};
use crate::stream::{encodings, lemma_encodings_fit, Sink};
use crate::stream_laws::{
    feeding_is_sending_in_turn, lemma_fed_not_overstepped, lemma_fed_sound, lemma_feeds,
    lemma_sends,
};
use crate::value::{Event, Item, Value};
use vstd::prelude::*;

verus! {

proof fn lemma_prefixes<X>(x: Seq<X>, y: Seq<X>, z: Seq<X>)
    requires
        x.is_prefix_of(y),
        y.is_prefix_of(z),
    ensures
        x.is_prefix_of(z),
{
    assert(x =~= z.subrange(0, x.len() as int));
}

/// Feeding uses what is given, in order, and nothing else that is given makes a
/// difference.
proof fn lemma_fed_agrees<T>(
    a: NetworkView<T>,
    id: int,
    vs: Seq<Value<T>>,
    all: Seq<Value<T>>,
    other: Seq<Value<T>>,
)
    requires
        a.sound(),
        a.is_source(id),
        all_fit(vs, a.sources[id].shape),
        a.returned.is_prefix_of(all),
    ensures
        a.fed(id, vs, all).returned.is_prefix_of(all),
        a.fed(id, vs, all).is_real() && a.fed(id, vs, all).returned.is_prefix_of(other) ==> a.fed(
            id,
            vs,
            other,
        ) == a.fed(id, vs, all),
    decreases vs.len(),
{
    if vs.len() > 0 {
        let less = vs.drop_last();
        let v = vs.last();
        let b = a.fed(id, less, all);
        let c = a.fed(id, vs, all);
        assert(all_fit(less, a.sources[id].shape));
        lemma_fed_agrees(a, id, less, all, other);
        lemma_fed_sound(a, id, less, all);
        assert(b.sources[id].shape == a.sources[id].shape);
        lemma_sent_agrees(b, id, v, all, other);
        lemma_sent_becomes(b, id, v, all);
        if c.is_real() && c.returned.is_prefix_of(other) {
            lemma_prefixes(b.returned, c.returned, other);
        }
    }
}

proof fn lemma_sent_becomes<T>(a: NetworkView<T>, id: int, v: Value<T>, all: Seq<Value<T>>)
    requires
        a.sound(),
        a.is_source(id),
        v.fits(a.sources[id].shape),
    ensures
        a.sent(id, v, all).sound(),
        a.becomes(a.sent(id, v, all)),
{
    let fired = a.fire(all, a.ids(), id, v, v);
    lemma_fire_sound(a, all, a.ids(), id, v, v);
    lemma_sweep_sound(fired);
    lemma_becomes_transitive(a, fired, fired.sweep());
}

/// Feeding nothing changes nothing.
pub proof fn feeding_nothing_changes_nothing<T: Item, A: Event<T>>(
    network: NetworkView<T>,
    sink: Sink<A>,
    next: NetworkView<T>,
)
    requires
        network.valid(),
    ensures
        network.feeds(sink.id(), encodings(Seq::<A>::empty()), next) <==> next == network,
{
    let none = encodings::<T, A>(Seq::empty());
    assert(none.len() == 0);
    if network.feeds(sink.id(), none, next) {
        lemma_feeds(network, sink.id(), none, next);
    }
}

/// Feeding has the effect of sending the events one after the other: there are
/// networks in between, each of which sending the next event makes of the one before
/// it. And if the whole can be fed, each of them can be sent.
pub proof fn feeding_is_sending<T: Item, A: Event<T>>(
    network: NetworkView<T>,
    sink: Sink<A>,
    events: Seq<A>,
    next: NetworkView<T>,
) -> (run: Seq<NetworkView<T>>)
    requires
        network.valid(),
        sink.within(network),
        network.feeds(sink.id(), encodings(events), next),
    ensures
        run.len() == events.len() + 1,
        run[0] == network,
        run.last() == next,
        forall|i: int|
            0 <= i < events.len() ==> (#[trigger] run[i]).sends(
                sink.id(),
                events[i].encode(),
                run[i + 1],
            ),
        network.can_feed(sink.id(), encodings(events)) ==> forall|i: int|
            0 <= i < events.len() ==> (#[trigger] run[i]).can_send(sink.id(), events[i].encode()),
{
    let id = sink.id();
    let vs = encodings::<T, A>(events);
    let given = next.returned;
    lemma_encodings_fit::<T, A>(events);
    lemma_feeds(network, id, vs, next);
    lemma_fed_sound(network, id, vs, given);
    let run = Seq::new(events.len() + 1, |i: int| network.fed(id, vs.take(i), given));
    assert(vs.take(vs.len() as int) =~= vs);
    assert(vs.take(0) =~= Seq::empty());
    assert forall|i: int| 0 <= i < events.len() implies {
        &&& (#[trigger] run[i]).sends(id, events[i].encode(), run[i + 1])
        &&& network.can_feed(id, vs) ==> run[i].can_send(id, events[i].encode())
    } by {
        let v = vs[i];
        let a = run[i];
        let b = run[i + 1];
        lemma_step(network, id, vs, i, given);
        assert forall|all: Seq<Value<T>>| b.returned.is_prefix_of(all) implies b
            == #[trigger] a.sent(id, v, all) by {
            lemma_sent_agrees(a, id, v, given, all);
        }
        if network.can_feed(id, vs) {
            assert forall|all: Seq<Value<T>>| a.returned.is_prefix_of(all) implies !(
            #[trigger] a.sent(id, v, all)).overstepped by {
                lemma_fed_agrees(network, id, vs.take(i), given, all);
                assert(network.fed(id, vs.take(i), all) == a);
                lemma_prefixes(network.returned, a.returned, all);
                lemma_fed_not_overstepped(network, id, vs, i + 1, all);
                assert(vs.take(i + 1).drop_last() =~= vs.take(i));
            }
        }
    }
    run
}

/// What is known of the step number `i` of feeding.
proof fn lemma_step<T>(
    a: NetworkView<T>,
    id: int,
    vs: Seq<Value<T>>,
    i: int,
    given: Seq<Value<T>>,
)
    requires
        a.sound(),
        a.is_source(id),
        all_fit(vs, a.sources[id].shape),
        a.returned.is_prefix_of(given),
        a.fed(id, vs, given).is_real(),
        0 <= i < vs.len(),
    ensures
        ({
            let b = a.fed(id, vs.take(i), given);
            let c = a.fed(id, vs.take(i + 1), given);
            &&& b.sound()
            &&& a.becomes(b)
            &&& b.is_source(id)
            &&& vs[i].fits(b.sources[id].shape)
            &&& b.returned.is_prefix_of(given)
            &&& c == b.sent(id, vs[i], given)
            &&& b.is_real()
            &&& c.is_real()
            &&& all_fit(vs.take(i), a.sources[id].shape)
        }),
{
    let b = a.fed(id, vs.take(i), given);
    let c = a.fed(id, vs.take(i + 1), given);
    let rest = vs.skip(i + 1);
    assert(all_fit(vs.take(i), a.sources[id].shape));
    assert(all_fit(vs.take(i + 1), a.sources[id].shape));
    lemma_fed_sound(a, id, vs.take(i), given);
    lemma_fed_sound(a, id, vs.take(i + 1), given);
    lemma_fed_agrees(a, id, vs.take(i), given, given);
    assert(b.sources[id].shape == a.sources[id].shape);
    assert(c.sources[id].shape == a.sources[id].shape);
    assert(vs.take(i + 1).drop_last() =~= vs.take(i));
    assert(vs.take(i + 1).last() == vs[i]);
    lemma_sent_becomes(b, id, vs[i], given);
    assert(vs.take(i + 1) + rest =~= vs);
    feeding_is_sending_in_turn(a, id, vs.take(i + 1), rest, given);
    assert(all_fit(rest, c.sources[id].shape)) by {
        assert forall|j: int| 0 <= j < rest.len() implies (#[trigger] rest[j]).fits(
            c.sources[id].shape,
        ) by {
            assert(vs[i + 1 + j].fits(a.sources[id].shape));
        }
    }
    lemma_fed_sound(c, id, rest, given);
}

/// Sending events one after the other has the effect of feeding them.
pub proof fn sending_in_turn_is_feeding<T: Item, A: Event<T>>(
    run: Seq<NetworkView<T>>,
    sink: Sink<A>,
    events: Seq<A>,
)
    requires
        run.len() == events.len() + 1,
        run[0].valid(),
        sink.within(run[0]),
        forall|i: int|
            0 <= i < events.len() ==> (#[trigger] run[i]).sends(
                sink.id(),
                events[i].encode(),
                run[i + 1],
            ),
    ensures
        run[0].feeds(sink.id(), encodings(events), run.last()),
{
    let id = sink.id();
    let n = events.len() as int;
    lemma_turns(run, sink, events, n);
    assert forall|all: Seq<Value<T>>| run.last().returned.is_prefix_of(all) implies run.last()
        == #[trigger] run[0].fed(id, encodings(events), all) by {
        assert(encodings::<T, A>(events).take(n) =~= encodings::<T, A>(events));
        assert(run[n] == run[0].fed(id, encodings::<T, A>(events).take(n), all));
    }
    if n > 0 {
        assert(run[n - 1].sends(id, events[n - 1].encode(), run[n - 1 + 1]));
    }
}

proof fn lemma_turns<T: Item, A: Event<T>>(
    run: Seq<NetworkView<T>>,
    sink: Sink<A>,
    events: Seq<A>,
    n: int,
)
    requires
        run.len() == events.len() + 1,
        run[0].valid(),
        sink.within(run[0]),
        forall|i: int|
            0 <= i < events.len() ==> (#[trigger] run[i]).sends(
                sink.id(),
                events[i].encode(),
                run[i + 1],
            ),
        0 <= n <= events.len(),
    ensures
        run[n].sound(),
        run[0].becomes(run[n]),
        forall|all: Seq<Value<T>>|
            run[n].returned.is_prefix_of(all) ==> run[n] == #[trigger] run[0].fed(
                sink.id(),
                encodings::<T, A>(events).take(n),
                all,
            ),
    decreases n,
{
    let id = sink.id();
    let vs = encodings::<T, A>(events);
    if n == 0 {
        lemma_reflexive(run[0], run[0].ids());
        assert(vs.take(0) =~= Seq::empty());
    } else {
        lemma_turns(run, sink, events, n - 1);
        let a = run[n - 1];
        let b = run[n - 1 + 1];
        let v = events[n - 1].encode();
        events[n - 1].encoded();
        assert(a.sends(id, v, b));
        assert(a.sources[id].shape == run[0].sources[id].shape);
        lemma_sends(a, id, v, b);
        lemma_sent_becomes(a, id, v, b.returned);
        lemma_becomes_transitive(run[0], a, b);
        assert(vs.take(n).drop_last() =~= vs.take(n - 1));
        assert(vs.take(n).last() == v);
        assert forall|all: Seq<Value<T>>| b.returned.is_prefix_of(all) implies b
            == #[trigger] run[0].fed(id, vs.take(n), all) by {
            lemma_prefixes(a.returned, b.returned, all);
            assert(a == run[0].fed(id, vs.take(n - 1), all));
            assert(b == a.sent(id, v, all));
        }
    }
}

/// Feeding can be done in parts: feeding `first` and then `second` has the effect of
/// feeding them at once.
pub proof fn feeding_in_parts<T: Item, A: Event<T>>(
    network: NetworkView<T>,
    sink: Sink<A>,
    first: Seq<A>,
    mid: NetworkView<T>,
    second: Seq<A>,
    next: NetworkView<T>,
)
    requires
        network.valid(),
        sink.within(network),
        network.feeds(sink.id(), encodings(first), mid),
        mid.feeds(sink.id(), encodings(second), next),
    ensures
        network.feeds(sink.id(), encodings(first + second), next),
{
    let id = sink.id();
    let x = encodings::<T, A>(first);
    let y = encodings::<T, A>(second);
    lemma_encodings_fit::<T, A>(first);
    lemma_encodings_fit::<T, A>(second);
    lemma_feeds(network, id, x, mid);
    lemma_fed_sound(network, id, x, mid.returned);
    assert(mid.sources[id].shape == network.sources[id].shape);
    lemma_feeds(mid, id, y, next);
    lemma_fed_sound(mid, id, y, next.returned);
    assert(encodings::<T, A>(first + second) =~= x + y);
    assert forall|all: Seq<Value<T>>| next.returned.is_prefix_of(all) implies next
        == #[trigger] network.fed(id, x + y, all) by {
        lemma_prefixes(mid.returned, next.returned, all);
        feeding_is_sending_in_turn(network, id, x, y, all);
        assert(mid == network.fed(id, x, all));
        assert(next == mid.fed(id, y, all));
    }
}

} // verus!
