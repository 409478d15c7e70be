//! The laws of switches.
use crate::consistency::hands_over;
use crate::model::{NetworkView, Origin, Reaction};
use crate::steady::lemma_sent_steady;
use crate::stream::{decodings, Sink, Stream};
use crate::stream_laws::{lemma_decodings_skip, lemma_effect, lemma_sends, runs};
use crate::value::{Carried, Event, Item};
use vstd::prelude::*;

verus! {

/// The turns of a switch are those of the streams that it was handed, in order.
proof fn lemma_turns<T: Item, A: Event<T>>(
    network: NetworkView<T>,
    streams: Stream<Stream<A>>,
    since: nat,
    switched: Stream<A>,
)
    requires
        runs(network),
        streams.known(network),
        switched.lives(network),
        network.sources[switched.id()].origin == (Origin::<T>::Switch {
            parent: streams.id(),
            since,
        }),
    ensures
        since <= streams.history(network).len(),
        ({
            let handed = streams.history(network).skip(since as int);
            let turns = network.sources[switched.id()].turns;
            &&& turns.len() == handed.len()
            &&& forall|j: int|
                0 <= j < turns.len() ==> (#[trigger] turns[j]).stream == handed[j].id()
        }),
{
    let m = switched.id();
    let p = streams.id();
    assert(network.fed_source(m));
    lemma_effect(network, p, Reaction::Switch { target: m }, since);
    lemma_decodings_skip::<T, Stream<A>>(network.sources[p].history, since as int);
    let values = network.sources[p].history.skip(since as int);
    let handed = streams.history(network).skip(since as int);
    let turns = network.sources[m].turns;
    assert(network.sound_source(p));
    assert forall|j: int| 0 <= j < turns.len() implies (#[trigger] turns[j]).stream
        == handed[j].id() by {
        assert(hands_over(values[j], turns[j]));
        assert(values[j] == network.sources[p].history[since + j]);
        <Stream<A> as Carried<T>>::decoded(values[j]);
        (<Stream<A> as Carried<T>>::decode(values[j])->0).lemma_id_range();
    }
}

/// The stream that a switch follows is the last one that it was handed; before
/// it was handed one it has fired nothing.
pub proof fn switch_follows_the_latest<T: Item, A: Event<T>>(
    network: NetworkView<T>,
    streams: Stream<Stream<A>>,
    since: nat,
    switched: Stream<A>,
)
    requires
        runs(network),
        streams.known(network),
        switched.lives(network),
        network.sources[switched.id()].origin == (Origin::<T>::Switch {
            parent: streams.id(),
            since,
        }),
    ensures
        since <= streams.history(network).len(),
        ({
            let handed = streams.history(network).skip(since as int);
            let current = network.sources[switched.id()].current();
            if handed.len() > 0 {
                current == Some(handed.last().id()) && network.is_source(handed.last().id())
            } else {
                current is None && switched.history(network).len() == 0
            }
        }),
{
    lemma_turns(network, streams, since, switched);
    let m = switched.id();
    let turns = network.sources[m].turns;
    assert(network.fed_source(m));
    if turns.len() > 0 {
        assert(network.begun_turn(m, turns.len() - 1));
    }
}

/// What a switch has fired since it was handed the stream that it follows.
proof fn lemma_last_turn<T>(network: NetworkView<T>, m: int)
    requires
        runs(network),
        network.is_source(m),
        !network.sources[m].ended,
        network.sources[m].origin is Switch,
        network.sources[m].turns.len() > 0,
    ensures
        ({
            let turn = network.sources[m].turns.last();
            &&& network.is_source(turn.stream)
            &&& turn.since <= network.sources[turn.stream].history.len()
            &&& turn.from <= network.sources[m].history.len()
            &&& network.sources[m].history.skip(turn.from as int)
                == network.sources[turn.stream].history.skip(turn.since as int)
        }),
{
    let turn = network.sources[m].turns.last();
    assert(network.fed_source(m));
    assert(network.follows(m));
    let token = network.sources[m].terminate->0;
    lemma_effect(
        network,
        turn.stream,
        Reaction::Switched { target: m, token, from: turn.from },
        turn.since,
    );
}

/// What happened in the turn number `j` of a switch: it fired what the stream of
/// the turn fired, from when it was handed that stream until it was handed the
/// next, or until now.
pub open spec fn fired_in_turn<T: Item, A: Event<T>>(
    network: NetworkView<T>,
    switched: Stream<A>,
    stream: Stream<A>,
    j: int,
) -> bool {
    let turns = network.sources[switched.id()].turns;
    let turn = turns[j];
    let until = if j < turns.len() - 1 {
        turns[j + 1].from
    } else {
        switched.history(network).len()
    };
    let stop = turn.since + until - turn.from;
    &&& turn.stream == stream.id()
    &&& j == 0 ==> turn.from == 0
    &&& turn.from <= until <= switched.history(network).len()
    &&& stop <= stream.history(network).len()
    &&& j == turns.len() - 1 ==> stop == stream.history(network).len()
    &&& switched.history(network).subrange(turn.from as int, until as int)
        == stream.history(network).subrange(turn.since as int, stop)
}

/// At any time, whatever has been sent, made and released before, a switch has
/// fired exactly what each stream that it was handed fired in its turn, one turn
/// after the other.
pub proof fn switch_fires_in_turn<T: Item, A: Event<T>>(
    network: NetworkView<T>,
    streams: Stream<Stream<A>>,
    since: nat,
    switched: Stream<A>,
)
    requires
        runs(network),
        streams.known(network),
        switched.lives(network),
        network.sources[switched.id()].origin == (Origin::<T>::Switch {
            parent: streams.id(),
            since,
        }),
    ensures
        since <= streams.history(network).len(),
        ({
            let handed = streams.history(network).skip(since as int);
            &&& network.sources[switched.id()].turns.len() == handed.len()
            &&& handed.len() == 0 ==> switched.history(network).len() == 0
            &&& forall|j: int|
                0 <= j < handed.len() ==> #[trigger] fired_in_turn(
                    network,
                    switched,
                    handed[j],
                    j,
                )
        }),
{
    lemma_turns(network, streams, since, switched);
    let m = switched.id();
    let turns = network.sources[m].turns;
    let handed = streams.history(network).skip(since as int);
    assert(network.fed_source(m));
    assert forall|j: int| 0 <= j < handed.len() implies #[trigger] fired_in_turn(
        network,
        switched,
        handed[j],
        j,
    ) by {
        let turn = turns[j];
        let x = network.sources[m].history;
        let y = network.sources[turn.stream].history;
        assert(turn.stream == handed[j].id());
        assert(network.begun_turn(m, j));
        if j < turns.len() - 1 {
            let until = turns[j + 1].from;
            let stop = turn.since + until - turn.from;
            assert(network.done_turn(m, j));
            assert(network.begun_turn(m, j + 1));
            assert(switched.history(network).subrange(turn.from as int, until as int)
                =~= decodings::<T, A>(x.subrange(turn.from as int, until as int)));
            assert(handed[j].history(network).subrange(turn.since as int, stop)
                =~= decodings::<T, A>(y.subrange(turn.since as int, stop)));
        } else {
            lemma_last_turn(network, m);
            assert(x.skip(turn.from as int).len() == y.skip(turn.since as int).len());
            assert(switched.history(network).subrange(turn.from as int, x.len() as int)
                =~= decodings::<T, A>(x.skip(turn.from as int)));
            assert(handed[j].history(network).subrange(turn.since as int, y.len() as int)
                =~= decodings::<T, A>(y.skip(turn.since as int)));
        }
    }
}

/// A turn of a switch begins in the transaction in which the stream is handed
/// over: what the switch and the stream had fired before that transaction is not
/// part of it.
pub proof fn turns_begin_when_handed_over<T: Item, A: Event<T>, B: Event<T>>(
    network: NetworkView<T>,
    switched: Stream<A>,
    sink: Sink<B>,
    b: B,
    next: NetworkView<T>,
    j: int,
)
    requires
        network.valid(),
        switched.known(network),
        sink.within(network),
        network.sends(sink.id(), b.encode(), next),
        network.sources[switched.id()].turns.len() <= j < next.sources[switched.id()].turns.len(),
    ensures
        network.begins(next, switched.id(), next.sources[switched.id()].turns[j]),
        network.sources[switched.id()].turns.is_prefix_of(next.sources[switched.id()].turns),
{
    let id = sink.id();
    b.encoded();
    lemma_sends(network, id, b.encode(), next);
    lemma_sent_steady(network, id, b.encode(), next.returned);
    let m = switched.id();
    assert(network.keeps_following(next, network.ids(), m));
    assert(network.sources[m].turns.is_prefix_of(next.sources[m].turns));
}

/// While a switch is not handed another stream, it fires what the stream fires
/// that it follows, and nothing else; if it follows none, it fires nothing. That
/// is so whatever is sent, made and released.
pub proof fn switch_fires_what_it_follows<T: Item, A: Event<T>>(
    network: NetworkView<T>,
    streams: Stream<Stream<A>>,
    since: nat,
    switched: Stream<A>,
    next: NetworkView<T>,
)
    requires
        runs(network),
        runs(next),
        network.leads_to(next),
        streams.known(network),
        switched.known(network),
        switched.lives(next),
        network.sources[switched.id()].origin == (Origin::<T>::Switch {
            parent: streams.id(),
            since,
        }),
        streams.history(next) == streams.history(network),
    ensures
        ({
            let before = switched.history(network);
            let after = switched.history(next);
            &&& next.sources[switched.id()].current() == network.sources[switched.id()].current()
            &&& forall|followed: Stream<A>|
                network.sources[switched.id()].current() == Some(#[trigger] followed.id())
                    ==> after == before + followed.history(next).skip(
                    followed.history(network).len() as int,
                )
            &&& network.sources[switched.id()].current() is None ==> after == before
        }),
{
    let m = switched.id();
    assert(network.source_leads_to(next, m));
    assert(network.source_leads_to(next, streams.id()));
    lemma_turns(network, streams, since, switched);
    lemma_turns(next, streams, since, switched);
    let turns = network.sources[m].turns;
    assert(turns =~= next.sources[m].turns);
    assert(network.fed_source(m) && next.fed_source(m));
    if turns.len() > 0 {
        lemma_last_turn(network, m);
        lemma_last_turn(next, m);
        let turn = turns.last();
        assert(network.source_leads_to(next, turn.stream));
        let x = network.sources[m].history;
        let y = next.sources[m].history;
        let z = network.sources[turn.stream].history;
        let w = next.sources[turn.stream].history;
        lemma_more_of_the_same(x, y, z, w, turn.from as int, turn.since as int);
        assert forall|followed: Stream<A>|
            network.sources[m].current() == Some(#[trigger] followed.id()) implies switched.history(
            next,
        ) == switched.history(network) + followed.history(next).skip(
            followed.history(network).len() as int,
        ) by {
            assert(switched.history(next) =~= switched.history(network) + followed.history(
                next,
            ).skip(followed.history(network).len() as int));
        }
    } else {
        assert(switched.history(next) =~= switched.history(network));
    }
}

/// Two sequences that agreed from some points on agree on what was added to
/// both.
proof fn lemma_more_of_the_same<X>(
    x: Seq<X>,
    y: Seq<X>,
    z: Seq<X>,
    w: Seq<X>,
    from: int,
    since: int,
)
    requires
        x.is_prefix_of(y),
        z.is_prefix_of(w),
        0 <= from <= x.len(),
        0 <= since <= z.len(),
        x.skip(from) == z.skip(since),
        y.skip(from) == w.skip(since),
    ensures
        y == x + w.skip(z.len() as int),
{
    assert(x.len() <= y.len() && z.len() <= w.len());
    assert(x.skip(from).len() == x.len() - from && z.skip(since).len() == z.len() - since);
    assert(y.skip(from).len() == y.len() - from && w.skip(since).len() == w.len() - since);
    assert forall|n: int| x.len() <= n < y.len() implies y[n] == w[n - x.len() + z.len()] by {
        assert(y[n] == y.skip(from)[n - from]);
        assert(y.skip(from)[n - from] == w.skip(since)[n - from]);
        assert(w.skip(since)[n - from] == w[n - from + since]);
    }
    assert(y =~= x + w.skip(z.len() as int));
}

/// What a switch fires in a transaction in which it is handed one stream: what the
/// stream fires that it followed until it is handed the other, and what that one
/// fires from then on.
pub proof fn switch_turns_to_what_it_is_handed<T: Item, A: Event<T>, B: Event<T>>(
    network: NetworkView<T>,
    streams: Stream<Stream<A>>,
    since: nat,
    switched: Stream<A>,
    sink: Sink<B>,
    b: B,
    next: NetworkView<T>,
    handed: Stream<A>,
) -> (cut: (int, int))
    requires
        runs(network),
        runs(next),
        streams.known(network),
        switched.lives(network),
        switched.lives(next),
        network.sources[switched.id()].origin == (Origin::<T>::Switch {
            parent: streams.id(),
            since,
        }),
        sink.within(network),
        network.sends(sink.id(), b.encode(), next),
        streams.history(next) == streams.history(network).push(handed),
    ensures
        next.sources[switched.id()].current() == Some(handed.id()),
        ({
            let before = switched.history(network);
            let after = switched.history(next);
            let (from, start) = cut;
            &&& before.len() <= from <= after.len()
            &&& handed.history(network).len() <= start <= handed.history(next).len()
            &&& after.skip(from) == handed.history(next).skip(start)
            &&& match network.sources[switched.id()].current() {
                Some(old_id) => forall|followed: Stream<A>|
                    #[trigger] followed.id() == old_id ==> {
                        let seen = followed.history(network).len() as int;
                        let stop = seen + from - before.len();
                        &&& stop <= followed.history(next).len()
                        &&& after.take(from) == before + followed.history(next).subrange(seen, stop)
                    },
                None => from == 0,
            }
        }),
{
    let id = sink.id();
    let m = switched.id();
    b.encoded();
    lemma_sends(network, id, b.encode(), next);
    lemma_sent_steady(network, id, b.encode(), next.returned);
    lemma_turns(network, streams, since, switched);
    lemma_turns(next, streams, since, switched);
    let old_turns = network.sources[m].turns;
    let turns = next.sources[m].turns;
    assert(network.keeps_following(next, network.ids(), m));
    assert(old_turns.is_prefix_of(turns));
    assert(turns.len() == old_turns.len() + 1);
    let turn = turns.last();
    assert(network.begins(next, m, turns[turns.len() - 1]));
    lemma_last_turn(next, m);
    let x = network.sources[m].history;
    let y = next.sources[m].history;
    assert(x.is_prefix_of(y));
    let handed_now = streams.history(next).skip(since as int);
    assert(handed_now.last() == handed);
    assert(turns[turns.len() - 1].stream == handed_now[turns.len() - 1].id());
    let before = switched.history(network);
    let after = switched.history(next);
    let from = turn.from as int;
    let start = turn.since as int;
    assert(after.skip(from) =~= decodings::<T, A>(y.skip(from)));
    assert(handed.history(next).skip(start) =~= decodings::<T, A>(
        next.sources[handed.id()].history.skip(start),
    ));
    assert(next.fed_source(m));
    if old_turns.len() > 0 {
        let last = old_turns.last();
        let j = old_turns.len() - 1;
        assert(turns[j] == last);
        lemma_last_turn(network, m);
        assert(next.done_turn(m, j));
        assert(next.begun_turn(m, j));
        let z = network.sources[last.stream].history;
        let w = next.sources[last.stream].history;
        assert(z.is_prefix_of(w));
        let stop = z.len() + from - x.len();
        assert(x.skip(last.from as int).len() == z.skip(last.since as int).len());
        assert(last.since + from - last.from == stop);
        assert(y.take(from) =~= x + w.subrange(z.len() as int, stop)) by {
            assert forall|n: int| x.len() <= n < from implies y[n] == w[n - x.len()
                + z.len()] by {
                let a = y.subrange(last.from as int, from);
                let c = w.subrange(last.since as int, stop);
                assert(a == c);
                assert(y[n] == a[n - last.from]);
                assert(c[n - last.from] == w[n - last.from + last.since]);
            }
        }
        assert forall|followed: Stream<A>| #[trigger] followed.id() == last.stream implies ({
            let seen = followed.history(network).len() as int;
            &&& seen + from - before.len() <= followed.history(next).len()
            &&& after.take(from) == before + followed.history(next).subrange(
                seen,
                seen + from - before.len(),
            )
        }) by {
            let seen = followed.history(network).len() as int;
            assert(after.take(from) =~= decodings::<T, A>(y.take(from)));
            assert(after.take(from) =~= before + followed.history(next).subrange(seen, stop));
        }
    } else {
        assert(next.begun_turn(m, 0));
    }
    (from, start)
}

} // verus!
