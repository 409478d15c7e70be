//! The laws of networks: what stays, where events run, what is true when sending is
//! done, and when it succeeds.
use crate::building::{lemma_defined_grows, lemma_lets_go_valid, lemma_same_defined};
use crate::consistency::{before_update, is_update, last_or};
use crate::flow::{
    bears_on, fires_into, lemma_sent_flows, lemma_sent_reaches, lemma_sheds, lemma_stays_defined,
    lemma_stays_settled, lemma_sweep_sheds,
};
use crate::life::lemma_sweep_sound;
use crate::model::{
    CellOrigin, CellView, ContentView, Entry, NetworkView, Origin, Reaction, SourceView,
};
use crate::signal::{Signal, SignalMut};
use crate::sound::all_fit;
use crate::stream::{encodings, lemma_encodings_fit, Events, Sink, Stream};
use crate::stream_laws::{
    lemma_effect, lemma_fed_sound, lemma_feeds, lemma_sends, runs, sink_fires_what_is_sent,
};
use crate::value::{Carried, Event, Item, Value};
use vstd::prelude::*;

verus! {

// ---- What stays ----

/// What is made later, sent or handed out takes no sink away.
pub proof fn sinks_stay<T: Item, A: Event<T>>(
    network: NetworkView<T>,
    next: NetworkView<T>,
    sink: Sink<A>,
)
    requires
        network.grows_to(next) || network.becomes(next) || network.hands_out(next),
        sink.within(network),
    ensures
        sink.within(next),
{
    assert(next.sources[sink.id()].shape == network.sources[sink.id()].shape);
}

/// What is made later, sent or handed out takes no stream away of which somebody
/// has a handle.
pub proof fn streams_stay<T: Item, A: Event<T>>(
    network: NetworkView<T>,
    next: NetworkView<T>,
    stream: Stream<A>,
)
    requires
        network.grows_to(next) || network.becomes(next) || network.hands_out(next),
        stream.within(network),
    ensures
        stream.within(next),
{
    assert(next.sources[stream.id()].shape == network.sources[stream.id()].shape);
}

/// What is made later, sent or handed out takes no signal away of which somebody
/// has a handle, nor its value.
pub proof fn signals_stay<T: Item, A: Event<T>>(
    network: NetworkView<T>,
    next: NetworkView<T>,
    signal: Signal<A>,
)
    requires
        network.grows_to(next) || network.becomes(next) || network.hands_out(next),
        next.valid(),
        signal.within(network),
    ensures
        signal.within(next),
{
    lemma_value_stays(network, next, signal.id());
}

/// What is made later, sent or handed out takes no accumulator away of which
/// somebody has a handle.
pub proof fn accumulators_stay<T: Item, A: Carried<T>>(
    network: NetworkView<T>,
    next: NetworkView<T>,
    state: SignalMut<A>,
)
    requires
        network.grows_to(next) || network.becomes(next) || network.hands_out(next),
        next.valid(),
        state.within(network),
    ensures
        state.within(next),
{
    lemma_value_stays(network, next, state.id());
}

/// What is made later, sent or handed out takes no listener away.
pub proof fn listeners_stay<T: Item, A: Event<T>>(
    network: NetworkView<T>,
    next: NetworkView<T>,
    events: Events<A>,
)
    requires
        network.grows_to(next) || network.becomes(next) || network.hands_out(next),
        events.within(network),
    ensures
        events.within(next),
{
    assert(next.queues[events.id()].shape == network.queues[events.id()].shape);
}

proof fn lemma_value_stays<T>(network: NetworkView<T>, next: NetworkView<T>, k: int)
    requires
        network.grows_to(next) || network.becomes(next) || network.hands_out(next),
        next.sound(),
        network.is_cell(k),
        network.defined(k),
        !network.cells[k].released,
    ensures
        next.is_cell(k),
        next.defined(k),
        next.cells[k].shape == network.cells[k].shape,
        next.cells[k].released == network.cells[k].released,
{
    assert(next.cells[k].shape == network.cells[k].shape);
    if network.grows_to(next) {
        lemma_defined_grows(network, next, k);
    } else if network.hands_out(next) {
        lemma_same_defined(network, next, k);
    } else {
        assert(next.sound_cell(k));
        lemma_stays_defined(network, next, k);
    }
}

// ---- Where events run ----

impl<T> NetworkView<T> {
    /// The callback `i` of the source `s` makes the source `t` fire.
    pub open spec fn feeds_into(self, s: int, i: int, t: int) -> bool {
        &&& self.is_callback(s, i)
        &&& !self.disappeared(self.sources[s].callbacks[i])
        &&& fires_into(self.sources[s].callbacks[i]) == Some(t)
    }

    /// What the source `id` fires makes the source `s` fire in at most `n` steps.
    pub open spec fn reaches_at(self, n: nat, id: int, s: int) -> bool
        decreases n,
    {
        ||| s == id
        ||| n > 0 && exists|p: int, i: int|
            #[trigger] self.feeds_into(p, i, s) && self.reaches_at((n - 1) as nat, id, p)
    }

    /// The sources that what the source `id` fires can make fire as things are, and
    /// `id` itself.
    pub open spec fn downstream(self, id: int) -> Set<int> {
        Set::new(|s: int| exists|n: nat| self.reaches_at(n, id, s))
    }

    /// The callback `i` of the source `s` makes the source `t` fire, or hands
    /// streams over to it.
    pub open spec fn decides(self, s: int, i: int, t: int) -> bool {
        &&& self.is_callback(s, i)
        &&& !self.disappeared(self.sources[s].callbacks[i])
        &&& bears_on(self.sources[s].callbacks[i]) == Some(t)
    }

    /// The source `s` depends on the source `id` in at most `n` steps.
    pub open spec fn depends_at(self, n: nat, id: int, s: int) -> bool
        decreases n,
    {
        ||| s == id
        ||| n > 0 && exists|p: int, i: int|
            #[trigger] self.decides(p, i, s) && self.depends_at((n - 1) as nat, id, p)
    }

    /// The sources that depend on the source `id`, and `id` itself: a switch
    /// depends on what hands streams over to it, and on what it follows.
    pub open spec fn dependents(self, id: int) -> Set<int> {
        Set::new(|s: int| exists|n: nat| self.depends_at(n, id, s))
    }
}

/// Whatever is downstream of a source makes none but what is downstream of it
/// fire.
pub proof fn downstream_is_closed<T>(network: NetworkView<T>, id: int)
    ensures
        network.downstream(id).contains(id),
        forall|s: int, i: int, t: int| #[trigger]
            network.feeds_into(s, i, t) && network.downstream(id).contains(s)
                ==> network.downstream(id).contains(t),
{
    let reached = network.downstream(id);
    assert(network.reaches_at(0, id, id));
    assert forall|s: int, i: int, t: int| #[trigger]
        network.feeds_into(s, i, t) && reached.contains(s) implies reached.contains(t) by {
        let n = choose|n: nat| network.reaches_at(n, id, s);
        assert(network.reaches_at(n + 1, id, t));
    }
}

/// Whatever depends on a source bears on none but what depends on it.
pub proof fn dependents_are_closed<T>(network: NetworkView<T>, id: int)
    ensures
        network.dependents(id).contains(id),
        network.closed_in(network.dependents(id)),
{
    let reached = network.dependents(id);
    assert(network.depends_at(0, id, id));
    assert forall|s: int, i: int| network.is_callback(s, i) && reached.contains(s) implies
        #[trigger] network.stays_among(reached, s, i) by {
        let entry = network.sources[s].callbacks[i];
        if !network.disappeared(entry) {
            if let Some(t) = bears_on(entry) {
                let n = choose|n: nat| network.depends_at(n, id, s);
                assert(network.decides(s, i, t));
                assert(network.depends_at(n + 1, id, t));
            }
        }
    }
}

/// What is sent makes nothing fire but what depends on the sink, whatever switches
/// are handed on the way.
pub proof fn nothing_fires_but_dependents<T: Item, A: Event<T>>(
    network: NetworkView<T>,
    sink: Sink<A>,
    a: A,
    next: NetworkView<T>,
    s: int,
)
    requires
        network.valid(),
        sink.within(network),
        network.sends(sink.id(), a.encode(), next),
        network.is_source(s),
        !network.dependents(sink.id()).contains(s),
    ensures
        next.sources[s].history == network.sources[s].history,
{
    let id = sink.id();
    a.encoded();
    dependents_are_closed(network, id);
    lemma_sends(network, id, a.encode(), next);
    lemma_sent_reaches(network, network.dependents(id), id, a.encode(), next.returned);
}

// ---- What is true when sending is done ----

impl<T> NetworkView<T> {
    /// A listener that is not closed has received all that its stream has fired
    /// since it was made, and what of that has not been taken waits.
    pub open spec fn listener_is_current(self, q: int) -> bool {
        let queue = self.queues[q];
        let fired = self.sources[queue.parent].history;
        queue.open ==> {
            &&& queue.since <= fired.len()
            &&& queue.received == fired.skip(queue.since as int)
            &&& queue.waiting.len() <= queue.received.len()
            &&& queue.waiting == queue.received.skip(queue.received.len() - queue.waiting.len())
        }
    }

    /// A cell that holds or accumulates events, and goes on, contains what the events
    /// since it was made come to.
    pub open spec fn cell_is_current(self, k: int) -> bool {
        let cell = self.cells[k];
        cell.ended || match cell.origin {
            CellOrigin::Hold { parent, since, initial } => {
                let fired = self.sources[parent].history;
                &&& since <= fired.len()
                &&& cell.content == ContentView::Held(last_or(initial, fired.skip(since as int)))
            },
            CellOrigin::ScanMut { parent, since, initial, f } => {
                let fired = self.sources[parent].history;
                let heard = fired.skip(since as int);
                &&& since <= fired.len()
                &&& cell.updates.len() == heard.len()
                &&& forall|j: int|
                    0 <= j < heard.len() ==> #[trigger] is_update(
                        f,
                        initial,
                        cell.updates,
                        heard,
                        j,
                    )
                &&& cell.content == ContentView::Held(
                    before_update(initial, cell.updates, heard.len() as int),
                )
            },
            _ => true,
        }
    }

    /// A callback that has not disappeared has had the effect of everything that its
    /// source has fired since it was registered.
    pub open spec fn callback_is_current(self, s: int, i: int) -> bool {
        let entry = self.sources[s].callbacks[i];
        let fired = self.sources[s].history;
        self.disappeared(entry) || entry.since <= fired.len() && self.has_effect(
            s,
            entry,
            fired.skip(entry.since as int),
        )
    }
}

/// When sending is done, everything that depends on the sink is up to date: the
/// stream has fired the event, all derived streams have fired what it comes to, every
/// listener has what its stream has fired, behind what has been waiting, and every
/// signal that holds or accumulates events has its new value.
pub proof fn sending_brings_everything_up_to_date<T: Item, A: Event<T>>(
    network: NetworkView<T>,
    sink: Sink<A>,
    a: A,
    next: NetworkView<T>,
)
    requires
        runs(network),
        sink.within(network),
        network.sends(sink.id(), a.encode(), next),
        runs(next),
    ensures
        sink.history(next) == sink.history(network).push(a),
        forall|s: int, i: int| next.is_callback(s, i) ==> #[trigger] next.callback_is_current(s, i),
        forall|q: int| next.is_queue(q) ==> #[trigger] next.listener_is_current(q),
        forall|q: int|
            network.is_queue(q) ==> (#[trigger] next.queues[q]).waiting
                == network.queues[q].waiting + next.queues[q].received.skip(
                network.queues[q].received.len() as int,
            ),
        forall|k: int| next.is_cell(k) ==> #[trigger] next.cell_is_current(k),
{
    sink_fires_what_is_sent(network, sink, a, next);
    assert forall|s: int, i: int| next.is_callback(s, i) implies
        #[trigger] next.callback_is_current(s, i) by {
        let entry = next.sources[s].callbacks[i];
        assert(next.has(s, entry.reaction, entry.since));
        lemma_effect(next, s, entry.reaction, entry.since);
    }
    assert forall|q: int| next.is_queue(q) implies #[trigger] next.listener_is_current(q) by {
        let queue = next.queues[q];
        assert(next.fed_queue(q));
        if queue.open {
            lemma_effect(next, queue.parent, Reaction::Events { queue: q }, queue.since);
        }
    }
    assert forall|q: int| network.is_queue(q) implies (#[trigger] next.queues[q]).waiting
        == network.queues[q].waiting + next.queues[q].received.skip(
        network.queues[q].received.len() as int,
    ) by {
        assert(network.fed_queue(q));
        assert(next.fed_queue(q));
        let x = network.queues[q];
        let y = next.queues[q];
        assert(x.received.is_prefix_of(y.received));
        assert(y.waiting =~= x.waiting + y.received.skip(x.received.len() as int));
    }
    assert forall|k: int| next.is_cell(k) implies #[trigger] next.cell_is_current(k) by {
        assert(next.fed_cell(k));
        if !next.cells[k].ended {
            match next.cells[k].origin {
                CellOrigin::Hold { parent, since, initial } => {
                    lemma_effect(next, parent, Reaction::Hold { cell: k }, since);
                },
                CellOrigin::ScanMut { parent, since, initial, f } => {
                    lemma_effect(next, parent, Reaction::ScanMut { cell: k, f }, since);
                },
                _ => {},
            }
        }
    }
}

// ---- When sending succeeds ----

/// Sending does not poison a network in which events run from lower to higher
/// ranks, whatever the ranks are, and every signal has a value, if whatever was
/// handed to switches on the way was acceptable: streams of the network that had
/// not ended, were not firing, and have a lower rank than the switch. The same is
/// true again afterwards.
pub proof fn sending_does_not_poison<T: Item, A: Event<T>>(
    network: NetworkView<T>,
    rank: spec_fn(int) -> int,
    reached: Set<int>,
    sink: Sink<A>,
    a: A,
    next: NetworkView<T>,
)
    requires
        runs(network),
        network.flows_by(rank),
        network.settled(),
        sink.within(network),
        reached.contains(sink.id()),
        network.closed_in(reached),
        network.sends(sink.id(), a.encode(), next),
        network.hands_over_well(rank, reached, sink.id(), next),
    ensures
        !next.poisoned,
        next.flows_by(rank),
        next.settled(),
        next.closed_in(reached),
{
    a.encoded();
    lemma_sends(network, sink.id(), a.encode(), next);
    lemma_sent_flows(network, rank, reached, sink.id(), a.encode(), next.returned);
}

/// Feeding does not poison a network if sending what is fed, one after the other,
/// does not.
pub proof fn feeding_does_not_poison<T: Item, A: Event<T>>(
    network: NetworkView<T>,
    rank: spec_fn(int) -> int,
    reached: Set<int>,
    sink: Sink<A>,
    events: Seq<A>,
    next: NetworkView<T>,
)
    requires
        runs(network),
        network.flows_by(rank),
        network.settled(),
        sink.within(network),
        reached.contains(sink.id()),
        network.closed_in(reached),
        network.feeds(sink.id(), encodings(events), next),
        forall|n: int|
            0 <= n < events.len() ==> #[trigger] network.step_hands_over_well(
                rank,
                reached,
                sink.id(),
                encodings(events),
                next.returned,
                n,
            ),
    ensures
        !next.poisoned,
        next.flows_by(rank),
        next.settled(),
        next.closed_in(reached),
{
    lemma_encodings_fit::<T, A>(events);
    lemma_feeds(network, sink.id(), encodings(events), next);
    lemma_fed_flows(network, rank, reached, sink.id(), encodings(events), next.returned);
}

impl<T> NetworkView<T> {
    /// What is handed to switches while the value number `n` of those that are fed
    /// is sent is acceptable.
    pub open spec fn step_hands_over_well(
        self,
        rank: spec_fn(int) -> int,
        reached: Set<int>,
        id: int,
        vs: Seq<Value<T>>,
        all: Seq<Value<T>>,
        n: int,
    ) -> bool {
        self.fed(id, vs.take(n), all).hands_over_well(
            rank,
            reached,
            id,
            self.fed(id, vs.take(n + 1), all),
        )
    }
}

proof fn lemma_fed_flows<T>(
    a: NetworkView<T>,
    rank: spec_fn(int) -> int,
    reached: Set<int>,
    id: int,
    vs: Seq<Value<T>>,
    all: Seq<Value<T>>,
)
    requires
        a.sound(),
        !a.poisoned,
        a.flows_by(rank),
        a.settled(),
        a.is_source(id),
        all_fit(vs, a.sources[id].shape),
        reached.contains(id),
        a.closed_in(reached),
        forall|n: int|
            0 <= n < vs.len() ==> #[trigger] a.step_hands_over_well(
                rank,
                reached,
                id,
                vs,
                all,
                n,
            ),
    ensures
        !a.fed(id, vs, all).poisoned,
        a.fed(id, vs, all).flows_by(rank),
        a.fed(id, vs, all).settled(),
        a.fed(id, vs, all).closed_in(reached),
    decreases vs.len(),
{
    if vs.len() > 0 {
        let less = vs.drop_last();
        let b = a.fed(id, less, all);
        assert forall|n: int| 0 <= n < less.len() implies #[trigger] a.step_hands_over_well(
            rank,
            reached,
            id,
            less,
            all,
            n,
        ) by {
            assert(a.step_hands_over_well(rank, reached, id, vs, all, n));
            assert(less.take(n) =~= vs.take(n));
            assert(less.take(n + 1) =~= vs.take(n + 1));
        }
        lemma_fed_flows(a, rank, reached, id, less, all);
        lemma_fed_sound(a, id, less, all);
        assert(b.sources[id].shape == a.sources[id].shape);
        let n = vs.len() - 1;
        assert(a.step_hands_over_well(rank, reached, id, vs, all, n));
        assert(vs.take(n) =~= less);
        assert(vs.take(n + 1) =~= vs);
        lemma_sent_flows(b, rank, reached, id, vs.last(), all);
    }
}

/// Where every switch follows a stream that was made before it, events run from
/// what was made earlier to what was made later.
pub proof fn events_run_forward<T>(network: NetworkView<T>)
    requires
        network.sound(),
        forall|s: int, i: int|
            #![trigger network.sources[s].callbacks[i]]
            network.is_callback(s, i) ==> (
            network.sources[s].callbacks[i].reaction matches Reaction::Switched { target, .. }
                ==> s < target),
    ensures
        network.flows_by(|s: int| s),
{
    let rank = |s: int| s;
    assert forall|s: int, i: int| network.is_callback(s, i) implies #[trigger] network.rises(
        rank,
        s,
        i,
    ) by {
        let entry = network.sources[s].callbacks[i];
        assert(network.sound_source(s));
        assert(network.sound_entry(s, entry));
        if let Some(t) = fires_into(entry) {
            assert(network.sound_source(t));
        }
    }
}

/// A stream can be handed to a switch if it is not downstream of it: there are
/// ranks by which events run upward and the stream is below the switch. No rank
/// is lowered by that, and that of the stream is not changed, so it can be handed
/// to several switches.
pub proof fn handing_over_keeps_a_rank<T>(
    network: NetworkView<T>,
    rank: spec_fn(int) -> int,
    stream: int,
    switch: int,
) -> (raised: spec_fn(int) -> int)
    requires
        network.flows_by(rank),
        !network.downstream(switch).contains(stream),
    ensures
        network.flows_by(raised),
        raised(stream) < raised(switch),
        raised(stream) == rank(stream),
        forall|s: int| rank(s) <= #[trigger] raised(s),
{
    let below = network.downstream(switch);
    let by: int = if rank(stream) < rank(switch) {
        0
    } else {
        rank(stream) - rank(switch) + 1
    };
    let raised = |s: int|
        if below.contains(s) {
            rank(s) + by
        } else {
            rank(s)
        };
    downstream_is_closed(network, switch);
    assert forall|s: int, i: int| network.is_callback(s, i) implies #[trigger] network.rises(
        raised,
        s,
        i,
    ) by {
        assert(network.rises(rank, s, i));
        if below.contains(s) {
            if let Some(t) = fires_into(network.sources[s].callbacks[i]) {
                if !network.disappeared(network.sources[s].callbacks[i]) {
                    assert(network.feeds_into(s, i, t));
                }
            }
        }
    }
    raised
}

/// The highest rank of the first `n` sources, or zero.
spec fn highest(rank: spec_fn(int) -> int, n: nat) -> int
    decreases n,
{
    if n == 0 {
        0
    } else {
        let rest = highest(rank, (n - 1) as nat);
        if rank(n - 1) > rest {
            rank(n - 1)
        } else {
            rest
        }
    }
}

proof fn lemma_highest(rank: spec_fn(int) -> int, n: nat)
    ensures
        forall|s: int| 0 <= s < n ==> #[trigger] rank(s) <= highest(rank, n),
    decreases n,
{
    if n > 0 {
        lemma_highest(rank, (n - 1) as nat);
    }
}

/// What is made later comes after what was there: the ranks of that stay.
pub proof fn building_keeps_a_rank<T>(
    network: NetworkView<T>,
    rank: spec_fn(int) -> int,
    next: NetworkView<T>,
) -> (longer: spec_fn(int) -> int)
    requires
        runs(network),
        network.flows_by(rank),
        network.grows_to(next),
        next.sound(),
    ensures
        next.flows_by(longer),
        forall|s: int| network.is_source(s) ==> #[trigger] longer(s) == rank(s),
{
    let count = network.sources.len();
    let top = highest(rank, count);
    let longer = |s: int|
        if 0 <= s < count {
            rank(s)
        } else {
            top + 1 + s
        };
    lemma_highest(rank, count);
    assert forall|s: int, i: int| next.is_callback(s, i) implies #[trigger] next.rises(
        longer,
        s,
        i,
    ) by {
        let entry = next.sources[s].callbacks[i];
        assert(next.sound_source(s));
        assert(next.sound_entry(s, entry));
        if !next.disappeared(entry) {
            if let Some(t) = fires_into(entry) {
                assert(next.sound_source(t));
                assert(rank(s) <= top || s >= count);
                if !network.is_added(s, i) {
                    assert(network.sources[s].callbacks.is_prefix_of(next.sources[s].callbacks));
                    assert(network.sources[s].callbacks[i] == entry);
                    assert(network.sound_source(s));
                    assert(network.sound_entry(s, network.sources[s].callbacks[i]));
                    assert(network.is_callback(s, i));
                    assert(network.rises(rank, s, i));
                    lemma_same_disappeared(network, next, s, entry);
                } else if t < count {
                    lemma_fed_before(network, rank, next, s, entry, t);
                }
            }
        }
    }
    longer
}

/// If every signal has a value, so it is after something is made, if what is made has
/// one.
pub proof fn building_keeps_signals_settled<T>(network: NetworkView<T>, next: NetworkView<T>)
    requires
        network.settled(),
        network.grows_to(next),
        forall|k: int|
            network.cells.len() <= k < next.cells.len() ==> #[trigger] next.defined(k),
    ensures
        next.settled(),
{
    assert forall|k: int| next.is_cell(k) && !next.cells[k].ended implies #[trigger] next.defined(
        k,
    ) by {
        if network.is_cell(k) {
            assert(network.defined(k));
            lemma_defined_grows(network, next, k);
        }
    }
}

/// Handing something out changes nothing about where events run and whether signals
/// have values.
pub proof fn handing_out_keeps_a_rank<T>(
    network: NetworkView<T>,
    rank: spec_fn(int) -> int,
    reached: Set<int>,
    next: NetworkView<T>,
)
    requires
        network.sound(),
        network.hands_out(next),
    ensures
        network.flows_by(rank) ==> next.flows_by(rank),
        network.closed_in(reached) ==> next.closed_in(reached),
        network.settled() ==> next.settled(),
{
    assert forall|s: int, i: int| next.is_callback(s, i) implies ({
        let entry = #[trigger] next.sources[s].callbacks[i];
        &&& network.is_callback(s, i)
        &&& network.sources[s].callbacks[i] == entry
        &&& network.disappeared(entry) ==> next.disappeared(entry)
    }) by {
        assert(next.sources[s].callbacks == network.sources[s].callbacks);
        let entry = network.sources[s].callbacks[i];
        assert(network.sound_source(s));
        assert(network.sound_entry(s, entry));
        if network.disappeared(entry) {
            lemma_quietly_disappeared(network, next, s, entry);
        }
    }
    assert forall|s: int, i: int| next.is_callback(s, i) && network.flows_by(rank) implies
        #[trigger] next.rises(rank, s, i) by {
        let entry = next.sources[s].callbacks[i];
        assert(network.rises(rank, s, i));
    }
    assert forall|s: int, i: int|
        next.is_callback(s, i) && reached.contains(s) && network.closed_in(reached) implies
        #[trigger] next.stays_among(reached, s, i) by {
        let entry = next.sources[s].callbacks[i];
        assert(network.stays_among(reached, s, i));
    }
    assert forall|k: int|
        next.is_cell(k) && !next.cells[k].ended && network.settled() implies
        #[trigger] next.defined(k) by {
        assert(network.defined(k));
        lemma_same_defined(network, next, k);
    }
}

/// What has disappeared does not come back when handles and listeners come and go.
proof fn lemma_quietly_disappeared<T>(
    a: NetworkView<T>,
    b: NetworkView<T>,
    s: int,
    entry: Entry<T>,
)
    requires
        a.sound_entry(s, entry),
        a.hands_out(b) || a.lets_go(b),
        a.disappeared(entry),
    ensures
        b.disappeared(entry),
{
    match entry.reaction {
        Reaction::Mapped { target, .. } => {
            assert(b.sources[target].ended == a.sources[target].ended);
        },
        Reaction::FilterSome { target } => {
            assert(b.sources[target].ended == a.sources[target].ended);
        },
        Reaction::Merge { target, .. } => {
            assert(b.sources[target].ended == a.sources[target].ended);
        },
        Reaction::Switch { target } => {
            assert(b.sources[target].ended == a.sources[target].ended);
        },
        Reaction::Switched { target, .. } => {
            assert(b.sources[target].ended == a.sources[target].ended);
        },
        Reaction::Snapshot { target, .. } => {
            assert(b.sources[target].ended == a.sources[target].ended);
        },
        Reaction::Hold { cell } => {
            assert(b.cells[cell].ended == a.cells[cell].ended);
        },
        Reaction::ScanMut { cell, .. } => {
            assert(b.cells[cell].ended == a.cells[cell].ended);
        },
        Reaction::Events { queue } => {
            assert(b.queues[queue].open ==> a.queues[queue].open);
        },
    }
}

/// When a stream, a sink or a signal is released or a listener is closed, events run
/// on as before where they still run, and signals that go on keep having values.
pub proof fn releasing_keeps_a_rank<T>(
    network: NetworkView<T>,
    rank: spec_fn(int) -> int,
    reached: Set<int>,
    n: int,
)
    requires
        network.valid(),
        network.flows_by(rank),
        network.closed_in(reached),
        network.settled(),
    ensures
        network.is_source(n) ==> network.release(n).goes_on_by(rank, reached),
        network.is_source(n) ==> network.unpin(n).goes_on_by(rank, reached),
        network.is_cell(n) ==> network.release_cell(n).goes_on_by(rank, reached),
        network.is_queue(n) ==> network.close(n).goes_on_by(rank, reached),
{
    let a = network;
    if a.is_source(n) {
        lemma_letting_go_flows(a, rank, reached, a.let_go(n));
        let free = SourceView { pinned: false, ..a.sources[n] };
        lemma_letting_go_flows(a, rank, reached, a.with_source(n, free));
    }
    if a.is_cell(n) {
        let cell = CellView { released: true, ..a.cells[n] };
        let free = NetworkView { cells: a.cells.update(n, cell), ..a };
        lemma_letting_go_flows(a, rank, reached, free);
    }
    if a.is_queue(n) {
        lemma_letting_go_flows(a, rank, reached, a.shut(n));
    }
}

impl<T> NetworkView<T> {
    /// Events run from lower to higher ranks, what `reached` fire bears on none but
    /// those, and every signal has a value.
    pub open spec fn goes_on_by(self, rank: spec_fn(int) -> int, reached: Set<int>) -> bool {
        self.flows_by(rank) && self.closed_in(reached) && self.settled()
    }
}

proof fn lemma_letting_go_flows<T>(
    a: NetworkView<T>,
    rank: spec_fn(int) -> int,
    reached: Set<int>,
    b: NetworkView<T>,
)
    requires
        a.valid(),
        a.flows_by(rank),
        a.closed_in(reached),
        a.settled(),
        a.lets_go(b),
    ensures
        b.sweep().goes_on_by(rank, reached),
{
    lemma_lets_go_valid(a, b);
    assert forall|s: int, i: int| b.is_callback(s, i) implies {
        &&& #[trigger] b.rises(rank, s, i)
        &&& reached.contains(s) ==> b.stays_among(reached, s, i)
    } by {
        assert(b.sources[s].callbacks == a.sources[s].callbacks);
        let entry = a.sources[s].callbacks[i];
        assert(a.is_callback(s, i));
        assert(a.sound_source(s));
        assert(a.sound_entry(s, entry));
        if a.disappeared(entry) {
            lemma_quietly_disappeared(a, b, s, entry);
        }
        assert(a.rises(rank, s, i));
        assert(reached.contains(s) ==> a.stays_among(reached, s, i));
    }
    assert(b.closed_in(reached)) by {
        assert forall|s: int, i: int| b.is_callback(s, i) && reached.contains(s) implies
            #[trigger] b.stays_among(reached, s, i) by {
            assert(b.rises(rank, s, i));
        }
    }
    assert forall|k: int| b.is_cell(k) && !b.cells[k].ended implies #[trigger] b.defined(k) by {
        assert(b.cells[k].ended == a.cells[k].ended);
        assert(a.defined(k));
        lemma_same_contents(a, b, k);
    }
    lemma_sweep_sheds(b);
    lemma_sweep_sound(b);
    lemma_sheds(b, b.sweep(), rank, reached);
    lemma_stays_settled(b, b.sweep());
}

proof fn lemma_same_contents<T>(a: NetworkView<T>, b: NetworkView<T>, k: int)
    requires
        a.lets_go(b),
        a.defined(k),
    ensures
        b.defined(k),
    decreases k,
{
    assert(b.cells[k].content == a.cells[k].content);
    if let ContentView::Combined { state, other, .. } = a.cells[k].content {
        lemma_same_contents(a, b, state);
        lemma_same_contents(a, b, other);
    }
}

/// Building makes nothing disappear.
proof fn lemma_same_disappeared<T>(
    a: NetworkView<T>,
    b: NetworkView<T>,
    s: int,
    entry: Entry<T>,
)
    requires
        a.grows_to(b),
        a.sound_entry(s, entry),
    ensures
        b.disappeared(entry) == a.disappeared(entry),
{
    match entry.reaction {
        Reaction::Mapped { target, .. } => {
            assert(b.sources[target].ended == a.sources[target].ended);
        },
        Reaction::FilterSome { target } => {
            assert(b.sources[target].ended == a.sources[target].ended);
        },
        Reaction::Merge { target, .. } => {
            assert(b.sources[target].ended == a.sources[target].ended);
        },
        Reaction::Switch { target } => {
            assert(b.sources[target].ended == a.sources[target].ended);
        },
        Reaction::Switched { target, .. } => {
            assert(b.sources[target].ended == a.sources[target].ended);
        },
        Reaction::Snapshot { target, .. } => {
            assert(b.sources[target].ended == a.sources[target].ended);
        },
        Reaction::Hold { cell } => {
            assert(b.cells[cell] == a.cells[cell]);
        },
        Reaction::ScanMut { cell, .. } => {
            assert(b.cells[cell] == a.cells[cell]);
        },
        Reaction::Events { queue } => {
            assert(b.queues[queue] == a.queues[queue]);
        },
    }
}

/// What feeds a source that was there before was below it before.
proof fn lemma_fed_before<T>(
    a: NetworkView<T>,
    rank: spec_fn(int) -> int,
    b: NetworkView<T>,
    s: int,
    entry: Entry<T>,
    t: int,
)
    requires
        runs(a),
        a.flows_by(rank),
        a.grows_to(b),
        a.is_source(t),
        b.sound_entry(s, entry),
        !b.disappeared(entry),
        !(entry.reaction is Switched),
        fires_into(entry) == Some(t),
    ensures
        rank(s) < rank(t),
{
    assert(b.sources[t].origin == a.sources[t].origin);
    assert(b.sources[t].ended == a.sources[t].ended);
    assert(a.fed_source(t));
    assert forall|p: int, reaction: Reaction<T>, since: nat|
        #![trigger a.has(p, reaction, since)]
        a.has(p, reaction, since) && !a.disappeared(Entry { reaction, since }) && fires_into(
            Entry { reaction, since },
        ) == Some(t) implies rank(p) < rank(t) by {
        let e = Entry { reaction, since };
        let i = choose|i: int|
            0 <= i < a.sources[p].callbacks.len() && a.sources[p].callbacks[i] == e;
        assert(a.is_callback(p, i));
        assert(a.rises(rank, p, i));
    }
    match a.sources[t].origin {
        Origin::Mapped { parent, since, f } => {
            assert(a.has(parent, Reaction::Mapped { f, target: t }, since));
        },
        Origin::FilterSome { parent, since } => {
            assert(a.has(parent, Reaction::FilterSome { target: t }, since));
        },
        Origin::Merge { left, left_since, right, right_since } => {
            assert(a.has(left, Reaction::Merge { left: true, target: t }, left_since));
            assert(a.has(right, Reaction::Merge { left: false, target: t }, right_since));
        },
        Origin::Snapshot { parent, since, signal, f } => {
            assert(a.has(parent, Reaction::Snapshot { signal, f, target: t }, since));
        },
        _ => {},
    }
}

} // verus!
