//! The laws of life and end: what lives, what ends when it is released, and that
//! what has ended does nothing any more.
use crate::building::{lemma_lets_go_valid, lemma_retain_valid};
use crate::life::{
    alive_cell_is_held_or_rested_on, alive_is_held_or_rested_on, lemma_ended, lemma_held_is_alive,
    lemma_live, lemma_sweep_sound, lemma_swept_live, lemma_upholds,
};
use crate::model::{both, ContentView, Entry, NetworkView, Origin, Reaction};
use crate::signal::Signal;
use crate::sound::{
    lemma_becomes_transitive, lemma_can_be_fits, lemma_deliver_sound, lemma_fire_sound,
    lemma_hear_sound, lemma_record_sound, lemma_same_sound, lemma_take_sound,
};
use crate::stream::{Sink, Stream};
use crate::stream_laws::{lemma_sends, runs};
use crate::value::{Carried, Event, Item, Value};
use vstd::prelude::*;

verus! {

// ---- What lives ----

/// A stream of which somebody has a handle has not ended.
pub proof fn a_held_stream_lives<T: Item, A: Event<T>>(network: NetworkView<T>, stream: Stream<A>)
    requires
        network.valid(),
        stream.within(network),
    ensures
        stream.lives(network),
{
    assert(network.sound_source(stream.id()));
}

/// A signal of which somebody has a handle has not ended.
pub proof fn a_held_signal_lives<T: Item, A: Event<T>>(network: NetworkView<T>, signal: Signal<A>)
    requires
        network.valid(),
        signal.within(network),
    ensures
        signal.lives(network),
{
    assert(network.sound_cell(signal.id()));
}

/// The streams that are in an event: a stream itself, and those in the parts of pairs,
/// options and results.
pub proof fn streams_in_events<T: Item, A: Event<T>, B: Event<T>>(
    stream: Stream<A>,
    a: A,
    b: B,
    number: u64,
    s: int,
)
    ensures
        <Stream<A> as Carried<T>>::encode(stream).names(number, s) <==> number == stream.home()
            && s == stream.id(),
        <(A, B) as Carried<T>>::encode((a, b)).names(number, s) <==> a.encode().names(number, s)
            || b.encode().names(number, s),
        <Option<A> as Carried<T>>::encode(Some(a)).names(number, s) <==> a.encode().names(
            number,
            s,
        ),
        !<Option<A> as Carried<T>>::encode(None).names(number, s),
        <Result<A, B> as Carried<T>>::encode(Ok(a)).names(number, s) <==> a.encode().names(
            number,
            s,
        ),
        <Result<A, B> as Carried<T>>::encode(Err(b)).names(number, s) <==> b.encode().names(
            number,
            s,
        ),
{
    stream.lemma_id_range();
}

impl<T> NetworkView<T> {
    /// A stream that had not ended, and that a signal holds in `next` or that waits there
    /// for a listener, has not ended in `next` either.
    pub open spec fn keeps_what_is_held(self, next: NetworkView<T>) -> bool {
        &&& forall|s: int, k: int|
            #![trigger next.sources[s], next.cells[k]]
            self.is_source(s) && !self.sources[s].ended && self.is_cell(k)
                && !next.cells[k].ended && (next.cells[k].content matches ContentView::Held(v)
                && v.names(self.number, s)) ==> !next.sources[s].ended
        &&& forall|s: int, q: int, i: int|
            #![trigger next.sources[s], next.queues[q].waiting[i]]
            self.is_source(s) && !self.sources[s].ended && self.is_queue(q)
                && next.queues[q].open && 0 <= i < next.queues[q].waiting.len()
                && next.queues[q].waiting[i].names(self.number, s) ==> !next.sources[s].ended
    }

    /// What a callback would act on has ended, or is not listened to any more.
    pub open spec fn is_over(self, entry: Entry<T>) -> bool {
        match entry.reaction {
            Reaction::Mapped { target, .. } => self.sources[target].ended,
            Reaction::FilterSome { target } => self.sources[target].ended,
            Reaction::Merge { target, .. } => self.sources[target].ended,
            Reaction::Switch { target } => self.sources[target].ended,
            Reaction::Switched { target, token, .. } => !self.tokens[token]
                || self.sources[target].ended,
            Reaction::Snapshot { target, .. } => self.sources[target].ended,
            Reaction::Events { queue } => !self.queues[queue].open,
            Reaction::Hold { cell } => self.cells[cell].ended,
            Reaction::ScanMut { cell, .. } => self.cells[cell].ended,
        }
    }
}

/// When what is not alive ends, a stream that a signal holds goes on, and so does one
/// that waits for a listener.
proof fn lemma_sweep_keeps<T>(b: NetworkView<T>)
    ensures
        b.keeps_what_is_held(b.sweep()),
{
    let c = b.sweep();
    assert forall|s: int, k: int|
        #![trigger c.sources[s], c.cells[k]]
        b.is_source(s) && !b.sources[s].ended && b.is_cell(k) && !c.cells[k].ended && (
        c.cells[k].content matches ContentView::Held(v) && v.names(b.number, s)) implies
        !c.sources[s].ended by {
        assert(c.cells[k] == b.swept_cell(k));
        assert(c.sources[s] == b.swept_source(s));
        assert(b.holds_stream(k, s));
        assert(b.alive_cell(k));
        alive_is_held_or_rested_on(b, s);
    }
    assert forall|s: int, q: int, i: int|
        #![trigger c.sources[s], c.queues[q].waiting[i]]
        b.is_source(s) && !b.sources[s].ended && b.is_queue(q) && c.queues[q].open && 0 <= i
            < c.queues[q].waiting.len() && c.queues[q].waiting[i].names(b.number, s) implies
        !c.sources[s].ended by {
        assert(c.sources[s] == b.swept_source(s));
        assert(b.waits(q, i, s));
        alive_is_held_or_rested_on(b, s);
    }
}

/// When handles are given up, a stream goes on that a signal holds which goes on, or
/// that waits for a listener, whether or not anybody has a handle of it.
pub proof fn what_is_held_survives_releases<T>(network: NetworkView<T>, free: NetworkView<T>)
    requires
        network.lets_go(free),
    ensures
        network.keeps_what_is_held(free.sweep()),
{
    let next = free.sweep();
    lemma_sweep_keeps(free);
    assert forall|s: int| network.is_source(s) implies (#[trigger] next.sources[s]).ended
        == !free.alive(s) by {
        assert(next.sources[s] == free.swept_source(s));
    }
    assert forall|s: int| network.is_source(s) implies (#[trigger] free.sources[s]).ended
        == network.sources[s].ended by {}
    assert forall|s: int, k: int|
        #![trigger next.sources[s], next.cells[k]]
        network.is_source(s) && !network.sources[s].ended && network.is_cell(k)
            && !next.cells[k].ended && (next.cells[k].content matches ContentView::Held(v)
            && v.names(network.number, s)) implies !next.sources[s].ended by {
        assert(!free.sources[s].ended);
    }
    assert forall|s: int, q: int, i: int|
        #![trigger next.sources[s], next.queues[q].waiting[i]]
        network.is_source(s) && !network.sources[s].ended && network.is_queue(q)
            && next.queues[q].open && 0 <= i < next.queues[q].waiting.len()
            && next.queues[q].waiting[i].names(network.number, s) implies
        !next.sources[s].ended by {
        assert(!free.sources[s].ended);
    }
}

/// When something is sent, a stream goes on that a signal holds afterwards which goes
/// on, or that waits for a listener, whether or not anybody has a handle of it.
pub proof fn what_is_held_survives_sending<T: Item, A: Event<T>>(
    network: NetworkView<T>,
    sink: Sink<A>,
    a: A,
    next: NetworkView<T>,
)
    requires
        network.valid(),
        sink.within(network),
        network.sends(sink.id(), a.encode(), next),
    ensures
        network.keeps_what_is_held(next),
{
    let id = sink.id();
    let v = a.encode();
    a.encoded();
    lemma_sends(network, id, v, next);
    let fired = network.fire(next.returned, network.ids(), id, v, v);
    lemma_fire_sound(network, next.returned, network.ids(), id, v, v);
    lemma_sweep_keeps(fired);
    assert forall|s: int, k: int|
        #![trigger next.sources[s], next.cells[k]]
        network.is_source(s) && !network.sources[s].ended && network.is_cell(k)
            && !next.cells[k].ended && (next.cells[k].content matches ContentView::Held(w)
            && w.names(network.number, s)) implies !next.sources[s].ended by {
        assert(!fired.sources[s].ended);
    }
    assert forall|s: int, q: int, i: int|
        #![trigger next.sources[s], next.queues[q].waiting[i]]
        network.is_source(s) && !network.sources[s].ended && network.is_queue(q)
            && next.queues[q].open && 0 <= i < next.queues[q].waiting.len()
            && next.queues[q].waiting[i].names(network.number, s) implies
        !next.sources[s].ended by {
        assert(!fired.sources[s].ended);
    }
}

/// A stream has ended if nobody has a handle of it, nothing that goes on rests on it, no
/// signal that goes on holds it and it waits for no listener.
pub proof fn a_stream_that_nobody_needs_has_ended<T>(network: NetworkView<T>, s: int)
    requires
        network.valid(),
        network.is_source(s),
        !network.sources[s].pinned,
        network.sources[s].released,
        forall|i: int|
            0 <= i < network.sources[s].callbacks.len() ==> network.is_over(
                #[trigger] network.sources[s].callbacks[i],
            ),
        forall|k: int|
            network.is_cell(k) && !(#[trigger] network.cells[k]).ended ==> !(
            network.cells[k].content matches ContentView::Held(v) && v.names(network.number, s)),
        forall|q: int, i: int|
            network.is_queue(q) && network.queues[q].open && 0 <= i
                < network.queues[q].waiting.len() ==> !(
            #[trigger] network.queues[q].waiting[i]).names(network.number, s),
    ensures
        network.sources[s].ended,
{
    if network.alive(s) {
        alive_is_held_or_rested_on(network, s);
        if exists|k: int| #[trigger] network.holds_stream(k, s) && network.alive_cell(k) {
            let k = choose|k: int| #[trigger] network.holds_stream(k, s) && network.alive_cell(k);
            assert(!network.cells[k].ended);
        } else if exists|q: int, i: int| #[trigger] network.waits(q, i, s) {
            let (q, i) = choose|q: int, i: int| #[trigger] network.waits(q, i, s);
            assert(network.queues[q].waiting[i].names(network.number, s));
        } else {
            let i = choose|i: int|
                0 <= i < network.sources[s].callbacks.len() && network.live(
                    #[trigger] network.sources[s].callbacks[i],
                );
            let entry = network.sources[s].callbacks[i];
            assert(network.sound_source(s));
            assert(network.sound_entry(s, entry));
            lemma_ended(network);
            lemma_live(network, entry);
            assert(!network.disappeared(entry));
            assert(network.is_over(entry));
        }
    }
}

/// A signal has ended if nobody has a handle of it, no signal that goes on rests on it
/// and no stream that goes on takes snapshots of it.
pub proof fn a_signal_that_nobody_needs_has_ended<T>(network: NetworkView<T>, k: int)
    requires
        network.valid(),
        network.is_cell(k),
        network.cells[k].released,
        forall|j: int|
            network.is_cell(j) && !(#[trigger] network.cells[j]).ended
                ==> match network.cells[j].content {
                ContentView::Alias(i) => i != k,
                ContentView::Combined { state, other, .. } => state != k && other != k,
                _ => true,
            },
        forall|s: int, i: int|
            #![trigger network.sources[s].callbacks[i]]
            network.is_source(s) && 0 <= i < network.sources[s].callbacks.len() ==> (
            network.sources[s].callbacks[i].reaction matches Reaction::Snapshot {
                signal,
                target,
                ..
            } ==> signal != k || network.sources[target].ended),
    ensures
        network.cells[k].ended,
{
    if network.alive_cell(k) {
        alive_cell_is_held_or_rested_on(network, k);
        if exists|j: int| #[trigger] network.rests_on(j, k) && network.alive_cell(j) {
            let j = choose|j: int| #[trigger] network.rests_on(j, k) && network.alive_cell(j);
            assert(!network.cells[j].ended);
        } else {
            let (s, i) = choose|s: int, i: int|
                #[trigger] network.samples(s, i, k) && network.live(
                    network.sources[s].callbacks[i],
                );
            let entry = network.sources[s].callbacks[i];
            assert(network.sound_source(s));
            assert(network.sound_entry(s, entry));
            lemma_ended(network);
            assert(!network.disappeared(entry));
        }
    }
}

/// The parents of a source.
pub open spec fn comes_from<T>(origin: Origin<T>, s: int) -> bool {
    match origin {
        Origin::Mapped { parent, .. } => s == parent,
        Origin::FilterSome { parent, .. } => s == parent,
        Origin::Merge { left, right, .. } => s == left || s == right,
        Origin::Switch { parent, .. } => s == parent,
        Origin::Snapshot { parent, .. } => s == parent,
        _ => false,
    }
}

/// What a stream was made of lives as long as the stream does, whether or not
/// anybody has a handle of it.
pub proof fn what_a_stream_comes_from_lives<T>(network: NetworkView<T>, m: int, s: int)
    requires
        runs(network),
        network.is_source(m),
        !network.sources[m].ended,
        comes_from(network.sources[m].origin, s),
    ensures
        network.is_source(s),
        !network.sources[s].ended,
{
    assert(network.fed_source(m));
    match network.sources[m].origin {
        Origin::Mapped { parent, since, f } => {
            lemma_registered_lives(network, parent, Reaction::Mapped { f, target: m }, since);
        },
        Origin::FilterSome { parent, since } => {
            lemma_registered_lives(network, parent, Reaction::FilterSome { target: m }, since);
        },
        Origin::Merge { left, left_since, right, right_since } => {
            let on_left = Reaction::Merge { left: true, target: m };
            let on_right = Reaction::Merge { left: false, target: m };
            lemma_registered_lives(network, left, on_left, left_since);
            lemma_registered_lives(network, right, on_right, right_since);
        },
        Origin::Switch { parent, since } => {
            lemma_registered_lives(network, parent, Reaction::Switch { target: m }, since);
        },
        Origin::Snapshot { parent, since, signal, f } => {
            let reaction = Reaction::Snapshot { signal, f, target: m };
            lemma_registered_lives(network, parent, reaction, since);
        },
        _ => {},
    }
}

/// A switch keeps the stream alive that it follows.
pub proof fn what_a_switch_follows_lives<T>(network: NetworkView<T>, m: int)
    requires
        runs(network),
        network.is_source(m),
        !network.sources[m].ended,
        network.sources[m].origin is Switch,
    ensures
        network.sources[m].current() matches Some(s) ==> network.is_source(s)
            && !network.sources[s].ended,
{
    assert(network.fed_source(m));
    if network.sources[m].turns.len() > 0 {
        let turn = network.sources[m].turns.last();
        assert(network.follows(m));
        let token = network.sources[m].terminate->0;
        let reaction = Reaction::Switched { target: m, token, from: turn.from };
        lemma_registered_lives(network, turn.stream, reaction, turn.since);
    }
}

/// A source with a callback that has not disappeared has not ended.
proof fn lemma_registered_lives<T>(a: NetworkView<T>, s: int, reaction: Reaction<T>, since: nat)
    requires
        a.sound(),
        a.has(s, reaction, since),
        !a.disappeared(Entry { reaction, since }),
    ensures
        a.is_source(s),
        !a.sources[s].ended,
{
    let entry = Entry { reaction, since };
    let i = choose|i: int|
        0 <= i < a.sources[s].callbacks.len() && a.sources[s].callbacks[i] == entry;
    assert(a.sound_source(s));
    assert(a.sound_entry(s, a.sources[s].callbacks[i]));
}

/// The streams that a signal holds live as long as the signal does, whether or not
/// anybody has a handle of them.
pub proof fn what_a_signal_holds_lives<T>(network: NetworkView<T>, k: int, s: int)
    requires
        network.valid(),
        network.is_cell(k),
        !network.cells[k].ended,
        network.is_source(s),
        network.holds_stream(k, s),
    ensures
        network.alive(s),
{
    assert(network.alive_cell(k));
    alive_is_held_or_rested_on(network, s);
}

/// A stream lives as long as it waits for a listener to take it.
pub proof fn what_waits_lives<T>(network: NetworkView<T>, q: int, i: int, s: int)
    requires
        network.valid(),
        network.is_source(s),
        network.waits(q, i, s),
    ensures
        network.alive(s),
{
    alive_is_held_or_rested_on(network, s);
}

/// Whoever gets a value out of a network has a handle of every stream in it that
/// has not ended, and everything else is as before.
pub proof fn what_is_handed_out_is_held<T>(network: NetworkView<T>, v: Value<T>, s: int)
    requires
        network.valid(),
        network.is_source(s),
    ensures
        network.mentions(v, s) ==> network.retain(v).sources[s].is_held(),
        network.retain(v).alive(s) == network.alive(s),
{
    let next = network.retain(v);
    lemma_retain_valid(network, v);
    assert(next.sources[s] == network.retained_source(v, s));
    assert(network.sources[s].ended == !network.alive(s));
    assert(next.sources[s].ended == !next.alive(s));
}

// ---- What ends ----

impl<T> NetworkView<T> {
    /// Something that is alive rests on the source `s` or holds its stream, or the
    /// stream waits for somebody.
    pub open spec fn is_needed(self, s: int) -> bool {
        ||| exists|i: int|
            0 <= i < self.sources[s].callbacks.len() && self.live(
                #[trigger] self.sources[s].callbacks[i],
            )
        ||| exists|k: int| #[trigger] self.holds_stream(k, s) && self.alive_cell(k)
        ||| exists|q: int, i: int| #[trigger] self.waits(q, i, s)
    }
}

/// Without a handle less is alive, not more.
proof fn lemma_let_go_upholds<T>(a: NetworkView<T>, id: int)
    requires
        a.valid(),
        a.is_source(id),
    ensures
        a.let_go(id).sound(),
        forall|s: int| a.is_source(s) && #[trigger] a.let_go(id).alive(s) ==> a.alive(s),
        forall|k: int| a.is_cell(k) && #[trigger] a.let_go(id).alive_cell(k) ==> a.alive_cell(k),
{
    let b = a.let_go(id);
    lemma_lets_go_valid(a, b);
    lemma_held_is_alive(a);
    assert(b.upholds(a)) by {
        assert forall|s: int| b.is_source(s) && (#[trigger] b.sources[s]).is_held() implies a.alive(
            s,
        ) by {
            assert(a.sources[s].is_held());
        }
        assert forall|k: int| b.is_cell(k) && !(#[trigger] b.cells[k]).released implies
            a.alive_cell(k) by {
            assert(!a.cells[k].released);
        }
        assert forall|s: int, i: int|
            b.is_source(s) && 0 <= i < b.sources[s].callbacks.len() implies
            #[trigger] b.keeps_live(a, s, i) by {
            assert(a.sources[s].callbacks[i] == b.sources[s].callbacks[i]);
        }
        assert forall|j: int, k: int| b.is_cell(k) && #[trigger] b.rests_on(j, k) implies
            a.rests_on(j, k) by {}
        assert forall|k: int, s: int| b.is_source(s) && #[trigger] b.holds_stream(k, s) implies
            a.holds_stream(k, s) by {}
        assert forall|q: int, i: int, s: int|
            b.is_source(s) && #[trigger] b.waits(q, i, s) implies a.alive(s) by {
            assert(a.waits(q, i, s));
            alive_is_held_or_rested_on(a, s);
        }
    }
    lemma_upholds(b, a);
}

/// A stream that nothing alive rests on or holds ends when its last handle is
/// released.
pub proof fn a_released_stream_ends<T: Item, A: Event<T>>(
    network: NetworkView<T>,
    stream: Stream<A>,
)
    requires
        network.valid(),
        stream.within(network),
        !network.sources[stream.id()].pinned,
        !network.is_needed(stream.id()),
    ensures
        network.release(stream.id()).sources[stream.id()].ended,
{
    let id = stream.id();
    let b = network.let_go(id);
    lemma_let_go_upholds(network, id);
    assert(b.sweep().sources[id] == b.swept_source(id));
    if b.alive(id) {
        alive_is_held_or_rested_on(b, id);
        if exists|k: int| #[trigger] b.holds_stream(k, id) && b.alive_cell(k) {
            let k = choose|k: int| #[trigger] b.holds_stream(k, id) && b.alive_cell(k);
            assert(network.holds_stream(k, id));
        } else if exists|q: int, i: int| #[trigger] b.waits(q, i, id) {
            let (q, i) = choose|q: int, i: int| #[trigger] b.waits(q, i, id);
            assert(network.waits(q, i, id));
        } else {
            let i = choose|i: int|
                0 <= i < b.sources[id].callbacks.len() && b.live(
                    #[trigger] b.sources[id].callbacks[i],
                );
            lemma_still_live(network, id, id, i);
        }
    }
}

/// A callback that is live without the handle was so with it.
proof fn lemma_still_live<T>(a: NetworkView<T>, id: int, s: int, i: int)
    requires
        a.valid(),
        a.is_source(id),
        a.is_source(s),
        0 <= i < a.sources[s].callbacks.len(),
        a.let_go(id).live(a.let_go(id).sources[s].callbacks[i]),
    ensures
        a.live(a.sources[s].callbacks[i]),
{
    let b = a.let_go(id);
    let entry = a.sources[s].callbacks[i];
    assert(b.sources[s].callbacks[i] == entry);
    assert(a.sound_source(s));
    assert(a.sound_entry(s, entry));
    lemma_let_go_upholds(a, id);
    lemma_live(a, entry);
    lemma_live(b, entry);
}

// ---- What has ended ----

impl<T> NetworkView<T> {
    /// What has ended is in `next` as it was.
    pub open spec fn leaves_ended(self, next: NetworkView<T>) -> bool {
        &&& forall|s: int|
            self.is_source(s) && self.sources[s].ended ==> {
                let source = #[trigger] next.sources[s];
                &&& source.history == self.sources[s].history
                &&& source.ended
            }
        &&& forall|k: int|
            self.is_cell(k) && self.cells[k].ended ==> {
                let cell = #[trigger] next.cells[k];
                &&& cell.content == self.cells[k].content
                &&& cell.updates == self.cells[k].updates
                &&& cell.ended
            }
    }
}

proof fn lemma_leaves_transitive<T>(a: NetworkView<T>, b: NetworkView<T>, c: NetworkView<T>)
    requires
        a.becomes(b),
        a.leaves_ended(b),
        b.leaves_ended(c),
    ensures
        a.leaves_ended(c),
{
    assert forall|s: int| a.is_source(s) && a.sources[s].ended implies {
        let source = #[trigger] c.sources[s];
        &&& source.history == a.sources[s].history
        &&& source.ended
    } by {
        assert(b.sources[s].history == a.sources[s].history);
    }
    assert forall|k: int| a.is_cell(k) && a.cells[k].ended implies {
        let cell = #[trigger] c.cells[k];
        &&& cell.content == a.cells[k].content
        &&& cell.updates == a.cells[k].updates
        &&& cell.ended
    } by {
        assert(b.cells[k].content == a.cells[k].content);
    }
}

proof fn lemma_fire_leaves<T>(
    a: NetworkView<T>,
    all: Seq<Value<T>>,
    idle: Set<int>,
    id: int,
    v: Value<T>,
    cause: Value<T>,
)
    requires
        a.sound(),
        a.is_source(id),
        !a.sources[id].ended,
        v.fits(a.sources[id].shape),
    ensures
        a.leaves_ended(a.fire(all, idle, id, v, cause)),
    decreases idle.len(), 0int, 0int,
{
    if idle.finite() && idle.contains(id) {
        let b = a.record(id, v, cause);
        let rest = idle.remove(id);
        let count = b.sources[id].callbacks.len();
        let c = b.deliver(all, rest, id, v, count);
        lemma_record_sound(a, id, v, cause);
        assert(a.leaves_ended(b));
        lemma_deliver_sound(b, all, rest, id, v, count);
        lemma_deliver_leaves(b, all, rest, id, v, count);
        lemma_becomes_transitive(a, b, c);
        lemma_leaves_transitive(a, b, c);
        assert(c.leaves_ended(c.prune(id)));
        lemma_leaves_transitive(a, c, c.prune(id));
    }
}

proof fn lemma_deliver_leaves<T>(
    a: NetworkView<T>,
    all: Seq<Value<T>>,
    idle: Set<int>,
    id: int,
    v: Value<T>,
    count: nat,
)
    requires
        a.sound(),
        a.is_source(id),
        v.fits(a.sources[id].shape),
        !idle.contains(id),
        count <= a.sources[id].callbacks.len(),
    ensures
        a.leaves_ended(a.deliver(all, idle, id, v, count)),
    decreases idle.len(), 2int, count,
{
    if count > 0 {
        let less = (count - 1) as nat;
        let b = a.deliver(all, idle, id, v, less);
        lemma_deliver_sound(a, all, idle, id, v, less);
        lemma_deliver_leaves(a, all, idle, id, v, less);
        assert(b.sound_source(id));
        assert(a.sources[id].callbacks.is_prefix_of(b.sources[id].callbacks));
        assert(b.sources[id].shape == a.sources[id].shape);
        let entry = b.sources[id].callbacks[less as int];
        let c = b.answer_to(all, idle, entry, v);
        assert(a.deliver(all, idle, id, v, count) == c);
        if !b.disappeared(entry) {
            lemma_react_leaves(b, all, idle, id, entry, v);
            lemma_leaves_transitive(a, b, c);
        }
    }
}

proof fn lemma_react_leaves<T>(
    a: NetworkView<T>,
    all: Seq<Value<T>>,
    idle: Set<int>,
    id: int,
    entry: Entry<T>,
    v: Value<T>,
)
    requires
        a.sound(),
        a.is_source(id),
        a.sound_entry(id, entry),
        v.fits(a.sources[id].shape),
        !a.disappeared(entry),
    ensures
        a.leaves_ended(a.react(all, idle, entry.reaction, v)),
    decreases idle.len(), 1int, 0int,
{
    match entry.reaction {
        Reaction::Mapped { f, target } => {
            if let Some(w) = a.answer(all) {
                if (f.promise)(v, w) {
                    lemma_take_sound(a, w, idle);
                    lemma_fire_leaves(a.take(w), all, idle, target, w, v);
                }
            }
        },
        Reaction::FilterSome { target } => {
            if let Some(w) = v.contained() {
                lemma_fire_leaves(a, all, idle, target, w, v);
            }
        },
        Reaction::Merge { left, target } => {
            let c = a.hear(target, left, v);
            lemma_hear_sound(a, target, left, v);
            assert(c.sources[target].shape == a.sources[target].shape);
            assert(a.leaves_ended(c));
            lemma_fire_leaves(c, all, idle, target, v, v);
            lemma_leaves_transitive(a, c, c.fire(all, idle, target, v, v));
        },
        Reaction::Switch { target } => {
            let b = a.rewire(idle, target, v);
            assert forall|s: int| a.is_source(s) && a.sources[s].ended implies {
                let source = #[trigger] b.sources[s];
                &&& source.history == a.sources[s].history
                &&& source.ended
            } by {}
        },
        Reaction::Switched { target, token, from } => {
            lemma_fire_leaves(a, all, idle, target, v, v);
        },
        Reaction::Snapshot { signal, f, target } => {
            if let Some(x) = a.answer(all) {
                if let Some(w) = a.take(x).answer(all) {
                    if a.can_be(signal, x) && (f.promise)((x, v), w) {
                        lemma_can_be_fits(a, signal, x);
                        let c = a.take(x).take(w);
                        assert(a.returned =~= c.returned.subrange(0, a.returned.len() as int));
                        lemma_same_sound(a, c, idle);
                        lemma_fire_leaves(c, all, idle, target, w, both(x, v));
                    }
                }
            }
        },
        _ => {},
    }
}

/// Nothing is left of what has ended: a stream has no callbacks, a signal has
/// neither a value nor a function, and nothing waits for a closed listener.
pub proof fn what_has_ended_holds_nothing<T>(network: NetworkView<T>)
    requires
        runs(network),
    ensures
        forall|s: int|
            network.is_source(s) && (#[trigger] network.sources[s]).ended
                ==> network.sources[s].callbacks.len() == 0,
        forall|k: int|
            network.is_cell(k) && (#[trigger] network.cells[k]).ended
                ==> network.cells[k].content is Undefined,
        forall|q: int|
            network.is_queue(q) && !(#[trigger] network.queues[q]).open
                ==> network.queues[q].waiting.len() == 0,
{
    assert forall|k: int| network.is_cell(k) && (#[trigger] network.cells[k]).ended implies
        network.cells[k].content is Undefined by {
        assert(network.sound_cell(k));
    }
    assert forall|q: int| network.is_queue(q) && !(#[trigger] network.queues[q]).open implies
        network.queues[q].waiting.len() == 0 by {
        assert(network.fed_queue(q));
    }
}

/// What has ended stays as it is, whatever is sent: a stream fires nothing, and a
/// signal does not change.
pub proof fn what_has_ended_stays_as_it_is<T: Item, A: Event<T>>(
    network: NetworkView<T>,
    sink: Sink<A>,
    a: A,
    next: NetworkView<T>,
)
    requires
        network.valid(),
        sink.within(network),
        network.sends(sink.id(), a.encode(), next),
    ensures
        network.leaves_ended(next),
{
    let id = sink.id();
    let v = a.encode();
    a.encoded();
    lemma_sends(network, id, v, next);
    assert(network.sound_source(id));
    let fired = network.fire(next.returned, network.ids(), id, v, v);
    lemma_fire_sound(network, next.returned, network.ids(), id, v, v);
    lemma_fire_leaves(network, next.returned, network.ids(), id, v, v);
    lemma_ended(fired);
    assert forall|s: int| network.is_source(s) && network.sources[s].ended implies {
        let source = #[trigger] next.sources[s];
        &&& source.history == network.sources[s].history
        &&& source.ended
    } by {
        assert(next.sources[s] == fired.swept_source(s));
        assert(fired.sources[s].ended);
    }
    assert forall|k: int| network.is_cell(k) && network.cells[k].ended implies {
        let cell = #[trigger] next.cells[k];
        &&& cell.content == network.cells[k].content
        &&& cell.updates == network.cells[k].updates
        &&& cell.ended
    } by {
        assert(next.cells[k] == fired.swept_cell(k));
        assert(fired.cells[k].ended);
        assert(fired.sound_cell(k));
    }
}

/// What is sent applies no function, and makes nothing else fire, if nothing that
/// is alive rests on the sink.
pub proof fn nothing_live_is_applied<T: Item, A: Event<T>>(
    network: NetworkView<T>,
    sink: Sink<A>,
    a: A,
    next: NetworkView<T>,
)
    requires
        network.valid(),
        sink.within(network),
        forall|i: int|
            0 <= i < network.sources[sink.id()].callbacks.len() ==> !network.live(
                #[trigger] network.sources[sink.id()].callbacks[i],
            ),
        network.sends(sink.id(), a.encode(), next),
    ensures
        next.returned == network.returned,
        forall|s: int|
            network.is_source(s) && s != sink.id() ==> (#[trigger] next.sources[s]).history
                == network.sources[s].history,
        next.poisoned == network.poisoned,
{
    let id = sink.id();
    let v = a.encode();
    let idle = network.ids();
    a.encoded();
    lemma_sends(network, id, v, next);
    vstd::set_lib::lemma_int_range(0, network.sources.len() as int);
    let b = network.record(id, v, v);
    let count = b.sources[id].callbacks.len();
    assert(network.sound_source(id));
    assert forall|i: int| 0 <= i < count implies b.disappeared(
        #[trigger] b.sources[id].callbacks[i],
    ) by {
        let entry = network.sources[id].callbacks[i];
        assert(b.sources[id].callbacks[i] == entry);
        assert(network.sound_entry(id, entry));
        lemma_swept_live(network, id, entry);
    }
    lemma_deliver_nothing(b, next.returned, idle.remove(id), id, v, count);
    let fired = network.fire(next.returned, idle, id, v, v);
    assert(fired == b.prune(id));
    assert forall|s: int| network.is_source(s) && s != id implies (
    #[trigger] next.sources[s]).history == network.sources[s].history by {
        assert(next.sources[s] == fired.swept_source(s));
        assert(fired.sources[s] == network.sources[s]);
    }
}

/// Callbacks that have disappeared do nothing.
proof fn lemma_deliver_nothing<T>(
    a: NetworkView<T>,
    all: Seq<Value<T>>,
    idle: Set<int>,
    id: int,
    v: Value<T>,
    count: nat,
)
    requires
        count <= a.sources[id].callbacks.len(),
        forall|i: int|
            0 <= i < a.sources[id].callbacks.len() ==> a.disappeared(
                #[trigger] a.sources[id].callbacks[i],
            ),
    ensures
        a.deliver(all, idle, id, v, count) == a,
    decreases count,
{
    if count > 0 {
        lemma_deliver_nothing(a, all, idle, id, v, (count - 1) as nat);
        let entry = a.sources[id].callbacks[count - 1];
        assert(a.deliver(all, idle, id, v, count) == a.answer_to(all, idle, entry, v));
    }
}

/// A callback acts on the source `m`.
pub open spec fn acts_on<T>(entry: Entry<T>, m: int) -> bool {
    match entry.reaction {
        Reaction::Mapped { target, .. } => target == m,
        Reaction::FilterSome { target } => target == m,
        Reaction::Merge { target, .. } => target == m,
        Reaction::Switch { target } => target == m,
        Reaction::Switched { target, .. } => target == m,
        Reaction::Snapshot { target, .. } => target == m,
        _ => false,
    }
}

/// Once a stream has been released that nothing alive rests on or holds, what is
/// sent into the sink that it was made of applies no function, if nothing else
/// that is alive rests on the sink.
pub proof fn a_released_stream_is_not_fed<T: Item, A: Event<T>, B: Event<T>>(
    network: NetworkView<T>,
    sink: Sink<A>,
    stream: Stream<B>,
    a: A,
    next: NetworkView<T>,
)
    requires
        network.valid(),
        sink.within(network),
        stream.within(network),
        !network.sources[stream.id()].pinned,
        !network.is_needed(stream.id()),
        forall|i: int|
            0 <= i < network.sources[sink.id()].callbacks.len() && network.live(
                #[trigger] network.sources[sink.id()].callbacks[i],
            ) ==> acts_on(network.sources[sink.id()].callbacks[i], stream.id()),
        network.release(stream.id()).sends(sink.id(), a.encode(), next),
    ensures
        next.returned == network.returned,
{
    let id = sink.id();
    let m = stream.id();
    let b = network.let_go(m);
    let released = network.release(m);
    a_released_stream_ends(network, stream);
    lemma_let_go_upholds(network, m);
    lemma_lets_go_valid(network, b);
    assert(released.sources[id] == b.swept_source(id));
    assert(sink.within(released));
    assert forall|i: int| 0 <= i < released.sources[id].callbacks.len() implies !released.live(
        #[trigger] released.sources[id].callbacks[i],
    ) by {
        let entry = network.sources[id].callbacks[i];
        assert(released.sources[id].callbacks[i] == entry);
        assert(released.sound_source(id));
        assert(released.sound_entry(id, released.sources[id].callbacks[i]));
        if released.live(entry) {
            lemma_swept_live(released, id, entry);
            lemma_sweep_sound(b);
            lemma_live(released, entry);
            lemma_live(b, entry);
            assert(network.sound_source(id));
            assert(network.sound_entry(id, network.sources[id].callbacks[i]));
            assert(b.live(b.sources[id].callbacks[i]));
            lemma_still_live(network, m, id, i);
        }
    }
    nothing_live_is_applied(released, sink, a, next);
}

} // verus!
