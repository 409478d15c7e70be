//! Building and letting go: what is added to a network, and what nobody has a
//! handle of any more, keep it sound and consistent.
use crate::consistency::{lemma_in_turn_stays, unwrapping, Place, Progress};
use crate::function::{Binary, Unary};
use crate::life::{
    alive_cell_is_held_or_rested_on, alive_is_held_or_rested_on, lemma_ended, lemma_held_is_alive,
    lemma_live, lemma_sweep_consistent, lemma_sweep_sound, lemma_swept, lemma_upholds,
};
use crate::model::{
    CellOrigin, CellView, ContentView, Entry, NetworkView, Origin, QueueView, Reaction, SourceView,
};
use crate::sound::{takes, takes2};
use crate::value::{Shape, Value};
use vstd::prelude::*;

verus! {

impl<T> NetworkView<T> {
    /// A network is in order: it is sound, exactly what is not alive has ended,
    /// and, unless it is poisoned, it is consistent.
    pub open spec fn valid(self) -> bool {
        &&& self.sound()
        &&& self.swept()
        &&& !self.astray
        &&& !self.overstepped
        &&& !self.poisoned ==> self.consistent()
    }

    /// `next` has all that `self` has, unchanged but for callbacks that have
    /// been registered, none of them one by which a switch follows a stream.
    pub open spec fn grows_to(self, next: NetworkView<T>) -> bool {
        &&& next.number == self.number
        &&& self.sources.len() <= next.sources.len()
        &&& forall|s: int|
            self.is_source(s) ==> (#[trigger] next.sources[s]) == (SourceView {
                callbacks: next.sources[s].callbacks,
                ..self.sources[s]
            })
        &&& forall|s: int|
            self.is_source(s) ==> self.sources[s].callbacks.is_prefix_of(
                (#[trigger] next.sources[s]).callbacks,
            )
        &&& self.cells.len() <= next.cells.len()
        &&& forall|k: int| self.is_cell(k) ==> #[trigger] next.cells[k] == self.cells[k]
        &&& self.queues.len() <= next.queues.len()
        &&& forall|q: int| self.is_queue(q) ==> #[trigger] next.queues[q] == self.queues[q]
        &&& next.tokens == self.tokens
        &&& next.poisoned == self.poisoned
        &&& next.returned == self.returned
        &&& next.astray == self.astray
        &&& next.overstepped == self.overstepped
        &&& forall|s: int, i: int|
            next.is_callback(s, i) && self.is_added(s, i) ==> !(
            #[trigger] next.sources[s].callbacks[i].reaction is Switched)
    }

    /// `next` is as `self`, but for handles and listeners that are gone.
    pub open spec fn lets_go(self, next: NetworkView<T>) -> bool {
        &&& next == NetworkView {
            sources: next.sources,
            cells: next.cells,
            queues: next.queues,
            ..self
        }
        &&& next.sources.len() == self.sources.len()
        &&& forall|s: int|
            self.is_source(s) ==> {
                let source = #[trigger] next.sources[s];
                &&& source == SourceView {
                    pinned: source.pinned,
                    released: source.released,
                    ..self.sources[s]
                }
                &&& source.is_held() ==> self.sources[s].is_held()
            }
        &&& next.cells.len() == self.cells.len()
        &&& forall|k: int|
            self.is_cell(k) ==> {
                let cell = #[trigger] next.cells[k];
                &&& cell == CellView { released: cell.released, ..self.cells[k] }
                &&& self.cells[k].released ==> cell.released
            }
        &&& next.queues.len() == self.queues.len()
        &&& forall|q: int|
            self.is_queue(q) ==> {
                let queue = #[trigger] next.queues[q];
                ||| queue == self.queues[q]
                ||| queue == QueueView { open: false, waiting: Seq::empty(), ..self.queues[q] }
            }
    }

    /// `next` is as `self`, but that somebody has got a value out of it: from a
    /// signal or from a listener.
    pub open spec fn hands_out(self, next: NetworkView<T>) -> bool {
        &&& next == NetworkView { sources: next.sources, queues: next.queues, ..self }
        &&& next.sources.len() == self.sources.len()
        &&& forall|s: int|
            self.is_source(s) ==> {
                let source = #[trigger] next.sources[s];
                &&& source == SourceView { released: source.released, ..self.sources[s] }
                &&& source.released ==> self.sources[s].released
            }
        &&& next.queues.len() == self.queues.len()
        &&& forall|q: int|
            self.is_queue(q) ==> {
                let queue = #[trigger] next.queues[q];
                &&& queue == QueueView { waiting: queue.waiting, ..self.queues[q] }
            }
    }

    /// The callback `i` of the source `s` is not one of `self`.
    pub open spec fn is_added(self, s: int, i: int) -> bool {
        !self.is_source(s) || i >= self.sources[s].callbacks.len()
    }

    /// A place that is not one of `self`.
    pub open spec fn is_new_place(self, place: Place) -> bool {
        match place {
            Place::Nowhere => false,
            Place::History(m) => m >= self.sources.len(),
            Place::Left(m) => m >= self.sources.len(),
            Place::Right(m) => m >= self.sources.len(),
            Place::Current(m) => m >= self.sources.len(),
            Place::Queue(q) => q >= self.queues.len(),
            Place::Cell(k) => k >= self.cells.len(),
        }
    }
}

/// What was sound stays so.
proof fn lemma_entry_grows<T>(a: NetworkView<T>, b: NetworkView<T>, s: int, entry: Entry<T>)
    requires
        a.grows_to(b),
        a.is_source(s),
        a.sound_entry(s, entry),
    ensures
        b.sound_entry(s, entry),
{
    assert(b.sources[s].shape == a.sources[s].shape);
    match entry.reaction {
        Reaction::Mapped { f, target } => {
            assert(b.sources[target].shape == a.sources[target].shape);
        },
        Reaction::FilterSome { target } => {
            assert(b.sources[target].shape == a.sources[target].shape);
        },
        Reaction::Merge { left, target } => {
            assert(b.sources[target].shape == a.sources[target].shape);
        },
        Reaction::Switch { target } => {
            assert(b.sources[target].shape == a.sources[target].shape);
        },
        Reaction::Switched { target, token, from } => {
            assert(b.sources[target].shape == a.sources[target].shape);
        },
        Reaction::Snapshot { signal, f, target } => {
            assert(b.sources[target].shape == a.sources[target].shape);
            assert(b.cells[signal] == a.cells[signal]);
        },
        Reaction::Events { queue } => {
            assert(b.queues[queue] == a.queues[queue]);
        },
        Reaction::Hold { cell } => {
            assert(b.cells[cell] == a.cells[cell]);
        },
        Reaction::ScanMut { cell, f } => {
            assert(b.cells[cell] == a.cells[cell]);
        },
    }
}

/// A network stays sound if what is added is sound.
proof fn lemma_grows_sound<T>(a: NetworkView<T>, b: NetworkView<T>)
    requires
        a.sound(),
        a.grows_to(b),
        forall|s: int, i: int|
            b.is_callback(s, i) && a.is_added(s, i) ==> b.sound_entry(
                s,
                #[trigger] b.sources[s].callbacks[i],
            ),
        forall|s: int|
            a.sources.len() <= s < b.sources.len() ==> {
                &&& (#[trigger] b.sources[s]).history.len() == 0
                &&& b.sources[s].terminate is None
                &&& b.sources[s].origin.precedes(s)
                &&& !b.sources[s].ended
            },
        forall|k: int| a.cells.len() <= k < b.cells.len() ==> #[trigger] b.sound_cell(k),
        forall|q: int| a.queues.len() <= q < b.queues.len() ==> #[trigger] b.sound_queue(q),
    ensures
        b.sound(),
{
    assert forall|s: int| b.is_source(s) implies #[trigger] b.sound_source(s) by {
        if a.is_source(s) {
            assert(a.sound_source(s));
            assert(b.sources[s].origin == a.sources[s].origin);
        }
        assert forall|i: int| 0 <= i < b.sources[s].callbacks.len() implies b.sound_entry(
            s,
            #[trigger] b.sources[s].callbacks[i],
        ) by {
            assert(b.is_callback(s, i));
            if !a.is_added(s, i) {
                assert(a.sources[s].callbacks.is_prefix_of(b.sources[s].callbacks));
                assert(a.sources[s].callbacks[i] == b.sources[s].callbacks[i]);
                assert(a.sound_entry(s, a.sources[s].callbacks[i]));
                lemma_entry_grows(a, b, s, a.sources[s].callbacks[i]);
            }
        }
    }
    assert forall|k: int| b.is_cell(k) implies #[trigger] b.sound_cell(k) by {
        if a.is_cell(k) {
            assert(a.sound_cell(k));
            assert(b.cells[k] == a.cells[k]);
            match a.cells[k].content {
                ContentView::Alias(j) => {
                    assert(b.cells[j] == a.cells[j]);
                },
                ContentView::Combined { state, other, f } => {
                    assert(b.cells[state] == a.cells[state]);
                    assert(b.cells[other] == a.cells[other]);
                },
                _ => {},
            }
        }
    }
    assert forall|q: int| b.is_queue(q) implies #[trigger] b.sound_queue(q) by {
        if a.is_queue(q) {
            assert(a.sound_queue(q));
            assert(b.queues[q] == a.queues[q]);
        }
    }
}

/// The effect of a callback that was there before is as before.
proof fn lemma_holds_grows<T>(
    a: NetworkView<T>,
    b: NetworkView<T>,
    s: int,
    entry: Entry<T>,
    heard: Seq<Value<T>>,
)
    requires
        a.grows_to(b),
        a.is_source(s),
        a.sound_entry(s, entry),
        a.holds(s, entry, heard),
    ensures
        b.holds(s, entry, heard),
        !a.is_new_place(b.place(entry)),
        b.place(entry) == a.place(entry),
{
    match entry.reaction {
        Reaction::Mapped { f, target } => {
            assert(b.sources[target].history == a.sources[target].history);
        },
        Reaction::FilterSome { target } => {
            assert(b.sources[target].history == a.sources[target].history);
        },
        Reaction::Merge { left, target } => {
            assert(b.sources[target].history == a.sources[target].history);
        },
        Reaction::Switch { target } => {
            assert(b.sources[target].history == a.sources[target].history);
        },
        Reaction::Switched { target, token, from } => {
            assert(b.sources[target].history == a.sources[target].history);
        },
        Reaction::Snapshot { signal, f, target } => {
            assert(b.sources[target].history == a.sources[target].history);
            assert(b.sources[target].causes == a.sources[target].causes);
        },
        Reaction::Events { queue } => {
            assert(b.queues[queue] == a.queues[queue]);
        },
        Reaction::Hold { cell } => {
            assert(b.cells[cell] == a.cells[cell]);
        },
        Reaction::ScanMut { cell, f } => {
            assert(b.cells[cell] == a.cells[cell]);
        },
    }
}

/// What feeds a source that was there before is still there.
proof fn lemma_fed_grows<T>(a: NetworkView<T>, b: NetworkView<T>, m: int)
    requires
        a.sound(),
        a.grows_to(b),
        a.is_source(m),
        a.fed_source(m),
    ensures
        b.fed_source(m),
{
    assert forall|s: int, reaction: Reaction<T>, since: nat|
        #![trigger a.has(s, reaction, since)]
        a.has(s, reaction, since) implies b.has(s, reaction, since) by {
        lemma_has_grows(a, b, s, reaction, since);
    }
    match a.sources[m].origin {
        Origin::Switch { parent, since } => {
            if !a.sources[m].ended {
                assert(a.has(parent, Reaction::Switch { target: m }, since));
                assert forall|s: int| a.is_source(s) implies a.sources[s].history.is_prefix_of(
                    (#[trigger] b.sources[s]).history,
                ) by {
                    let x = a.sources[s].history;
                    assert(x =~= x.subrange(0, x.len() as int));
                }
                lemma_in_turn_stays(a, b, m);
                assert(b.sources[m].turns == a.sources[m].turns);
                assert(a.sources[m].turns.len() > 0 ==> b.follows(m));
            }
        },
        Origin::Snapshot { parent, since, signal, f } => {
            if !a.sources[m].ended {
                assert(a.has(parent, Reaction::Snapshot { signal, f, target: m }, since));
                assert(a.sound_cell(signal));
                assert(b.cells[signal] == a.cells[signal]);
                let cell = a.resolve(signal);
                assert(b.cells[cell] == a.cells[cell]);
                assert(b.own_samples(m));
            }
        },
        _ => {},
    }
}

proof fn lemma_has_grows<T>(
    a: NetworkView<T>,
    b: NetworkView<T>,
    s: int,
    reaction: Reaction<T>,
    since: nat,
)
    requires
        a.grows_to(b),
        a.has(s, reaction, since),
    ensures
        b.has(s, reaction, since),
{
    let entry = Entry { reaction, since };
    let i = choose|i: int|
        0 <= i < a.sources[s].callbacks.len() && a.sources[s].callbacks[i] == entry;
    assert(a.sources[s].callbacks.is_prefix_of(b.sources[s].callbacks));
    assert(b.sources[s].callbacks[i] == entry);
}

/// A network stays consistent if every callback that is added has its effect
/// at a new place of its own, and what is added is connected.
proof fn lemma_grows_consistent<T>(a: NetworkView<T>, b: NetworkView<T>)
    requires
        a.sound(),
        a.consistent(),
        a.grows_to(b),
        forall|s: int, i: int|
            b.is_callback(s, i) && a.is_added(s, i) ==> {
                let entry = #[trigger] b.sources[s].callbacks[i];
                &&& entry.since == b.sources[s].history.len()
                &&& b.holds(s, entry, Seq::empty())
                &&& a.is_new_place(b.place(entry))
            },
        forall|s: int, i: int, t: int, j: int|
            b.is_callback(s, i) && a.is_added(s, i) && b.is_callback(t, j) && a.is_added(t, j)
                ==> #[trigger] b.apart(s, i, t, j),
        forall|m: int|
            a.sources.len() <= m < b.sources.len() ==> {
                &&& #[trigger] b.fed_source(m)
                &&& b.sources[m].terminate is None
            },
        forall|k: int| a.cells.len() <= k < b.cells.len() ==> #[trigger] b.fed_cell(k),
        forall|q: int| a.queues.len() <= q < b.queues.len() ==> #[trigger] b.fed_queue(q),
    ensures
        b.consistent(),
{
    let none: Progress = Map::empty();
    assert forall|s: int, i: int| b.is_callback(s, i) implies #[trigger] b.up_to_date(
        none,
        s,
        i,
    ) by {
        let entry = b.sources[s].callbacks[i];
        if a.is_added(s, i) {
            assert(b.heard(s, entry, 0) =~= Seq::empty());
        } else {
            assert(a.is_callback(s, i));
            assert(a.sources[s].callbacks.is_prefix_of(b.sources[s].callbacks));
            assert(a.sources[s].callbacks[i] == entry);
            assert(a.up_to_date(none, s, i));
            assert(a.sound_source(s));
            assert(b.heard(s, entry, 0) == a.heard(s, entry, 0));
            lemma_holds_grows(a, b, s, entry, a.heard(s, entry, 0));
        }
    }
    assert forall|s: int, i: int, t: int, j: int|
        b.is_callback(s, i) && b.is_callback(t, j) implies #[trigger] b.apart(s, i, t, j) by {
        if !a.is_added(s, i) {
            lemma_old_place(a, b, s, i);
        }
        if !a.is_added(t, j) {
            lemma_old_place(a, b, t, j);
        }
        if !a.is_added(s, i) && !a.is_added(t, j) {
            assert(a.apart(s, i, t, j));
        }
    }
    assert forall|m: int| b.is_source(m) implies #[trigger] b.fed_source(m) by {
        if a.is_source(m) {
            assert(a.fed_source(m));
            lemma_fed_grows(a, b, m);
        }
    }
    assert forall|k: int| b.is_cell(k) implies #[trigger] b.fed_cell(k) by {
        if a.is_cell(k) {
            assert(a.fed_cell(k));
            assert(b.cells[k] == a.cells[k]);
            if !a.cells[k].ended {
                match a.cells[k].origin {
                    CellOrigin::Hold { parent, since, initial } => {
                        lemma_has_grows(a, b, parent, Reaction::Hold { cell: k }, since);
                    },
                    CellOrigin::ScanMut { parent, since, initial, f } => {
                        lemma_has_grows(a, b, parent, Reaction::ScanMut { cell: k, f }, since);
                    },
                    _ => {},
                }
            }
        }
    }
    assert forall|q: int| b.is_queue(q) implies #[trigger] b.fed_queue(q) by {
        if a.is_queue(q) {
            assert(a.fed_queue(q));
            let queue = a.queues[q];
            assert(b.queues[q] == queue);
            if queue.open {
                lemma_has_grows(a, b, queue.parent, Reaction::Events { queue: q }, queue.since);
            }
        }
    }
    assert forall|m: int, n: int|
        b.is_source(m) && b.is_source(n) && m != n && (#[trigger] b.sources[m]).terminate
            is Some implies b.sources[m].terminate != (#[trigger] b.sources[n]).terminate by {
        assert(a.sources.len() <= m ==> b.fed_source(m));
        assert(a.sources.len() <= n ==> b.fed_source(n));
        if a.is_source(m) && a.is_source(n) {
            assert(a.sources[m].terminate != a.sources[n].terminate);
        }
    }
}

/// A callback that was there before has its effect at an old place.
proof fn lemma_old_place<T>(a: NetworkView<T>, b: NetworkView<T>, s: int, i: int)
    requires
        a.sound(),
        a.consistent(),
        a.grows_to(b),
        b.is_callback(s, i),
        !a.is_added(s, i),
    ensures
        a.is_callback(s, i),
        a.sources[s].callbacks[i] == b.sources[s].callbacks[i],
        b.place(b.sources[s].callbacks[i]) == a.place(a.sources[s].callbacks[i]),
        !a.is_new_place(b.place(b.sources[s].callbacks[i])),
{
    let entry = b.sources[s].callbacks[i];
    assert(a.is_callback(s, i));
    assert(a.sources[s].callbacks.is_prefix_of(b.sources[s].callbacks));
    assert(a.sources[s].callbacks[i] == entry);
    assert(a.up_to_date(Map::empty(), s, i));
    assert(a.sound_source(s));
    lemma_holds_grows(a, b, s, entry, a.heard(s, entry, 0));
}

/// Exactly what is not alive has ended if what is added is alive, and nothing
/// has been registered with what has ended.
proof fn lemma_grows_swept<T>(a: NetworkView<T>, b: NetworkView<T>)
    requires
        a.sound(),
        a.swept(),
        a.grows_to(b),
        b.sound(),
        forall|s: int|
            a.is_source(s) && (#[trigger] b.sources[s]).ended ==> b.sources[s].callbacks
                == a.sources[s].callbacks,
        forall|m: int|
            a.sources.len() <= m < b.sources.len() ==> b.alive(m) && !(
            #[trigger] b.sources[m]).ended,
        forall|k: int|
            a.cells.len() <= k < b.cells.len() ==> b.alive_cell(k) && !(
            #[trigger] b.cells[k]).ended,
    ensures
        b.swept(),
{
    lemma_held_is_alive(b);
    assert(a.upholds(b)) by {
        assert forall|s: int| a.is_source(s) && (#[trigger] a.sources[s]).is_held() implies
            b.alive(s) by {
            assert(b.sources[s].is_held());
        }
        assert forall|k: int| a.is_cell(k) && !(#[trigger] a.cells[k]).released implies
            b.alive_cell(k) by {
            assert(!b.cells[k].released);
        }
        assert forall|s: int, i: int|
            a.is_source(s) && 0 <= i < a.sources[s].callbacks.len() implies
            #[trigger] a.keeps_live(b, s, i) by {
            assert(a.sources[s].callbacks.is_prefix_of(b.sources[s].callbacks));
            assert(b.sources[s].callbacks[i] == a.sources[s].callbacks[i]);
        }
        assert forall|q: int| a.is_queue(q) && (#[trigger] a.queues[q]).open implies
            b.queues[q].open by {
            assert(b.queues[q] == a.queues[q]);
        }
        assert forall|j: int, k: int| a.is_cell(k) && #[trigger] a.rests_on(j, k) implies
            b.rests_on(j, k) by {
            assert(b.cells[j] == a.cells[j]);
        }
        assert forall|k: int, s: int|
            a.is_source(s) && #[trigger] a.holds_stream(k, s) implies b.holds_stream(k, s) by {
            assert(b.cells[k] == a.cells[k]);
            assert(b.sources[s].ended == a.sources[s].ended);
        }
        assert forall|q: int, i: int, s: int|
            a.is_source(s) && #[trigger] a.waits(q, i, s) implies b.alive(s) by {
            assert(b.queues[q] == a.queues[q]);
            assert(b.sources[s].ended == a.sources[s].ended);
            assert(b.waits(q, i, s));
            alive_is_held_or_rested_on(b, s);
        }
    }
    lemma_upholds(a, b);
    lemma_ended(b);
    assert forall|s: int| b.is_source(s) implies (#[trigger] b.sources[s]).ended == !b.alive(s)
        && (b.sources[s].ended ==> b.sources[s].callbacks.len() == 0) by {
        if a.is_source(s) {
            assert(a.sources[s].ended == !a.alive(s));
        }
    }
    assert forall|k: int| b.is_cell(k) implies (#[trigger] b.cells[k]).ended
        == !b.alive_cell(k) by {
        if a.is_cell(k) {
            assert(b.cells[k] == a.cells[k]);
            assert(a.cells[k].ended == !a.alive_cell(k));
        }
    }
}

proof fn lemma_prefixes<T>(a: NetworkView<T>, reaction: Reaction<T>, since: nat)
    ensures
        forall|s: int|
            #![trigger a.sources[s].callbacks]
            a.sources[s].callbacks.is_prefix_of(a.sources[s].callbacks)
                && a.sources[s].callbacks.is_prefix_of(
                a.sources[s].callbacks.push(Entry { reaction, since }),
            ),
{
    assert forall|s: int|
        #![trigger a.sources[s].callbacks]
        a.sources[s].callbacks.is_prefix_of(a.sources[s].callbacks)
            && a.sources[s].callbacks.is_prefix_of(
            a.sources[s].callbacks.push(Entry { reaction, since }),
        ) by {
        let x = a.sources[s].callbacks;
        let y = x.push(Entry { reaction, since });
        assert(x =~= x.subrange(0, x.len() as int));
        assert(x =~= y.subrange(0, x.len() as int));
    }
}

/// A network without anything in it is in order.
pub proof fn lemma_empty_valid<T>(number: u64)
    ensures
        NetworkView::<T>::empty(number).valid(),
{
}

/// A source that nothing feeds keeps a network in order.
pub proof fn lemma_add_source_valid<T>(a: NetworkView<T>, shape: Shape, origin: Origin<T>)
    requires
        a.valid(),
        origin is Sink || origin is Never,
    ensures
        a.add_source(shape, origin).valid(),
        a.grows_to(a.add_source(shape, origin)),
{
    let b = a.add_source(shape, origin);
    lemma_prefixes(a, Reaction::Switch { target: 0 }, 0);
    assert(a.grows_to(b));
    lemma_held_is_alive(b);
    lemma_grows_sound(a, b);
    lemma_grows_swept(a, b);
    if !a.poisoned {
        lemma_grows_consistent(a, b);
    }
}

/// `map` keeps a network in order.
pub proof fn lemma_map_valid<T>(a: NetworkView<T>, parent: int, shape: Shape, f: Unary<T>)
    requires
        a.valid(),
        a.is_source(parent),
        a.sources[parent].is_held(),
        takes(f, a.sources[parent].shape, shape),
    ensures
        a.map(parent, shape, f).valid(),
        a.grows_to(a.map(parent, shape, f)),
{
    let b = a.map(parent, shape, f);
    let target = a.sources.len() as int;
    let reaction = Reaction::Mapped { f, target };
    let since = a.fired(parent);
    assert(a.sound_source(parent));
    lemma_prefixes(a, reaction, since);
    assert(a.grows_to(b));
    assert(b.sources[parent].callbacks.last() == (Entry { reaction, since }));
    lemma_held_is_alive(b);
    lemma_grows_sound(a, b);
    lemma_grows_swept(a, b);
    if !a.poisoned {
        assert(b.has(parent, reaction, since));
        lemma_grows_consistent(a, b);
    }
}

/// `filter_some` keeps a network in order.
pub proof fn lemma_filter_some_valid<T>(a: NetworkView<T>, parent: int, shape: Shape)
    requires
        a.valid(),
        a.is_source(parent),
        a.sources[parent].is_held(),
        a.sources[parent].shape == Shape::Optional(Box::new(shape)),
    ensures
        a.filter_some(parent, shape).valid(),
        a.grows_to(a.filter_some(parent, shape)),
{
    let b = a.filter_some(parent, shape);
    let target = a.sources.len() as int;
    let reaction = Reaction::FilterSome { target };
    let since = a.fired(parent);
    assert(a.sound_source(parent));
    lemma_prefixes(a, reaction, since);
    assert(a.grows_to(b));
    assert(b.sources[parent].callbacks.last() == (Entry { reaction, since }));
    assert(Seq::<Value<T>>::empty().filter_map(unwrapping::<T>()) =~= Seq::empty());
    lemma_held_is_alive(b);
    lemma_grows_sound(a, b);
    lemma_grows_swept(a, b);
    if !a.poisoned {
        assert(b.has(parent, reaction, since));
        lemma_grows_consistent(a, b);
    }
}

/// `switch` keeps a network in order.
pub proof fn lemma_switch_valid<T>(a: NetworkView<T>, parent: int, shape: Shape)
    requires
        a.valid(),
        a.is_source(parent),
        a.sources[parent].is_held(),
        a.sources[parent].shape == Shape::Stream(Box::new(shape)),
    ensures
        a.switch(parent, shape).valid(),
        a.grows_to(a.switch(parent, shape)),
{
    let b = a.switch(parent, shape);
    let target = a.sources.len() as int;
    let reaction = Reaction::Switch { target };
    let since = a.fired(parent);
    assert(a.sound_source(parent));
    lemma_prefixes(a, reaction, since);
    assert(a.grows_to(b));
    assert(b.sources[parent].callbacks.last() == (Entry { reaction, since }));
    lemma_held_is_alive(b);
    lemma_grows_sound(a, b);
    lemma_grows_swept(a, b);
    if !a.poisoned {
        assert(b.has(parent, reaction, since));
        lemma_grows_consistent(a, b);
    }
}

/// `snapshot` keeps a network in order.
pub proof fn lemma_snapshot_valid<T>(
    a: NetworkView<T>,
    signal: int,
    parent: int,
    shape: Shape,
    f: Binary<T>,
)
    requires
        a.valid(),
        a.is_source(parent),
        a.sources[parent].is_held(),
        a.is_cell(signal),
        !a.cells[signal].released,
        takes2(f, a.cells[signal].shape, a.sources[parent].shape, shape),
    ensures
        a.snapshot(signal, parent, shape, f).valid(),
        a.grows_to(a.snapshot(signal, parent, shape, f)),
{
    let b = a.snapshot(signal, parent, shape, f);
    assert(a.sound_cell(signal));
    let target = a.sources.len() as int;
    let reaction = Reaction::Snapshot { signal, f, target };
    let since = a.fired(parent);
    assert(a.sound_source(parent));
    lemma_prefixes(a, reaction, since);
    assert(a.grows_to(b));
    assert(b.sources[parent].callbacks.last() == (Entry { reaction, since }));
    lemma_held_is_alive(b);
    lemma_grows_sound(a, b);
    lemma_grows_swept(a, b);
    if !a.poisoned {
        assert(b.has(parent, reaction, since));
        lemma_grows_consistent(a, b);
    }
}

/// `merge` keeps a network in order.
pub proof fn lemma_merge_valid<T>(a: NetworkView<T>, left: int, right: int, shape: Shape)
    requires
        a.valid(),
        a.is_source(left),
        a.is_source(right),
        a.sources[left].is_held(),
        a.sources[right].is_held(),
        a.sources[left].shape == shape,
        a.sources[right].shape == shape,
    ensures
        a.merge(left, right, shape).valid(),
        a.grows_to(a.merge(left, right, shape)),
{
    let b = a.merge(left, right, shape);
    assert(a.sound_source(left) && a.sound_source(right));
    let target = a.sources.len() as int;
    let first = Entry {
        reaction: Reaction::<T>::Merge { left: true, target },
        since: a.fired(left),
    };
    let second = Entry {
        reaction: Reaction::<T>::Merge { left: false, target },
        since: a.fired(right),
    };
    let old_left = a.sources[left].callbacks;
    let old_right = a.sources[right].callbacks;
    if left == right {
        assert(b.sources[left].callbacks == old_left.push(first).push(second));
        assert(b.sources[left].callbacks[old_left.len() as int] == first);
        assert(b.sources[left].callbacks[old_left.len() as int + 1] == second);
    } else {
        assert(b.sources[left].callbacks == old_left.push(first));
        assert(b.sources[right].callbacks == old_right.push(second));
        assert(b.sources[left].callbacks[old_left.len() as int] == first);
        assert(b.sources[right].callbacks[old_right.len() as int] == second);
    }
    assert forall|s: int| a.is_source(s) implies a.sources[s].callbacks.is_prefix_of(
        (#[trigger] b.sources[s]).callbacks,
    ) by {
        let x = a.sources[s].callbacks;
        assert(x =~= b.sources[s].callbacks.subrange(0, x.len() as int));
    }
    assert(a.grows_to(b));
    lemma_held_is_alive(b);
    lemma_grows_sound(a, b);
    lemma_grows_swept(a, b);
    if !a.poisoned {
        assert(b.has(left, first.reaction, first.since));
        assert(b.has(right, second.reaction, second.since));
        lemma_grows_consistent(a, b);
    }
}

/// `hold` keeps a network in order.
pub proof fn lemma_hold_valid<T>(a: NetworkView<T>, parent: int, initial: Value<T>)
    requires
        a.valid(),
        a.is_source(parent),
        a.sources[parent].is_held(),
        initial.fits(a.sources[parent].shape),
    ensures
        a.hold(parent, initial).valid(),
        a.grows_to(a.hold(parent, initial)),
{
    let b = a.hold(parent, initial);
    let reaction = Reaction::Hold { cell: a.cells.len() as int };
    let since = a.fired(parent);
    assert(a.sound_source(parent));
    lemma_prefixes(a, reaction, since);
    assert(a.grows_to(b));
    assert(b.sources[parent].callbacks.last() == (Entry { reaction, since }));
    lemma_held_is_alive(b);
    lemma_grows_sound(a, b);
    lemma_grows_swept(a, b);
    if !a.poisoned {
        assert(b.has(parent, reaction, since));
        lemma_grows_consistent(a, b);
    }
}

/// `scan_mut` keeps a network in order.
pub proof fn lemma_scan_mut_valid<T>(
    a: NetworkView<T>,
    parent: int,
    shape: Shape,
    initial: Value<T>,
    f: Binary<T>,
)
    requires
        a.valid(),
        a.is_source(parent),
        a.sources[parent].is_held(),
        initial.fits(shape),
        takes2(f, shape, a.sources[parent].shape, shape),
    ensures
        a.scan_mut(parent, shape, initial, f).valid(),
        a.grows_to(a.scan_mut(parent, shape, initial, f)),
{
    let b = a.scan_mut(parent, shape, initial, f);
    let reaction = Reaction::ScanMut { cell: a.cells.len() as int, f };
    let since = a.fired(parent);
    assert(a.sound_source(parent));
    lemma_prefixes(a, reaction, since);
    assert(a.grows_to(b));
    assert(b.sources[parent].callbacks.last() == (Entry { reaction, since }));
    lemma_held_is_alive(b);
    lemma_grows_sound(a, b);
    lemma_grows_swept(a, b);
    if !a.poisoned {
        assert(b.has(parent, reaction, since));
        lemma_grows_consistent(a, b);
    }
}

/// `scan` keeps a network in order, before its results are let go and after.
pub proof fn lemma_scan_valid<T>(
    a: NetworkView<T>,
    parent: int,
    shape: Shape,
    initial: Value<T>,
    f: Binary<T>,
)
    requires
        a.valid(),
        a.is_source(parent),
        a.sources[parent].is_held(),
        initial.fits(shape),
        takes2(f, shape, a.sources[parent].shape, shape),
    ensures
        a.scanning(parent, shape, initial, f).valid(),
        a.scan(parent, shape, initial, f).valid(),
        a.grows_to(a.scan(parent, shape, initial, f)),
{
    let results = a.sources.len() as int;
    let b = a.scanning(parent, shape, initial, f);
    lemma_scanning_valid(a, parent, shape, initial, f, b);
    lemma_scanning_valid(a, parent, shape, initial, f, b.let_go(results));
    lemma_swept(b.let_go(results));
}

/// What `scan` makes: a cell that stands for the one that holds the results.
pub proof fn lemma_scan_made<T>(
    a: NetworkView<T>,
    parent: int,
    shape: Shape,
    initial: Value<T>,
    f: Binary<T>,
)
    requires
        a.valid(),
        a.is_source(parent),
        a.sources[parent].is_held(),
        initial.fits(shape),
        takes2(f, shape, a.sources[parent].shape, shape),
    ensures
        ({
            let b = a.scan(parent, shape, initial, f);
            let results = a.sources.len() as int;
            let cycle = a.cells.len() as int;
            &&& b == a.scanning(parent, shape, initial, f).let_go(results)
            &&& b.cells[cycle].content == ContentView::<T>::Alias(cycle + 1)
            &&& b.cells[cycle + 1].content == ContentView::Held(initial)
        }),
{
    let results = a.sources.len() as int;
    let b = a.scanning(parent, shape, initial, f);
    lemma_scanning_valid(a, parent, shape, initial, f, b.let_go(results));
    lemma_swept(b.let_go(results));
}

/// What `filter_map` makes.
pub proof fn lemma_filter_map_made<T>(a: NetworkView<T>, parent: int, shape: Shape, f: Unary<T>)
    requires
        a.filter_map(parent, shape, f).valid(),
        a.is_source(parent),
    ensures
        a.filter_map(parent, shape, f).sources[a.sources.len() as int].origin == (Origin::Mapped {
            parent,
            since: a.fired(parent),
            f,
        }),
        a.filter_map(parent, shape, f).sources[a.sources.len() as int + 1].origin == (
        Origin::<T>::FilterSome { parent: a.sources.len() as int, since: 0 }),
{
    let options = a.sources.len() as int;
    let b = a.map(parent, Shape::Optional(Box::new(shape)), f).filter_some(options, shape);
    let c = b.let_go(options);
    assert(c.sweep().sources[options] == c.swept_source(options));
    assert(c.sweep().sources[options + 1] == c.swept_source(options + 1));
}

proof fn lemma_scanning_valid<T>(
    a: NetworkView<T>,
    parent: int,
    shape: Shape,
    initial: Value<T>,
    f: Binary<T>,
    b: NetworkView<T>,
)
    requires
        a.valid(),
        a.is_source(parent),
        a.sources[parent].is_held(),
        initial.fits(shape),
        takes2(f, shape, a.sources[parent].shape, shape),
        ({
            let scanning = a.scanning(parent, shape, initial, f);
            b == scanning || b == scanning.let_go(a.sources.len() as int)
        }),
    ensures
        b.valid(),
        a.grows_to(b),
{
    let results = a.sources.len() as int;
    let cycle = a.cells.len() as int;
    let reaction = Reaction::Snapshot { signal: cycle, f, target: results };
    let since = a.fired(parent);
    assert(a.sound_source(parent));
    lemma_prefixes(a, reaction, since);
    assert(a.grows_to(b));
    assert(b.sources[parent].callbacks.last() == (Entry { reaction, since }));
    let held = Entry { reaction: Reaction::<T>::Hold { cell: cycle + 1 }, since: 0 };
    assert(b.sources[results].callbacks =~= seq![held]);
    assert(b.sources[results].callbacks[0] == held);
    assert(b.cells[cycle].content == ContentView::<T>::Alias(cycle + 1));
    assert(b.cells[cycle + 1].content == ContentView::Held(initial));
    lemma_grows_sound(a, b);
    // The cell stands for the held one, and that one rests on the results.
    lemma_held_is_alive(b);
    assert(!b.cells[cycle].released);
    assert(b.rests_on(cycle, cycle + 1));
    alive_cell_is_held_or_rested_on(b, cycle + 1);
    lemma_live(b, held);
    assert(b.live(b.sources[results].callbacks[0]));
    alive_is_held_or_rested_on(b, results);
    lemma_grows_swept(a, b);
    if !a.poisoned {
        assert(b.has(parent, reaction, since));
        assert(b.has(results, held.reaction, 0));
        lemma_grows_consistent(a, b);
    }
}

/// `filter_map` keeps a network in order.
pub proof fn lemma_filter_map_valid<T>(a: NetworkView<T>, parent: int, shape: Shape, f: Unary<T>)
    requires
        a.valid(),
        a.is_source(parent),
        a.sources[parent].is_held(),
        takes(f, a.sources[parent].shape, Shape::Optional(Box::new(shape))),
    ensures
        a.filter_map(parent, shape, f).valid(),
        a.grows_to(a.filter_map(parent, shape, f)),
{
    let options = a.sources.len() as int;
    let results = options + 1;
    let b = a.map(parent, Shape::Optional(Box::new(shape)), f).filter_some(options, shape).let_go(
        options,
    );
    let reaction = Reaction::Mapped { f, target: options };
    let since = a.fired(parent);
    assert(a.sound_source(parent));
    lemma_prefixes(a, reaction, since);
    assert(a.grows_to(b));
    assert(b.sources[parent].callbacks.last() == (Entry { reaction, since }));
    let unwrap = Entry { reaction: Reaction::<T>::FilterSome { target: results }, since: 0 };
    assert(b.sources[options].callbacks =~= seq![unwrap]);
    assert(b.sources[options].callbacks[0] == unwrap);
    assert(Seq::<Value<T>>::empty().filter_map(unwrapping::<T>()) =~= Seq::empty());
    lemma_grows_sound(a, b);
    // The results rest on the options.
    lemma_held_is_alive(b);
    assert(b.sources[results].is_held());
    lemma_live(b, unwrap);
    assert(b.live(b.sources[options].callbacks[0]));
    alive_is_held_or_rested_on(b, options);
    lemma_grows_swept(a, b);
    lemma_swept(b);
    if !a.poisoned {
        assert(b.has(parent, reaction, since));
        assert(b.has(options, unwrap.reaction, 0));
        lemma_grows_consistent(a, b);
    }
}

/// A cell that nothing feeds keeps a network in order.
pub proof fn lemma_add_cell_valid<T>(
    a: NetworkView<T>,
    shape: Shape,
    origin: CellOrigin<T>,
    content: ContentView<T>,
)
    requires
        a.valid(),
        origin is Constant || origin is Combine || origin is Cycle,
        content matches ContentView::Held(v) ==> v.fits(shape),
        !(content is Alias),
        content matches ContentView::Combined { state, other, f } ==> a.is_cell(state) && a.is_cell(
            other,
        ) && !a.cells[state].released && !a.cells[other].released && takes2(
            f,
            a.cells[state].shape,
            a.cells[other].shape,
            shape,
        ),
    ensures
        a.add_cell(shape, origin, content).valid(),
        a.grows_to(a.add_cell(shape, origin, content)),
{
    let b = a.add_cell(shape, origin, content);
    if let ContentView::Combined { state, other, .. } = content {
        assert(a.sound_cell(state) && a.sound_cell(other));
    }
    lemma_prefixes(a, Reaction::Switch { target: 0 }, 0);
    assert(a.grows_to(b));
    lemma_held_is_alive(b);
    lemma_grows_sound(a, b);
    lemma_grows_swept(a, b);
    if !a.poisoned {
        lemma_grows_consistent(a, b);
    }
}

/// Listening keeps a network in order.
pub proof fn lemma_listen_valid<T>(a: NetworkView<T>, parent: int)
    requires
        a.valid(),
        a.is_source(parent),
        a.sources[parent].is_held(),
    ensures
        a.listen(parent).valid(),
        a.grows_to(a.listen(parent)),
{
    let b = a.listen(parent);
    let reaction = Reaction::Events { queue: a.queues.len() as int };
    let since = a.fired(parent);
    assert(a.sound_source(parent));
    lemma_prefixes(a, reaction, since);
    assert(a.grows_to(b));
    assert(b.sources[parent].callbacks.last() == (Entry { reaction, since }));
    lemma_held_is_alive(b);
    lemma_grows_sound(a, b);
    lemma_grows_swept(a, b);
    if !a.poisoned {
        assert(b.has(parent, reaction, since));
        assert(Seq::<Value<T>>::empty().skip(0) =~= Seq::empty());
        lemma_grows_consistent(a, b);
    }
}

/// Taking an event out of a queue keeps a network in order.
pub proof fn lemma_take_next_valid<T>(a: NetworkView<T>, queue: int)
    requires
        a.valid(),
        a.is_queue(queue),
    ensures
        a.take_next(queue).valid(),
{
    if a.queues[queue].waiting.len() > 0 {
        let first = a.queues[queue].waiting.first();
        let b = a.take_next(queue);
        let c = a.retain(first);
        lemma_retain_valid(a, first);
        assert(b.sources =~= c.sources) by {
            assert forall|s: int| a.is_source(s) implies #[trigger] b.sources[s]
                == c.sources[s] by {
                assert(c.sources[s] == a.retained_source(first, s));
            }
        }
        assert forall|s: int| c.is_source(s) && #[trigger] c.mentions(first, s) implies
            c.sources[s].is_held() by {
            assert(c.sources[s] == a.retained_source(first, s));
        }
        lemma_queues_valid(c, b, queue);
    }
}

/// Taking an event out of a queue hands it out.
pub proof fn lemma_take_next_hands_out<T>(a: NetworkView<T>, queue: int)
    requires
        a.is_queue(queue),
    ensures
        a.hands_out(a.take_next(queue)),
{
    let b = a.take_next(queue);
    if a.queues[queue].waiting.len() > 0 {
        let first = a.queues[queue].waiting.first();
        let shorter = QueueView {
            waiting: a.queues[queue].waiting.drop_first(),
            ..a.queues[queue]
        };
        let c = NetworkView { queues: a.queues.update(queue, shorter), ..a };
        assert forall|s: int| a.is_source(s) implies #[trigger] b.sources[s] == c.retained_source(
            first,
            s,
        ) by {}
    }
}

/// Handing a value out keeps a network in order.
pub proof fn lemma_retain_valid<T>(a: NetworkView<T>, v: Value<T>)
    requires
        a.valid(),
    ensures
        a.retain(v).valid(),
        a.hands_out(a.retain(v)),
{
    let b = a.retain(v);
    assert forall|s: int| a.is_source(s) implies (#[trigger] b.sources[s]) == a.retained_source(
        v,
        s,
    ) by {}
    assert forall|s: int| b.is_source(s) implies #[trigger] b.sound_source(s) by {
        assert(a.sound_source(s));
        assert forall|i: int| 0 <= i < b.sources[s].callbacks.len() implies b.sound_entry(
            s,
            #[trigger] b.sources[s].callbacks[i],
        ) by {
            let entry = a.sources[s].callbacks[i];
            assert(a.sound_entry(s, entry));
            lemma_retained_sound(a, v, s, entry);
        }
    }
    assert forall|k: int| b.is_cell(k) implies #[trigger] b.sound_cell(k) by {
        assert(a.sound_cell(k));
    }
    assert forall|q: int| b.is_queue(q) implies #[trigger] b.sound_queue(q) by {
        assert(a.sound_queue(q));
    }
    lemma_held_is_alive(b);
    assert(a.upholds(b)) by {
        assert forall|s: int| a.is_source(s) && (#[trigger] a.sources[s]).is_held() implies
            b.alive(s) by {
            assert(b.sources[s].is_held());
        }
        assert forall|s: int, i: int|
            a.is_source(s) && 0 <= i < a.sources[s].callbacks.len() implies
            #[trigger] a.keeps_live(b, s, i) by {
            assert(b.sources[s].callbacks[i] == a.sources[s].callbacks[i]);
        }
        assert(forall|j: int, k: int| #[trigger] a.rests_on(j, k) ==> b.rests_on(j, k));
        assert(forall|k: int| #[trigger] a.cells[k] == b.cells[k]);
        assert forall|k: int, s: int| a.is_source(s) && #[trigger] a.holds_stream(k, s) implies
            b.holds_stream(k, s) by {
            assert(b.sources[s].ended == a.sources[s].ended);
        }
        assert forall|q: int, i: int, s: int|
            a.is_source(s) && #[trigger] a.waits(q, i, s) implies b.alive(s) by {
            assert(b.sources[s].ended == a.sources[s].ended);
            assert(b.waits(q, i, s));
            alive_is_held_or_rested_on(b, s);
        }
    }
    lemma_upholds(a, b);
    lemma_ended(b);
    assert forall|s: int| b.is_source(s) implies (#[trigger] b.sources[s]).ended == !b.alive(s)
        && (b.sources[s].ended ==> b.sources[s].callbacks.len() == 0) by {
        assert(a.sources[s].ended == !a.alive(s));
    }
    assert forall|k: int| b.is_cell(k) implies (#[trigger] b.cells[k]).ended
        == !b.alive_cell(k) by {
        assert(a.cells[k].ended == !a.alive_cell(k));
    }
    if !a.poisoned {
        assert forall|q: int| b.is_queue(q) implies ({
            let queue = #[trigger] b.queues[q];
            let taken = queue.received.len() - queue.waiting.len();
            &&& 0 <= taken
            &&& queue.waiting == queue.received.skip(taken)
            &&& !queue.open ==> queue.waiting.len() == 0
        }) by {
            assert(a.fed_queue(q));
        }
        lemma_quiet_consistent(a, b);
    }
}

/// Callbacks do not depend on who has a handle of what.
proof fn lemma_retained_sound<T>(a: NetworkView<T>, v: Value<T>, s: int, entry: Entry<T>)
    requires
        a.is_source(s),
        a.sound_entry(s, entry),
    ensures
        a.retain(v).sound_entry(s, entry),
{
    let b = a.retain(v);
    assert forall|m: int| a.is_source(m) implies (#[trigger] b.sources[m]).shape
        == a.sources[m].shape && b.sources[m].origin == a.sources[m].origin && b.sources[m].ended
        == a.sources[m].ended by {
        assert(b.sources[m] == a.retained_source(v, m));
    }
    assert(b.sources[s].shape == a.sources[s].shape);
    match entry.reaction {
        Reaction::Mapped { target, .. } => {
            assert(b.sources[target].shape == a.sources[target].shape);
        },
        Reaction::FilterSome { target } => {
            assert(b.sources[target].shape == a.sources[target].shape);
        },
        Reaction::Merge { target, .. } => {
            assert(b.sources[target].shape == a.sources[target].shape);
        },
        Reaction::Switch { target } => {
            assert(b.sources[target].shape == a.sources[target].shape);
        },
        Reaction::Switched { target, .. } => {
            assert(b.sources[target].shape == a.sources[target].shape);
        },
        Reaction::Snapshot { target, .. } => {
            assert(b.sources[target].shape == a.sources[target].shape);
        },
        _ => {},
    }
}

/// Handing out a value without streams changes nothing.
pub proof fn lemma_retain_nothing<T>(a: NetworkView<T>, v: Value<T>, shape: Shape)
    requires
        v.fits(shape),
        shape.is_plain(),
    ensures
        a.retain(v) == a,
{
    assert forall|s: int| a.is_source(s) implies a.retain(v).sources[s]
        == #[trigger] a.sources[s] by {
        v.lemma_plain(shape, a.number, s);
    }
    assert(a.retain(v).sources =~= a.sources);
}

/// Taking the first event out of a queue keeps a network in order if somebody has
/// handles of the streams in it.
proof fn lemma_queues_valid<T>(a: NetworkView<T>, b: NetworkView<T>, queue: int)
    requires
        a.valid(),
        a.is_queue(queue),
        a.queues[queue].waiting.len() > 0,
        forall|s: int|
            a.is_source(s) && #[trigger] a.mentions(a.queues[queue].waiting.first(), s)
                ==> a.sources[s].is_held(),
        b == (NetworkView {
            queues: a.queues.update(
                queue,
                QueueView { waiting: a.queues[queue].waiting.drop_first(), ..a.queues[queue] },
            ),
            ..a
        }),
    ensures
        b.valid(),
{
    assert(b.sources == a.sources && b.cells == a.cells && b.tokens == a.tokens);
    assert(forall|q: int| a.is_queue(q) ==> (#[trigger] b.queues[q]).open == a.queues[q].open);
    assert forall|s: int| b.is_source(s) implies #[trigger] b.sound_source(s) by {
        assert(a.sound_source(s));
        assert forall|i: int| 0 <= i < b.sources[s].callbacks.len() implies b.sound_entry(
            s,
            #[trigger] b.sources[s].callbacks[i],
        ) by {
            assert(a.sound_entry(s, a.sources[s].callbacks[i]));
        }
    }
    assert forall|k: int| b.is_cell(k) implies #[trigger] b.sound_cell(k) by {
        assert(a.sound_cell(k));
    }
    assert forall|q: int| b.is_queue(q) implies #[trigger] b.sound_queue(q) by {
        assert(a.sound_queue(q));
    }
    lemma_held_is_alive(b);
    assert(a.upholds(b)) by {
        assert forall|s: int, i: int|
            a.is_source(s) && 0 <= i < a.sources[s].callbacks.len() implies
            #[trigger] a.keeps_live(b, s, i) by {
            assert(b.sources[s].callbacks[i] == a.sources[s].callbacks[i]);
        }
        assert(forall|j: int, k: int| #[trigger] a.rests_on(j, k) ==> b.rests_on(j, k));
        assert(forall|s: int| #[trigger] a.sources[s] == b.sources[s]);
        assert(forall|k: int| #[trigger] a.cells[k] == b.cells[k]);
        assert(forall|k: int, s: int|
            #[trigger] a.holds_stream(k, s) ==> b.holds_stream(k, s));
        assert forall|q: int, i: int, s: int|
            a.is_source(s) && #[trigger] a.waits(q, i, s) implies b.alive(s) by {
            if q == queue && i == 0 {
                assert(a.mentions(a.queues[queue].waiting.first(), s));
                assert(b.sources[s].is_held());
            } else if q == queue {
                assert(b.queues[q].waiting[i - 1] == a.queues[q].waiting[i]);
                assert(b.waits(q, i - 1, s));
                alive_is_held_or_rested_on(b, s);
            } else {
                assert(b.waits(q, i, s));
                alive_is_held_or_rested_on(b, s);
            }
        }
    }
    lemma_upholds(a, b);
    lemma_ended(b);
    assert forall|s: int| b.is_source(s) implies (#[trigger] b.sources[s]).ended == !b.alive(s)
        && (b.sources[s].ended ==> b.sources[s].callbacks.len() == 0) by {
        assert(a.sources[s].ended == !a.alive(s));
    }
    assert forall|k: int| b.is_cell(k) implies (#[trigger] b.cells[k]).ended
        == !b.alive_cell(k) by {
        assert(a.cells[k].ended == !a.alive_cell(k));
    }
    if !a.poisoned {
        assert forall|q: int| b.is_queue(q) implies ({
            let queue = #[trigger] b.queues[q];
            let taken = queue.received.len() - queue.waiting.len();
            &&& 0 <= taken
            &&& queue.waiting == queue.received.skip(taken)
            &&& !queue.open ==> queue.waiting.len() == 0
        }) by {
            assert(a.fed_queue(q));
            if q == queue {
                let received = a.queues[q].received;
                let waiting = a.queues[q].waiting;
                let taken = received.len() - waiting.len();
                assert(waiting.drop_first() =~= received.skip(taken + 1));
            }
        }
        lemma_quiet_consistent(a, b);
    }
}

/// Consistency does not depend on who has a handle of what, nor on what waits.
proof fn lemma_quiet_consistent<T>(a: NetworkView<T>, b: NetworkView<T>)
    requires
        a.sound(),
        a.consistent(),
        b.sources.len() == a.sources.len(),
        forall|s: int|
            a.is_source(s) ==> (#[trigger] b.sources[s]) == (SourceView {
                pinned: b.sources[s].pinned,
                released: b.sources[s].released,
                ..a.sources[s]
            }),
        b.cells.len() == a.cells.len(),
        forall|k: int|
            a.is_cell(k) ==> (#[trigger] b.cells[k]) == (CellView {
                released: b.cells[k].released,
                ..a.cells[k]
            }),
        b.queues.len() == a.queues.len(),
        forall|q: int|
            a.is_queue(q) ==> (#[trigger] b.queues[q]) == (QueueView {
                waiting: b.queues[q].waiting,
                open: b.queues[q].open,
                ..a.queues[q]
            }) && (b.queues[q].open ==> a.queues[q].open),
        b.tokens == a.tokens,
        forall|q: int| b.is_queue(q) ==> {
            let queue = #[trigger] b.queues[q];
            let taken = queue.received.len() - queue.waiting.len();
            &&& 0 <= taken
            &&& queue.waiting == queue.received.skip(taken)
            &&& !queue.open ==> queue.waiting.len() == 0
        },
    ensures
        b.consistent(),
{
    let none: Progress = Map::empty();
    assert forall|s: int, i: int| b.is_callback(s, i) implies ({
        let entry = #[trigger] b.sources[s].callbacks[i];
        &&& a.is_callback(s, i)
        &&& a.sources[s].callbacks[i] == entry
        &&& a.sound_entry(s, entry)
        &&& b.disappeared(entry) || b.place(entry) == a.place(entry)
        &&& a.disappeared(entry) ==> b.disappeared(entry)
    }) by {
        assert(a.sound_source(s));
        assert(b.sources[s].callbacks == a.sources[s].callbacks);
        let entry = a.sources[s].callbacks[i];
        assert(a.sound_entry(s, entry));
        lemma_quiet_place(a, b, s, entry);
    }
    assert forall|s: int, i: int| b.is_callback(s, i) implies #[trigger] b.up_to_date(
        none,
        s,
        i,
    ) by {
        let entry = b.sources[s].callbacks[i];
        assert(a.up_to_date(none, s, i));
        assert(b.heard(s, entry, 0) == a.heard(s, entry, 0));
        lemma_quiet_effect(a, b, s, entry, a.heard(s, entry, 0));
    }
    assert forall|s: int, i: int, t: int, j: int|
        b.is_callback(s, i) && b.is_callback(t, j) implies #[trigger] b.apart(s, i, t, j) by {
        assert(a.apart(s, i, t, j));
        let x = b.sources[s].callbacks[i];
        let y = b.sources[t].callbacks[j];
        assert(a.sources[s].callbacks[i] == x && a.sources[t].callbacks[j] == y);
    }
    assert forall|s: int, reaction: Reaction<T>, since: nat|
        #![trigger a.has(s, reaction, since)]
        a.has(s, reaction, since) implies b.has(s, reaction, since) by {
        assert(b.sources[s].callbacks == a.sources[s].callbacks);
    }
    assert forall|m: int| b.is_source(m) implies #[trigger] b.fed_source(m) by {
        assert(a.fed_source(m));
        if !b.sources[m].ended {
            match a.sources[m].origin {
                Origin::Switch { parent, since } => {
                    assert(a.has(parent, Reaction::Switch { target: m }, since));
                    assert forall|s: int| a.is_source(s) implies a.sources[s].history.is_prefix_of(
                        (#[trigger] b.sources[s]).history,
                    ) by {
                        let x = a.sources[s].history;
                        assert(x =~= x.subrange(0, x.len() as int));
                    }
                    lemma_in_turn_stays(a, b, m);
                    assert(a.sources[m].turns.len() > 0 ==> b.follows(m));
                },
                Origin::Snapshot { parent, since, signal, f } => {
                    assert(a.has(parent, Reaction::Snapshot { signal, f, target: m }, since));
                    assert(a.sound_cell(signal));
                    let cell = a.resolve(signal);
                    assert(b.cells[signal].content == a.cells[signal].content);
                    assert(b.cells[cell].content == a.cells[cell].content);
                    assert(b.own_samples(m));
                },
                _ => {},
            }
        }
    }
    assert forall|k: int| b.is_cell(k) implies #[trigger] b.fed_cell(k) by {
        assert(a.fed_cell(k));
        assert(b.cells[k].origin == a.cells[k].origin);
    }
    assert forall|q: int| b.is_queue(q) implies #[trigger] b.fed_queue(q) by {
        assert(a.fed_queue(q));
        assert(b.queues[q].parent == a.queues[q].parent);
    }
    assert forall|m: int, n: int|
        b.is_source(m) && b.is_source(n) && m != n && (#[trigger] b.sources[m]).terminate
            is Some implies b.sources[m].terminate != (#[trigger] b.sources[n]).terminate by {
        assert(a.sources[m].terminate != a.sources[n].terminate);
    }
}

/// Callbacks have their effects where they had them, or nowhere.
proof fn lemma_quiet_place<T>(a: NetworkView<T>, b: NetworkView<T>, s: int, entry: Entry<T>)
    requires
        a.sound_entry(s, entry),
        forall|m: int| a.is_source(m) ==> (#[trigger] b.sources[m]).ended == a.sources[m].ended,
        forall|k: int| a.is_cell(k) ==> (#[trigger] b.cells[k]).ended == a.cells[k].ended,
        forall|q: int| a.is_queue(q) && (#[trigger] b.queues[q]).open ==> a.queues[q].open,
        b.tokens == a.tokens,
    ensures
        b.disappeared(entry) || b.place(entry) == a.place(entry),
        a.disappeared(entry) ==> b.disappeared(entry),
{
    match entry.reaction {
        Reaction::Mapped { target, .. } => {
            assert(b.sources[target].ended == a.sources[target].ended);
        },
        Reaction::FilterSome { target } => {
            assert(b.sources[target].ended == a.sources[target].ended);
        },
        Reaction::Merge { target, .. } => {
            assert(b.sources[target].ended == a.sources[target].ended);
        },
        Reaction::Switch { target } => {
            assert(b.sources[target].ended == a.sources[target].ended);
        },
        Reaction::Switched { target, .. } => {
            assert(b.sources[target].ended == a.sources[target].ended);
        },
        Reaction::Snapshot { target, .. } => {
            assert(b.sources[target].ended == a.sources[target].ended);
        },
        Reaction::Hold { cell } => {
            assert(b.cells[cell].ended == a.cells[cell].ended);
        },
        Reaction::ScanMut { cell, .. } => {
            assert(b.cells[cell].ended == a.cells[cell].ended);
        },
        Reaction::Events { queue } => {
            assert(b.queues[queue].open ==> a.queues[queue].open);
        },
    }
}

/// The effects of callbacks are as they were.
proof fn lemma_quiet_effect<T>(
    a: NetworkView<T>,
    b: NetworkView<T>,
    s: int,
    entry: Entry<T>,
    heard: Seq<Value<T>>,
)
    requires
        a.sound_entry(s, entry),
        a.holds(s, entry, heard),
        a.disappeared(entry) ==> b.disappeared(entry),
        forall|m: int|
            a.is_source(m) ==> (#[trigger] b.sources[m]) == (SourceView {
                pinned: b.sources[m].pinned,
                released: b.sources[m].released,
                ..a.sources[m]
            }),
        forall|k: int|
            a.is_cell(k) ==> (#[trigger] b.cells[k]) == (CellView {
                released: b.cells[k].released,
                ..a.cells[k]
            }),
        forall|q: int|
            a.is_queue(q) ==> (#[trigger] b.queues[q]) == (QueueView {
                waiting: b.queues[q].waiting,
                open: b.queues[q].open,
                ..a.queues[q]
            }),
    ensures
        b.holds(s, entry, heard),
{
    match entry.reaction {
        Reaction::Mapped { target, .. } => {
            assert(b.sources[target].history == a.sources[target].history);
        },
        Reaction::FilterSome { target } => {
            assert(b.sources[target].history == a.sources[target].history);
        },
        Reaction::Merge { target, .. } => {
            assert(b.sources[target].origin == a.sources[target].origin);
        },
        Reaction::Switch { target } => {
            assert(b.sources[target].turns == a.sources[target].turns);
        },
        Reaction::Switched { target, .. } => {
            assert(b.sources[target].turns == a.sources[target].turns);
        },
        Reaction::Snapshot { target, .. } => {
            assert(b.sources[target].history == a.sources[target].history);
            assert(b.sources[target].causes == a.sources[target].causes);
        },
        Reaction::Hold { cell } => {
            assert(b.cells[cell].content == a.cells[cell].content);
        },
        Reaction::ScanMut { cell, .. } => {
            assert(b.cells[cell].content == a.cells[cell].content);
            assert(b.cells[cell].updates == a.cells[cell].updates);
        },
        Reaction::Events { queue } => {
            assert(b.queues[queue].received == a.queues[queue].received);
        },
    }
}

/// What is left when handles and listeners are gone, and what was not alive
/// without them has ended, is in order.
pub proof fn lemma_lets_go_valid<T>(a: NetworkView<T>, b: NetworkView<T>)
    requires
        a.valid(),
        a.lets_go(b),
    ensures
        b.sound(),
        b.sweep().valid(),
{
    assert forall|s: int| b.is_source(s) implies #[trigger] b.sound_source(s) by {
        assert(a.sound_source(s));
        assert(b.sources[s].callbacks == a.sources[s].callbacks);
        assert forall|i: int| 0 <= i < b.sources[s].callbacks.len() implies b.sound_entry(
            s,
            #[trigger] b.sources[s].callbacks[i],
        ) by {
            let entry = a.sources[s].callbacks[i];
            assert(a.sound_entry(s, entry));
            lemma_quiet_place(a, b, s, entry);
            lemma_quiet_sound(a, b, s, entry);
        }
    }
    assert forall|k: int| b.is_cell(k) implies #[trigger] b.sound_cell(k) by {
        assert(a.sound_cell(k));
        assert(b.cells[k].content == a.cells[k].content);
        match a.cells[k].content {
            ContentView::Alias(j) => {
                assert(b.cells[j].content == a.cells[j].content);
            },
            ContentView::Combined { state, other, .. } => {
                assert(b.cells[state].shape == a.cells[state].shape);
                assert(b.cells[other].shape == a.cells[other].shape);
            },
            _ => {},
        }
    }
    assert forall|q: int| b.is_queue(q) implies #[trigger] b.sound_queue(q) by {
        assert(a.sound_queue(q));
        assert(b.queues[q].shape == a.queues[q].shape);
    }
    lemma_sweep_sound(b);
    if !a.poisoned {
        assert forall|q: int| b.is_queue(q) implies ({
            let queue = #[trigger] b.queues[q];
            let taken = queue.received.len() - queue.waiting.len();
            &&& 0 <= taken
            &&& queue.waiting == queue.received.skip(taken)
            &&& !queue.open ==> queue.waiting.len() == 0
        }) by {
            assert(a.fed_queue(q));
            let received = a.queues[q].received;
            assert(received.skip(received.len() as int) =~= Seq::empty());
        }
        lemma_quiet_consistent(a, b);
        lemma_sweep_consistent(b);
    }
}

/// Callbacks still find what they refer to.
proof fn lemma_quiet_sound<T>(a: NetworkView<T>, b: NetworkView<T>, s: int, entry: Entry<T>)
    requires
        a.is_source(s),
        a.sound_entry(s, entry),
        a.lets_go(b),
    ensures
        b.sound_entry(s, entry),
{
    assert(b.sources[s].shape == a.sources[s].shape);
    match entry.reaction {
        Reaction::Mapped { target, .. } => {
            assert(b.sources[target].shape == a.sources[target].shape);
        },
        Reaction::FilterSome { target } => {
            assert(b.sources[target].shape == a.sources[target].shape);
        },
        Reaction::Merge { target, .. } => {
            assert(b.sources[target].shape == a.sources[target].shape);
        },
        Reaction::Switch { target } => {
            assert(b.sources[target].shape == a.sources[target].shape);
        },
        Reaction::Switched { target, .. } => {
            assert(b.sources[target].shape == a.sources[target].shape);
        },
        Reaction::Snapshot { signal, target, .. } => {
            assert(b.sources[target].shape == a.sources[target].shape);
            assert(b.cells[signal].shape == a.cells[signal].shape);
        },
        Reaction::Hold { cell } => {
            assert(b.cells[cell].shape == a.cells[cell].shape);
        },
        Reaction::ScanMut { cell, .. } => {
            assert(b.cells[cell].shape == a.cells[cell].shape);
        },
        Reaction::Events { queue } => {
            assert(b.queues[queue].shape == a.queues[queue].shape);
        },
    }
}

/// A network stays in order when the last handle of a stream, a sink or a
/// signal, or a listener, is gone.
pub proof fn lemma_release_valid<T>(a: NetworkView<T>, n: int)
    requires
        a.valid(),
    ensures
        a.is_source(n) ==> a.release(n).valid() && a.let_go(n).sound(),
        a.is_source(n) ==> a.unpin(n).valid(),
        a.is_cell(n) ==> a.release_cell(n).valid(),
        a.is_queue(n) ==> a.close(n).valid() && a.shut(n).sound(),
{
    if a.is_source(n) {
        lemma_lets_go_valid(a, a.let_go(n));
        let free = a.with_source(n, SourceView { pinned: false, ..a.sources[n] });
        lemma_lets_go_valid(a, free);
    }
    if a.is_cell(n) {
        let cell = CellView { released: true, ..a.cells[n] };
        lemma_lets_go_valid(a, NetworkView { cells: a.cells.update(n, cell), ..a });
    }
    if a.is_queue(n) {
        lemma_lets_go_valid(a, a.shut(n));
    }
}

/// Whether a signal has a value depends on nothing but signals.
pub proof fn lemma_same_defined<T>(a: NetworkView<T>, b: NetworkView<T>, k: int)
    requires
        b.cells == a.cells,
    ensures
        b.defined(k) == a.defined(k),
    decreases k,
{
    if a.is_cell(k) {
        if let ContentView::Combined { state, other, .. } = a.cells[k].content {
            if 0 <= state < k && 0 <= other < k {
                lemma_same_defined(a, b, state);
                lemma_same_defined(a, b, other);
            }
        }
    }
}

/// A cell that is defined stays so when other cells are added.
pub proof fn lemma_defined_grows<T>(a: NetworkView<T>, b: NetworkView<T>, k: int)
    requires
        a.defined(k),
        a.cells.len() <= b.cells.len(),
        forall|j: int| a.is_cell(j) ==> #[trigger] b.cells[j] == a.cells[j],
    ensures
        b.defined(k),
    decreases k,
{
    assert(b.cells[k] == a.cells[k]);
    if let ContentView::Combined { state, other, f } = a.cells[k].content {
        lemma_defined_grows(a, b, state);
        lemma_defined_grows(a, b, other);
    }
}

} // verus!
