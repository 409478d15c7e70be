//! The laws of users' functions: what is kept of them, and how often they are applied.
//!
//! Applying a function is asking for a result that is used. Each application is
//! told by what it brought about: a stream made by `map`, `filter`, `filter_map` or
//! `snapshot` has fired, or an accumulator has been updated.
use crate::function::{chosen, mapped, mapped2, mapped_on, selected};
use crate::model::{both, CellView, Entry, NetworkView, Origin, Reaction, SourceView};
use crate::signal::Signal;
use crate::sound::{
    lemma_can_be_fits, lemma_deliver_sound, lemma_fire_sound, lemma_hear_sound, lemma_prune_sound,
    lemma_react_sound, lemma_record_sound, lemma_same_sound, lemma_take_sound,
};
use crate::stream::{Sink, Stream};
use crate::stream_laws::{lemma_effect, lemma_sends, map_fires_images, runs};
use crate::value::{Carried, Event, Item, Value};
use vstd::prelude::*;

verus! {

// ---- Kept functions ----

/// A function that a network keeps can be applied to what the function can be applied
/// to, and gives what the function gives.
pub proof fn a_kept_function_is_the_function<T: Item, A: Carried<T>, B: Carried<T>, F: Fn(A) -> B>(
    f: F,
    a: A,
    b: B,
)
    ensures
        (mapped::<T, A, B, F>(f).domain)(a.encode()) <==> f.requires((a,)),
        (mapped::<T, A, B, F>(f).promise)(a.encode(), b.encode()) <==> f.ensures((a,), b),
{
    a.encoded();
    b.encoded();
}

/// The same of a function of two arguments.
pub proof fn a_kept_function_of_two_is_the_function<
    T: Item,
    A: Carried<T>,
    B: Carried<T>,
    C: Carried<T>,
    F: Fn(A, B) -> C,
>(f: F, a: A, b: B, c: C)
    ensures
        (mapped2::<T, A, B, C, F>(f).domain)((a.encode(), b.encode())) <==> f.requires((a, b)),
        (mapped2::<T, A, B, C, F>(f).promise)((a.encode(), b.encode()), c.encode())
            <==> f.ensures((a, b), c),
{
    a.encoded();
    b.encoded();
    c.encoded();
}

/// The same of a function that borrows its first argument.
pub proof fn a_kept_reader_is_the_function<
    T: Item,
    A: Carried<T>,
    B: Carried<T>,
    C: Carried<T>,
    F: Fn(&A, B) -> C,
>(f: F, a: A, b: B, c: C)
    ensures
        (mapped_on::<T, A, B, C, F>(f).domain)((a.encode(), b.encode())) <==> f.requires((&a, b)),
        (mapped_on::<T, A, B, C, F>(f).promise)((a.encode(), b.encode()), c.encode())
            <==> f.ensures((&a, b), c),
{
    a.encoded();
    b.encoded();
    c.encoded();
}

/// A predicate that a network keeps can be applied to what the predicate can be applied
/// to, and gives the event exactly if the predicate can accept it, and nothing exactly
/// if it can reject it.
pub proof fn a_kept_predicate_is_the_predicate<T: Item, A: Event<T>, F: Fn(&A) -> bool>(f: F, a: A)
    ensures
        (selected::<T, A, F>(f).domain)(a.encode()) <==> f.requires((&a,)),
        (selected::<T, A, F>(f).promise)(
            a.encode(),
            <Option<A> as Carried<T>>::encode(Some(a)),
        ) <==> f.ensures((&a,), true),
        (selected::<T, A, F>(f).promise)(
            a.encode(),
            <Option<A> as Carried<T>>::encode(None),
        ) <==> f.ensures((&a,), false),
{
    a.encoded();
    if f.ensures((&a,), true) {
        assert(chosen(a, true) == Some(a));
    }
    if f.ensures((&a,), false) {
        assert(chosen(a, false) == None::<A>);
    }
}

// ---- Counting ----

/// The results that one event of a source takes: of a snapshot the value of the
/// signal and the image, of a mapped stream the image.
pub open spec fn results_per_event<T>(origin: Origin<T>) -> nat {
    match origin {
        Origin::Mapped { .. } => 1,
        Origin::Snapshot { .. } => 2,
        _ => 0,
    }
}

/// The results that a source has taken so far.
pub open spec fn source_uses<T>(source: SourceView<T>) -> nat {
    results_per_event(source.origin) * source.history.len()
}

/// The results that a cell has taken so far: one for each update.
pub open spec fn cell_uses<T>(cell: CellView<T>) -> nat {
    if cell.origin is ScanMut {
        cell.updates.len()
    } else {
        0
    }
}

/// The results that the sources have taken so far.
pub open spec fn uses_of_sources<T>(sources: Seq<SourceView<T>>) -> nat
    decreases sources.len(),
{
    if sources.len() == 0 {
        0
    } else {
        uses_of_sources(sources.drop_last()) + source_uses(sources.last())
    }
}

/// The results that the cells have taken so far.
pub open spec fn uses_of_cells<T>(cells: Seq<CellView<T>>) -> nat
    decreases cells.len(),
{
    if cells.len() == 0 {
        0
    } else {
        uses_of_cells(cells.drop_last()) + cell_uses(cells.last())
    }
}

impl<T> NetworkView<T> {
    /// The results that everything in the network has taken so far: one for each
    /// application of a function and each sampling of a signal.
    pub open spec fn uses(self) -> nat {
        uses_of_sources(self.sources) + uses_of_cells(self.cells)
    }

    /// How often the function of the source `m` has been applied.
    pub open spec fn applications(self, m: int) -> nat {
        if results_per_event(self.sources[m].origin) > 0 {
            self.sources[m].history.len()
        } else {
            0
        }
    }
}

proof fn lemma_one_source<T>(sources: Seq<SourceView<T>>, i: int, source: SourceView<T>)
    requires
        0 <= i < sources.len(),
    ensures
        uses_of_sources(sources.update(i, source)) + source_uses(sources[i]) == uses_of_sources(
            sources,
        ) + source_uses(source),
    decreases sources.len(),
{
    let other = sources.update(i, source);
    if i == sources.len() - 1 {
        assert(other.drop_last() =~= sources.drop_last());
    } else {
        assert(other.drop_last() =~= sources.drop_last().update(i, source));
        lemma_one_source(sources.drop_last(), i, source);
    }
}

proof fn lemma_one_cell<T>(cells: Seq<CellView<T>>, i: int, cell: CellView<T>)
    requires
        0 <= i < cells.len(),
    ensures
        uses_of_cells(cells.update(i, cell)) + cell_uses(cells[i]) == uses_of_cells(cells)
            + cell_uses(cell),
    decreases cells.len(),
{
    let other = cells.update(i, cell);
    if i == cells.len() - 1 {
        assert(other.drop_last() =~= cells.drop_last());
    } else {
        assert(other.drop_last() =~= cells.drop_last().update(i, cell));
        lemma_one_cell(cells.drop_last(), i, cell);
    }
}

proof fn lemma_same_sources<T>(x: Seq<SourceView<T>>, y: Seq<SourceView<T>>)
    requires
        x.len() == y.len(),
        forall|i: int| 0 <= i < x.len() ==> source_uses(#[trigger] y[i]) == source_uses(x[i]),
    ensures
        uses_of_sources(y) == uses_of_sources(x),
    decreases x.len(),
{
    if x.len() > 0 {
        lemma_same_sources(x.drop_last(), y.drop_last());
    }
}

proof fn lemma_same_cells<T>(x: Seq<CellView<T>>, y: Seq<CellView<T>>)
    requires
        x.len() == y.len(),
        forall|i: int| 0 <= i < x.len() ==> cell_uses(#[trigger] y[i]) == cell_uses(x[i]),
    ensures
        uses_of_cells(y) == uses_of_cells(x),
    decreases x.len(),
{
    if x.len() > 0 {
        lemma_same_cells(x.drop_last(), y.drop_last());
    }
}

impl<T> NetworkView<T> {
    /// On the way to `next` as many results have been used as everything has taken,
    /// besides `more`.
    pub open spec fn uses_up(self, next: NetworkView<T>, more: nat) -> bool {
        next.is_real() && !next.poisoned ==> next.uses() - self.uses() == next.returned.len()
            - self.returned.len() + more
    }
}

proof fn lemma_fire_uses<T>(
    a: NetworkView<T>,
    all: Seq<Value<T>>,
    idle: Set<int>,
    id: int,
    v: Value<T>,
    cause: Value<T>,
)
    requires
        a.sound(),
        a.is_source(id),
        v.fits(a.sources[id].shape),
    ensures
        a.uses_up(
            a.fire(all, idle, id, v, cause),
            results_per_event(a.sources[id].origin),
        ),
    decreases idle.len(), 0int, 0int,
{
    if idle.finite() && idle.contains(id) {
        let b = a.record(id, v, cause);
        let rest = idle.remove(id);
        let count = b.sources[id].callbacks.len();
        let c = b.deliver(all, rest, id, v, count);
        let d = c.prune(id);
        lemma_record_sound(a, id, v, cause);
        lemma_deliver_sound(b, all, rest, id, v, count);
        lemma_prune_sound(c, id);
        lemma_deliver_uses(b, all, rest, id, v, count);
        lemma_one_source(a.sources, id, b.sources[id]);
        assert(source_uses(b.sources[id]) == source_uses(a.sources[id]) + results_per_event(
            a.sources[id].origin,
        )) by (nonlinear_arith)
            requires
                b.sources[id].origin == a.sources[id].origin,
                b.sources[id].history.len() == a.sources[id].history.len() + 1,
                source_uses(b.sources[id]) == results_per_event(b.sources[id].origin)
                    * b.sources[id].history.len(),
                source_uses(a.sources[id]) == results_per_event(a.sources[id].origin)
                    * a.sources[id].history.len(),
        ;
        lemma_same_sources(c.sources, d.sources);
    }
}

proof fn lemma_deliver_uses<T>(
    a: NetworkView<T>,
    all: Seq<Value<T>>,
    idle: Set<int>,
    id: int,
    v: Value<T>,
    count: nat,
)
    requires
        a.sound(),
        a.is_source(id),
        v.fits(a.sources[id].shape),
        !idle.contains(id),
        count <= a.sources[id].callbacks.len(),
    ensures
        a.uses_up(a.deliver(all, idle, id, v, count), 0),
    decreases idle.len(), 2int, count,
{
    if count > 0 {
        let less = (count - 1) as nat;
        let b = a.deliver(all, idle, id, v, less);
        lemma_deliver_sound(a, all, idle, id, v, less);
        lemma_deliver_uses(a, all, idle, id, v, less);
        assert(a.sources[id].callbacks.is_prefix_of(b.sources[id].callbacks));
        assert(b.sources[id].shape == a.sources[id].shape);
        assert(b.sound_source(id));
        let entry = b.sources[id].callbacks[less as int];
        let c = b.answer_to(all, idle, entry, v);
        assert(a.deliver(all, idle, id, v, count) == c);
        assert(b.sound_entry(id, entry));
        if !b.disappeared(entry) {
            lemma_react_sound(b, all, idle, id, entry, v);
            lemma_react_uses(b, all, idle, id, entry, v);
        }
    }
}

proof fn lemma_react_uses<T>(
    a: NetworkView<T>,
    all: Seq<Value<T>>,
    idle: Set<int>,
    id: int,
    entry: Entry<T>,
    v: Value<T>,
)
    requires
        a.sound(),
        a.is_source(id),
        a.sound_entry(id, entry),
        !a.disappeared(entry),
        v.fits(a.sources[id].shape),
    ensures
        a.uses_up(a.react(all, idle, entry.reaction, v), 0),
    decreases idle.len(), 1int, 0int,
{
    let b = a.react(all, idle, entry.reaction, v);
    match entry.reaction {
        Reaction::Mapped { f, target } => {
            if let Some(w) = a.answer(all) {
                if (f.domain)(v) && (f.promise)(v, w) {
                    let c = a.take(w);
                    lemma_take_sound(a, w, idle);
                    lemma_fire_uses(c, all, idle, target, w, v);
                }
            }
        },
        Reaction::FilterSome { target } => {
            if let Some(w) = v.contained() {
                lemma_fire_uses(a, all, idle, target, w, v);
            }
        },
        Reaction::Merge { left, target } => {
            let c = a.hear(target, left, v);
            lemma_hear_sound(a, target, left, v);
            assert(c.sources[target].shape == a.sources[target].shape);
            lemma_one_source(a.sources, target, c.sources[target]);
            lemma_fire_uses(c, all, idle, target, v, v);
        },
        Reaction::Switch { target } => {
            lemma_same_sources(a.sources, b.sources);
        },
        Reaction::Switched { target, .. } => {
            lemma_fire_uses(a, all, idle, target, v, v);
        },
        Reaction::Snapshot { signal, f, target } => {
            if let Some(x) = a.answer(all) {
                if let Some(w) = a.take(x).answer(all) {
                    if a.defined(signal) && a.is_safe(signal) && a.can_be(signal, x) && (f.domain)(
                        (x, v),
                    ) && (f.promise)((x, v), w) {
                        let c = a.take(x).take(w);
                        lemma_can_be_fits(a, signal, x);
                        assert(a.returned =~= c.returned.subrange(0, a.returned.len() as int));
                        lemma_same_sound(a, c, idle);
                        lemma_fire_uses(c, all, idle, target, w, both(x, v));
                    }
                }
            }
        },
        Reaction::Events { .. } => {},
        Reaction::Hold { cell } => {
            lemma_one_cell(a.cells, cell, b.cells[cell]);
        },
        Reaction::ScanMut { cell, f } => {
            lemma_one_cell(a.cells, cell, b.cells[cell]);
        },
    }
}

// ---- How often functions are applied ----

/// In a send every event of a mapped stream takes exactly one application of its
/// function, every snapshot one sampling and one application, and every update of an
/// accumulator one application; nothing else is asked for a result.
pub proof fn every_event_takes_one_application<T: Item, A: Event<T>>(
    network: NetworkView<T>,
    sink: Sink<A>,
    a: A,
    next: NetworkView<T>,
)
    requires
        network.valid(),
        sink.within(network),
        network.sends(sink.id(), a.encode(), next),
        !next.poisoned,
    ensures
        next.returned.len() - network.returned.len() == next.uses() - network.uses(),
{
    let id = sink.id();
    let v = a.encode();
    a.encoded();
    lemma_sends(network, id, v, next);
    let fired = network.fire(next.returned, network.ids(), id, v, v);
    lemma_fire_sound(network, next.returned, network.ids(), id, v, v);
    lemma_fire_uses(network, next.returned, network.ids(), id, v, v);
    assert forall|s: int| 0 <= s < fired.sources.len() implies source_uses(
        #[trigger] next.sources[s],
    ) == source_uses(fired.sources[s]) by {
        assert(next.sources[s] == fired.swept_source(s));
    }
    assert forall|k: int| 0 <= k < fired.cells.len() implies cell_uses(
        #[trigger] next.cells[k],
    ) == cell_uses(fired.cells[k]) by {
        assert(next.cells[k] == fired.swept_cell(k));
    }
    lemma_same_sources(fired.sources, next.sources);
    lemma_same_cells(fired.cells, next.cells);
}

/// Making something applies no function, nor does handing something out.
pub proof fn making_applies_nothing<T>(network: NetworkView<T>, next: NetworkView<T>)
    requires
        network.grows_to(next) || network.hands_out(next),
    ensures
        next.returned == network.returned,
{
}

/// The function of a mapped stream has been applied exactly once to each event since
/// the stream was made, whoever listens to it, and its result is what everybody gets.
pub proof fn map_applies_once_per_event<T: Item, A: Event<T>, B: Event<T>, F: Fn(A) -> B>(
    network: NetworkView<T>,
    stream: Stream<A>,
    since: nat,
    f: F,
    image: Stream<B>,
)
    requires
        runs(network),
        stream.known(network),
        image.lives(network),
        network.sources[image.id()].origin == (Origin::Mapped {
            parent: stream.id(),
            since,
            f: mapped::<T, A, B, F>(f),
        }),
    ensures
        network.applications(image.id()) == stream.history(network).len() - since,
        image.history(network).len() == network.applications(image.id()),
{
    map_fires_images::<T, A, B, F>(network, stream, since, f, image);
}

/// The predicate of a filtered stream has been applied exactly once to each event
/// since the stream was made, whether or not it was accepted.
pub proof fn filter_applies_once_per_event<T: Item, A: Event<T>, F: Fn(&A) -> bool>(
    network: NetworkView<T>,
    stream: Stream<A>,
    since: nat,
    f: F,
    options: int,
    filtered: Stream<A>,
)
    requires
        runs(network),
        stream.known(network),
        filtered.lives(network),
        network.is_source(options),
        network.sources[options].shape == <Option<A> as Carried<T>>::shape(),
        network.sources[options].origin == (Origin::Mapped {
            parent: stream.id(),
            since,
            f: selected::<T, A, F>(f),
        }),
        network.sources[filtered.id()].origin == (Origin::<T>::FilterSome {
            parent: options,
            since: 0,
        }),
    ensures
        network.applications(options) == stream.history(network).len() - since,
        network.applications(filtered.id()) == 0,
{
    lemma_options_made(network, stream.id(), since, options, filtered.id());
}

/// The function of a filtered and mapped stream has been applied exactly once to each
/// event since the stream was made, also to those for which it gave nothing.
pub proof fn filter_map_applies_once_per_event<
    T: Item,
    A: Event<T>,
    B: Event<T>,
    F: Fn(A) -> Option<B>,
>(
    network: NetworkView<T>,
    stream: Stream<A>,
    since: nat,
    f: F,
    options: int,
    filtered: Stream<B>,
)
    requires
        runs(network),
        stream.known(network),
        filtered.lives(network),
        network.is_source(options),
        network.sources[options].shape == <Option<B> as Carried<T>>::shape(),
        network.sources[options].origin == (Origin::Mapped {
            parent: stream.id(),
            since,
            f: mapped::<T, A, Option<B>, F>(f),
        }),
        network.sources[filtered.id()].origin == (Origin::<T>::FilterSome {
            parent: options,
            since: 0,
        }),
    ensures
        network.applications(options) == stream.history(network).len() - since,
        network.applications(filtered.id()) == 0,
{
    lemma_options_made(network, stream.id(), since, options, filtered.id());
}

/// There is one option for each event.
proof fn lemma_options_made<T>(
    network: NetworkView<T>,
    parent: int,
    since: nat,
    options: int,
    filtered: int,
)
    requires
        runs(network),
        network.is_source(options),
        network.is_source(filtered),
        !network.sources[filtered].ended,
        network.sources[options].origin matches Origin::Mapped { parent: p, since: n, .. } && p
            == parent && n == since,
        network.sources[filtered].origin == (Origin::<T>::FilterSome { parent: options, since: 0 }),
    ensures
        since <= network.sources[parent].history.len(),
        network.sources[options].history.len() == network.sources[parent].history.len() - since,
{
    let made = Reaction::<T>::FilterSome { target: filtered };
    assert(network.fed_source(filtered));
    lemma_effect(network, options, made, 0);
    let i = choose|i: int|
        0 <= i < network.sources[options].callbacks.len() && network.sources[options].callbacks[i]
            == (Entry { reaction: made, since: 0 });
    assert(network.sound_source(options));
    assert(network.sound_entry(options, network.sources[options].callbacks[i]));
    assert(network.fed_source(options));
    if let Origin::Mapped { f, .. } = network.sources[options].origin {
        lemma_effect(network, parent, Reaction::Mapped { f, target: options }, since);
    }
}

/// The function of a snapshot has been applied exactly once to each event since the
/// snapshot was made.
pub proof fn snapshot_applies_once_per_event<
    T: Item,
    A: Event<T>,
    B: Event<T>,
    C: Event<T>,
    F: Fn(A, B) -> C,
>(
    network: NetworkView<T>,
    signal: Signal<A>,
    stream: Stream<B>,
    since: nat,
    f: F,
    snapshots: Stream<C>,
)
    requires
        runs(network),
        signal.known(network),
        stream.known(network),
        snapshots.lives(network),
        network.sources[snapshots.id()].origin == (Origin::Snapshot {
            parent: stream.id(),
            since,
            signal: signal.id(),
            f: mapped2::<T, A, B, C, F>(f),
        }),
    ensures
        network.applications(snapshots.id()) == stream.history(network).len() - since,
        snapshots.history(network).len() == network.applications(snapshots.id()),
{
    let m = snapshots.id();
    let reaction = Reaction::Snapshot {
        signal: signal.id(),
        f: mapped2::<T, A, B, C, F>(f),
        target: m,
    };
    assert(network.fed_source(m));
    lemma_effect(network, stream.id(), reaction, since);
}

/// A function that is mapped over a stream that never fires is never applied.
pub proof fn nothing_is_applied_to_never<T: Item, A: Event<T>>(
    network: NetworkView<T>,
    stream: Stream<A>,
    m: int,
)
    requires
        runs(network),
        stream.lives(network),
        network.sources[stream.id()].origin is Never,
        network.is_source(m),
        !network.sources[m].ended,
        network.sources[m].origin matches Origin::Mapped { parent, .. } && parent == stream.id(),
    ensures
        network.applications(m) == 0,
        network.sources[m].history.len() == 0,
{
    assert(network.fed_source(stream.id()));
    assert(network.fed_source(m));
    if let Origin::Mapped { parent, since, f } = network.sources[m].origin {
        lemma_effect(network, parent, Reaction::Mapped { f, target: m }, since);
    }
}

} // verus!
