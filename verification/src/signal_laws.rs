//! The laws of signals and snapshots.
use crate::consistency::{before_update, is_snapshot, is_update, last_or, sampled, woven};
use crate::function::{mapped2, mapped_on, Binary};
use crate::model::{both, CellOrigin, ContentView, NetworkView, Origin, Reaction};
use crate::signal::{Signal, SignalMut};
use crate::sound::lemma_can_be_fits;
use crate::steady::{lemma_sent_steady, lemma_still_can_be};
use crate::stream::{decodings, Sink, Stream};
use crate::stream_laws::{
    lemma_decodings_skip, lemma_effect, lemma_sends, merge_fires_both, never_fires_nothing, runs,
};
use crate::value::{Carried, Event, Item, Value};
use vstd::prelude::*;

verus! {

/// A cell that holds what `a` travels as has the value `a` and no other.
pub proof fn lemma_is_now<T: Item, A: Carried<T>>(network: NetworkView<T>, k: int, a: A)
    requires
        forall|x: Value<T>| #[trigger] network.can_be(k, x) <==> x == a.encode(),
    ensures
        forall|b: A| #[trigger] network.can_be(k, b.encode()) <==> b == a,
{
    assert forall|b: A| #[trigger] network.can_be(k, b.encode()) implies b == a by {
        a.encoded();
        b.encoded();
    }
}

// ---- Hold ----

/// The signal made by `hold` has the value of the last event since then, or the
/// initial value if there was none.
pub proof fn hold_is_the_last_event<T: Item, A: Event<T>>(
    network: NetworkView<T>,
    stream: Stream<A>,
    since: nat,
    initial: A,
    signal: Signal<A>,
)
    requires
        runs(network),
        stream.known(network),
        signal.lives(network),
        network.cells[signal.id()].origin == (CellOrigin::Hold {
            parent: stream.id(),
            since,
            initial: initial.encode(),
        }),
    ensures
        since <= stream.history(network).len(),
        ({
            let events = stream.history(network).skip(since as int);
            signal.is_now(
                network,
                if events.len() > 0 {
                    events.last()
                } else {
                    initial
                },
            )
        }),
{
    let k = signal.id();
    let p = stream.id();
    assert(network.fed_cell(k));
    lemma_effect(network, p, Reaction::Hold { cell: k }, since);
    lemma_decodings_skip::<T, A>(network.sources[p].history, since as int);
    let events = stream.history(network).skip(since as int);
    let last = if events.len() > 0 {
        events.last()
    } else {
        initial
    };
    assert(network.sound_cell(k));
    assert(network.sound_source(p));
    if events.len() > 0 {
        A::decoded(network.sources[p].history.last());
    }
    lemma_is_now(network, k, last);
}

// ---- Scan ----

/// `steps` are what `f` can make of the events one after the other, starting
/// with `initial`: one more than there are events.
pub open spec fn accumulates<A, B, F: Fn(B, A) -> B>(
    f: F,
    initial: B,
    events: Seq<A>,
    steps: Seq<B>,
) -> bool {
    &&& steps.len() == events.len() + 1
    &&& steps[0] == initial
    &&& forall|j: int|
        0 <= j < events.len() ==> f.ensures((#[trigger] steps[j], events[j]), steps[j + 1])
}

/// The history of a snapshot of the signal that holds it: each event is made
/// of the one before it.
proof fn lemma_scanned<T>(
    network: NetworkView<T>,
    parent: int,
    since: nat,
    initial: Value<T>,
    f: Binary<T>,
    m: int,
    k: int,
)
    requires
        runs(network),
        network.is_source(m),
        network.is_cell(k),
        !network.cells[k].ended,
        network.sources[m].origin == (Origin::Snapshot { parent, since, signal: k, f }),
        network.cells[k].content matches ContentView::Alias(held) && network.cells[held].origin
            == (CellOrigin::Hold { parent: m, since: 0, initial }),
    ensures
        network.is_source(parent),
        since <= network.sources[parent].history.len(),
        ({
            let heard = network.sources[parent].history.skip(since as int);
            let made = network.sources[m].history;
            &&& made.len() == heard.len()
            &&& forall|j: int|
                0 <= j < heard.len() ==> (f.promise)(
                    (last_or(initial, made.take(j)), heard[j]),
                    #[trigger] made[j],
                )
            &&& forall|x: Value<T>| #[trigger] network.can_be(k, x) <==> x == last_or(initial, made)
        }),
{
    assert(network.sound_cell(k));
    if let ContentView::Alias(held) = network.cells[k].content {
        assert(network.fed_cell(held));
        lemma_effect(network, m, Reaction::Hold { cell: held }, 0);
    }
    assert(network.fed_source(m));
    lemma_effect(network, parent, Reaction::Snapshot { signal: k, f, target: m }, since);
    let heard = network.sources[parent].history.skip(since as int);
    let made = network.sources[m].history;
    assert(network.own_samples(m));
    assert forall|j: int| 0 <= j < heard.len() implies (f.promise)(
        (last_or(initial, made.take(j)), heard[j]),
        #[trigger] made[j],
    ) by {
        let cause = network.sources[m].causes[j];
        assert(sampled(cause) == last_or(initial, made.take(j)));
        assert(is_snapshot(f, cause, heard[j], made[j]));
    }
    if let ContentView::Alias(held) = network.cells[k].content {
        assert(network.sound_cell(k));
        assert(network.fed_cell(held));
        lemma_effect(network, m, Reaction::Hold { cell: held }, 0);
        assert(made.skip(0) =~= made);
    }
}

/// The signal made by `scan` has the value that the function accumulates of
/// the events since then, starting with the initial value. The source `results`
/// fires what has been accumulated.
#[verifier::rlimit(40)]
pub proof fn scan_accumulates<T: Item, A: Event<T>, B: Event<T>, F: Fn(B, A) -> B>(
    network: NetworkView<T>,
    stream: Stream<A>,
    since: nat,
    initial: B,
    f: F,
    results: int,
    signal: Signal<B>,
) -> (steps: Seq<B>)
    requires
        runs(network),
        stream.known(network),
        network.is_source(results),
        network.sources[results].shape == B::shape(),
        signal.lives(network),
        network.sources[results].origin == (Origin::Snapshot {
            parent: stream.id(),
            since,
            signal: signal.id(),
            f: mapped2::<T, B, A, B, F>(f),
        }),
        network.cells[signal.id()].content matches ContentView::Alias(held)
            && network.cells[held].origin == (CellOrigin::Hold {
            parent: results,
            since: 0,
            initial: initial.encode(),
        }),
    ensures
        since <= stream.history(network).len(),
        accumulates::<A, B, F>(
            f,
            initial,
            stream.history(network).skip(since as int),
            steps,
        ),
        signal.is_now(network, steps.last()),
{
    let g = mapped2::<T, B, A, B, F>(f);
    let p = stream.id();
    let first = initial.encode();
    let made = network.sources[results].history;
    lemma_scanned(network, p, since, first, g, results, signal.id());
    let values = network.sources[p].history.skip(since as int);
    let events = stream.history(network).skip(since as int);
    lemma_decodings_skip::<T, A>(network.sources[p].history, since as int);
    let steps = seq![initial] + decodings::<T, B>(made);
    initial.encoded();
    assert(network.sound_source(results));
    assert forall|j: int| 0 <= j <= made.len() implies last_or(first, made.take(j))
        == (#[trigger] steps[j]).encode() by {
        if j > 0 {
            assert(made.take(j).last() == made[j - 1]);
            B::decoded(made[j - 1]);
        }
    }
    assert forall|j: int| 0 <= j < events.len() implies f.ensures(
        (#[trigger] steps[j], events[j]),
        steps[j + 1],
    ) by {
        assert((g.promise)((last_or(first, made.take(j)), values[j]), made[j]));
        steps[j].encoded();
    }
    assert(made.take(made.len() as int) =~= made);
    assert(last_or(first, made) == steps.last().encode());
    lemma_is_now(network, signal.id(), steps.last());
    steps
}

/// The signal made by `scan_mut` has the value that the function accumulates of
/// the events since then, starting with the initial value.
pub proof fn scan_mut_accumulates<T: Item, A: Event<T>, B: Carried<T>, F: Fn(B, A) -> B>(
    network: NetworkView<T>,
    stream: Stream<A>,
    since: nat,
    initial: B,
    f: F,
    signal: SignalMut<B>,
) -> (steps: Seq<B>)
    requires
        runs(network),
        stream.known(network),
        signal.lives(network),
        network.cells[signal.id()].origin == (CellOrigin::ScanMut {
            parent: stream.id(),
            since,
            initial: initial.encode(),
            f: mapped2::<T, B, A, B, F>(f),
        }),
    ensures
        since <= stream.history(network).len(),
        accumulates::<A, B, F>(
            f,
            initial,
            stream.history(network).skip(since as int),
            steps,
        ),
        signal.is_now(network, steps.last()),
{
    let g = mapped2::<T, B, A, B, F>(f);
    let p = stream.id();
    let k = signal.id();
    let first = initial.encode();
    assert(network.fed_cell(k));
    lemma_effect(network, p, Reaction::ScanMut { cell: k, f: g }, since);
    let values = network.sources[p].history.skip(since as int);
    let events = stream.history(network).skip(since as int);
    let updates = network.cells[k].updates;
    lemma_decodings_skip::<T, A>(network.sources[p].history, since as int);
    let steps = Seq::new(
        events.len() + 1,
        |j: int| B::decode(before_update(first, updates, j))->0,
    );
    initial.encoded();
    assert forall|j: int| 0 <= j <= events.len() implies before_update(first, updates, j)
        == (#[trigger] steps[j]).encode() by {
        if j > 0 {
            assert(is_update(g, first, updates, values, j - 1));
            assert((g.promise)((updates[j - 1].0, updates[j - 1].1), updates[j - 1].2));
        }
    }
    assert forall|j: int| 0 <= j < events.len() implies f.ensures(
        (#[trigger] steps[j], events[j]),
        steps[j + 1],
    ) by {
        assert(is_update(g, first, updates, values, j));
        steps[j].encoded();
        assert(before_update(first, updates, j + 1) == updates[j].2);
    }
    lemma_is_now(network, k, steps.last());
    steps
}

/// A function that gives the same whenever it is applied to the same has one
/// way to accumulate.
proof fn lemma_one_accumulation<A, B, F: Fn(B, A) -> B>(
    f: F,
    initial: B,
    events: Seq<A>,
    steps: Seq<B>,
    others: Seq<B>,
    n: int,
)
    requires
        accumulates::<A, B, F>(f, initial, events, steps),
        accumulates::<A, B, F>(f, initial, events, others),
        forall|b: B, a: A, c: B, d: B|
            f.ensures((b, a), c) && f.ensures((b, a), d) ==> c == d,
        0 <= n <= events.len(),
    ensures
        steps[n] == others[n],
    decreases n,
{
    if n > 0 {
        lemma_one_accumulation::<A, B, F>(f, initial, events, steps, others, n - 1);
        assert(f.ensures((steps[n - 1], events[n - 1]), steps[n - 1 + 1]));
        assert(f.ensures((others[n - 1], events[n - 1]), others[n - 1 + 1]));
    }
}

/// `scan` and `scan_mut` come to the same, if they were made of the same stream
/// at the same time with the same initial value and function, and the function
/// gives the same whenever it is applied to the same.
pub proof fn scan_mut_is_scan<T: Item, A: Event<T>, B: Event<T>, F: Fn(B, A) -> B>(
    network: NetworkView<T>,
    stream: Stream<A>,
    since: nat,
    initial: B,
    f: F,
    results: int,
    scanned: Signal<B>,
    scanned_mut: SignalMut<B>,
)
    requires
        runs(network),
        stream.known(network),
        network.is_source(results),
        network.sources[results].shape == B::shape(),
        scanned.lives(network),
        scanned_mut.lives(network),
        network.sources[results].origin == (Origin::Snapshot {
            parent: stream.id(),
            since,
            signal: scanned.id(),
            f: mapped2::<T, B, A, B, F>(f),
        }),
        network.cells[scanned.id()].content matches ContentView::Alias(held)
            && network.cells[held].origin == (CellOrigin::Hold {
            parent: results,
            since: 0,
            initial: initial.encode(),
        }),
        network.cells[scanned_mut.id()].origin == (CellOrigin::ScanMut {
            parent: stream.id(),
            since,
            initial: initial.encode(),
            f: mapped2::<T, B, A, B, F>(f),
        }),
        forall|b: B, a: A, c: B, d: B|
            f.ensures((b, a), c) && f.ensures((b, a), d) ==> c == d,
    ensures
        forall|b: B| #[trigger] scanned.can_be(network, b) <==> scanned_mut.can_be(network, b),
{
    let steps = scan_accumulates::<T, A, B, F>(
        network,
        stream,
        since,
        initial,
        f,
        results,
        scanned,
    );
    let others = scan_mut_accumulates::<T, A, B, F>(
        network,
        stream,
        since,
        initial,
        f,
        scanned_mut,
    );
    let events = stream.history(network).skip(since as int);
    lemma_one_accumulation::<A, B, F>(f, initial, events, steps, others, events.len() as int);
}

/// Later, whatever has been sent, made, handed out and released meanwhile, reading a
/// state made by `scan_mut` through a combination that copies it gives what the signal
/// made by `scan` has, if both were made of the same stream at the same time with the
/// same initial value and function, and the function gives the same whenever it is
/// applied to the same. `made` is the network in which all of them have been made.
pub proof fn scan_mut_stays_scan<
    T: Item,
    A: Event<T>,
    B: Event<T>,
    F: Fn(B, A) -> B,
    G: Fn(&B, ()) -> B,
>(
    made: NetworkView<T>,
    later: NetworkView<T>,
    stream: Stream<A>,
    since: nat,
    initial: B,
    f: F,
    results: int,
    scanned: Signal<B>,
    scanned_mut: SignalMut<B>,
    unit: Signal<()>,
    copy: G,
    read: Signal<B>,
)
    requires
        runs(made),
        stream.known(made),
        made.is_source(results),
        made.sources[results].shape == B::shape(),
        scanned.lives(made),
        scanned_mut.lives(made),
        unit.lives(made),
        read.lives(made),
        made.sources[results].origin == (Origin::Snapshot {
            parent: stream.id(),
            since,
            signal: scanned.id(),
            f: mapped2::<T, B, A, B, F>(f),
        }),
        made.cells[scanned.id()].content matches ContentView::Alias(held)
            && made.cells[held].origin == (CellOrigin::Hold {
            parent: results,
            since: 0,
            initial: initial.encode(),
        }),
        made.cells[scanned_mut.id()].origin == (CellOrigin::ScanMut {
            parent: stream.id(),
            since,
            initial: initial.encode(),
            f: mapped2::<T, B, A, B, F>(f),
        }),
        made.cells[read.id()].content == (ContentView::Combined {
            state: scanned_mut.id(),
            other: unit.id(),
            f: mapped_on::<T, B, (), B, G>(copy),
        }),
        forall|b: B, a: A, c: B, d: B|
            f.ensures((b, a), c) && f.ensures((b, a), d) ==> c == d,
        forall|b: B, c: B| copy.ensures((&b, ()), c) ==> c == b,
        made.leads_to(later),
        runs(later),
        scanned.lives(later),
        read.lives(later),
    ensures
        forall|b: B, c: B|
            #![trigger read.can_be(later, b), scanned.can_be(later, c)]
            read.can_be(later, b) && scanned.can_be(later, c) ==> b == c,
{
    let m = scanned_mut.id();
    assert(made.source_leads_to(later, stream.id()));
    assert(made.source_leads_to(later, results));
    assert(made.cell_leads_to(later, scanned.id()));
    assert(made.cell_leads_to(later, m));
    assert(made.cell_leads_to(later, unit.id()));
    assert(made.cell_leads_to(later, read.id()));
    assert(made.sound_cell(scanned.id()));
    if let ContentView::Alias(held) = made.cells[scanned.id()].content {
        assert(made.cell_leads_to(later, held));
    }
    assert(made.sound_cell(read.id()));
    assert(later.sound_cell(read.id()));
    assert(later.defined(read.id()));
    assert(scanned_mut.lives(later));
    assert(unit.lives(later));
    let steps = scan_accumulates::<T, A, B, F>(
        later,
        stream,
        since,
        initial,
        f,
        results,
        scanned,
    );
    let others = scan_mut_accumulates::<T, A, B, F>(
        later,
        stream,
        since,
        initial,
        f,
        scanned_mut,
    );
    let events = stream.history(later).skip(since as int);
    lemma_one_accumulation::<A, B, F>(f, initial, events, steps, others, events.len() as int);
    assert forall|b: B, c: B|
        #![trigger read.can_be(later, b), scanned.can_be(later, c)]
        read.can_be(later, b) && scanned.can_be(later, c) implies b == c by {
        combine_applies::<T, B, (), B, G>(later, scanned_mut, unit, copy, read, b);
        let (x, u) = choose|x: B, u: ()|
            {
                &&& #[trigger] copy.ensures((&x, u), b)
                &&& scanned_mut.can_be(later, x)
                &&& unit.can_be(later, u)
            };
        assert(u == ());
        assert(b == x);
    }
}

// ---- Streams that never fire ----

/// A stream made by `never` is neutral: a signal that holds it keeps its initial
/// value, and merged with another stream, on either side, it adds nothing to what that
/// one fires.
pub proof fn never_is_neutral<T: Item, A: Event<T>>(
    network: NetworkView<T>,
    never: Stream<A>,
    held: Signal<A>,
    held_since: nat,
    initial: A,
    stream: Stream<A>,
    since: nat,
    never_since: nat,
    on_left: Stream<A>,
    on_right: Stream<A>,
)
    requires
        runs(network),
        never.lives(network),
        network.sources[never.id()].origin is Never,
        held.lives(network),
        network.cells[held.id()].origin == (CellOrigin::Hold {
            parent: never.id(),
            since: held_since,
            initial: initial.encode(),
        }),
        stream.known(network),
        on_left.lives(network),
        network.sources[on_left.id()].origin == (Origin::<T>::Merge {
            left: never.id(),
            left_since: never_since,
            right: stream.id(),
            right_since: since,
        }),
        on_right.lives(network),
        network.sources[on_right.id()].origin == (Origin::<T>::Merge {
            left: stream.id(),
            left_since: since,
            right: never.id(),
            right_since: never_since,
        }),
    ensures
        never.history(network).len() == 0,
        held.is_now(network, initial),
        since <= stream.history(network).len(),
        on_left.history(network) == stream.history(network).skip(since as int),
        on_right.history(network) == stream.history(network).skip(since as int),
{
    let events = stream.history(network).skip(since as int);
    never_fires_nothing(network, never);
    hold_is_the_last_event(network, never, held_since, initial, held);
    merge_fires_both(network, never, never_since, stream, since, on_left);
    merge_fires_both(network, stream, since, never, never_since, on_right);
    let nothing = never.history(network).skip(never_since as int);
    lemma_woven_with_nothing(
        on_left.history(network),
        network.sources[on_left.id()].sides,
        nothing,
        events,
    );
    lemma_woven_with_nothing(
        on_right.history(network),
        network.sources[on_right.id()].sides,
        events,
        nothing,
    );
}

proof fn lemma_woven_with_nothing<X>(
    all: Seq<X>,
    sides: Seq<bool>,
    left: Seq<X>,
    right: Seq<X>,
)
    requires
        woven(all, sides, left, right),
    ensures
        left.len() == 0 ==> all == right,
        right.len() == 0 ==> all == left,
    decreases all.len(),
{
    if all.len() > 0 {
        if sides.last() {
            lemma_woven_with_nothing(all.drop_last(), sides.drop_last(), left.drop_last(), right);
            if right.len() == 0 {
                assert(all =~= all.drop_last().push(all.last()));
                assert(left =~= left.drop_last().push(left.last()));
            }
        } else {
            lemma_woven_with_nothing(all.drop_last(), sides.drop_last(), left, right.drop_last());
            if left.len() == 0 {
                assert(all =~= all.drop_last().push(all.last()));
                assert(right =~= right.drop_last().push(right.last()));
            }
        }
    }
}

// ---- Combinations and constants ----

/// Sampling the signal made by `combine` gives what the function makes of
/// values of both signals.
pub proof fn combine_applies<T: Item, A: Carried<T>, B: Event<T>, C: Event<T>, F: Fn(&A, B) -> C>(
    network: NetworkView<T>,
    state: SignalMut<A>,
    other: Signal<B>,
    f: F,
    signal: Signal<C>,
    c: C,
)
    requires
        runs(network),
        state.lives(network),
        other.lives(network),
        signal.lives(network),
        network.cells[signal.id()].content == (ContentView::Combined {
            state: state.id(),
            other: other.id(),
            f: mapped_on::<T, A, B, C, F>(f),
        }),
    ensures
        signal.can_be(network, c) <==> exists|a: A, b: B|
            {
                &&& #[trigger] f.ensures((&a, b), c)
                &&& state.can_be(network, a)
                &&& other.can_be(network, b)
            },
{
    let g = mapped_on::<T, A, B, C, F>(f);
    let w = c.encode();
    c.encoded();
    assert(network.sound_cell(signal.id()));
    if signal.can_be(network, c) {
        let (y, z) = choose|y: Value<T>, z: Value<T>|
            {
                &&& #[trigger] (g.promise)((y, z), w)
                &&& network.can_be(state.id(), y)
                &&& network.can_be(other.id(), z)
            };
        lemma_can_be_fits(network, state.id(), y);
        lemma_can_be_fits(network, other.id(), z);
        A::decoded(y);
        B::decoded(z);
        let a = A::decode(y)->0;
        let b = B::decode(z)->0;
        assert(f.ensures((&a, b), c));
    }
    if exists|a: A, b: B|
        {
            &&& #[trigger] f.ensures((&a, b), c)
            &&& state.can_be(network, a)
            &&& other.can_be(network, b)
        } {
        let (a, b) = choose|a: A, b: B|
            {
                &&& #[trigger] f.ensures((&a, b), c)
                &&& state.can_be(network, a)
                &&& other.can_be(network, b)
            };
        a.encoded();
        b.encoded();
        assert((g.promise)((a.encode(), b.encode()), w));
    }
}

/// The signal made by `new` has the value that it was made with.
pub proof fn constant_is_what_it_was_made_with<T: Item, A: Event<T>>(
    network: NetworkView<T>,
    a: A,
    signal: Signal<A>,
)
    requires
        signal.known(network),
        network.cells[signal.id()].content == ContentView::Held(a.encode()),
    ensures
        signal.is_now(network, a),
{
    lemma_is_now(network, signal.id(), a);
}

/// As long as nothing fires that a signal rests on, it keeps its value.
pub proof fn signal_keeps_its_value<T: Item, A: Event<T>, B: Event<T>>(
    network: NetworkView<T>,
    signal: Signal<A>,
    sink: Sink<B>,
    b: B,
    next: NetworkView<T>,
)
    requires
        network.valid(),
        sink.within(network),
        signal.lives(network),
        signal.lives(next),
        network.sends(sink.id(), b.encode(), next),
        network.still(next, network.ids(), signal.id()),
    ensures
        forall|a: A| #[trigger] signal.can_be(next, a) <==> signal.can_be(network, a),
{
    let id = sink.id();
    let v = b.encode();
    let idle = network.ids();
    b.encoded();
    lemma_sends(network, id, v, next);
    lemma_sent_steady(network, id, v, next.returned);
    assert forall|a: A| #[trigger] signal.can_be(next, a) <==> signal.can_be(network, a) by {
        lemma_still_can_be(network, next, idle, signal.id(), a.encode());
    }
}

// ---- Snapshots ----

/// The value of the signal in the snapshot number `j`.
pub open spec fn sample_at<T: Item, A: Event<T>, C: Event<T>>(
    network: NetworkView<T>,
    snapshots: Stream<C>,
    j: int,
) -> A {
    A::decode(sampled(network.sources[snapshots.id()].causes[j]))->0
}

/// The stream made by `snapshot` fires once for every event since then, in
/// order: what the function makes of the value that the signal had and of the
/// event.
pub proof fn snapshot_applies<
    T: Item,
    A: Event<T>,
    B: Event<T>,
    C: Event<T>,
    F: Fn(A, B) -> C,
>(
    network: NetworkView<T>,
    signal: Signal<A>,
    stream: Stream<B>,
    since: nat,
    f: F,
    snapshots: Stream<C>,
)
    requires
        runs(network),
        stream.known(network),
        snapshots.lives(network),
        network.sources[snapshots.id()].origin == (Origin::Snapshot {
            parent: stream.id(),
            since,
            signal: signal.id(),
            f: mapped2::<T, A, B, C, F>(f),
        }),
    ensures
        since <= stream.history(network).len(),
        ({
            let events = stream.history(network).skip(since as int);
            let images = snapshots.history(network);
            &&& images.len() == events.len()
            &&& forall|j: int|
                0 <= j < events.len() ==> f.ensures(
                    (sample_at::<T, A, C>(network, snapshots, j), events[j]),
                    #[trigger] images[j],
                )
        }),
{
    let g = mapped2::<T, A, B, C, F>(f);
    let m = snapshots.id();
    let p = stream.id();
    assert(network.fed_source(m));
    lemma_effect(
        network,
        p,
        Reaction::Snapshot { signal: signal.id(), f: g, target: m },
        since,
    );
    lemma_decodings_skip::<T, B>(network.sources[p].history, since as int);
    let values = network.sources[p].history.skip(since as int);
    let events = stream.history(network).skip(since as int);
    let images = snapshots.history(network);
    let source = network.sources[m];
    assert forall|j: int| 0 <= j < events.len() implies f.ensures(
        (sample_at::<T, A, C>(network, snapshots, j), events[j]),
        #[trigger] images[j],
    ) by {
        assert(is_snapshot(g, source.causes[j], values[j], source.history[j]));
    }
}

/// As long as nothing fires that a signal rests on, every snapshot of it is of
/// a value that sampling it can give.
pub proof fn snapshot_takes_the_present_value<T: Item, A: Event<T>, B: Event<T>, C: Event<T>>(
    network: NetworkView<T>,
    signal: Signal<A>,
    snapshots: Stream<C>,
    sink: Sink<B>,
    b: B,
    next: NetworkView<T>,
)
    requires
        network.valid(),
        sink.within(network),
        signal.lives(network),
        snapshots.lives(network),
        network.sources[snapshots.id()].origin matches Origin::Snapshot { signal: k, .. } && k
            == signal.id(),
        network.sends(sink.id(), b.encode(), next),
        network.still(next, network.ids(), signal.id()),
    ensures
        forall|j: int|
            network.sources[snapshots.id()].causes.len() <= j
                < next.sources[snapshots.id()].causes.len() ==> signal.can_be(
                network,
                #[trigger] sample_at::<T, A, C>(next, snapshots, j),
            ),
{
    let id = sink.id();
    let v = b.encode();
    let idle = network.ids();
    let m = snapshots.id();
    b.encoded();
    lemma_sends(network, id, v, next);
    lemma_sent_steady(network, id, v, next.returned);
    assert(network.keeps_sampling(next, idle, m));
    assert forall|j: int|
        network.sources[m].causes.len() <= j < next.sources[m].causes.len() implies signal.can_be(
        network,
        #[trigger] sample_at::<T, A, C>(next, snapshots, j),
    ) by {
        let x = sampled(next.sources[m].causes[j]);
        assert(network.can_be(signal.id(), x));
        lemma_can_be_fits(network, signal.id(), x);
        A::decoded(x);
    }
}

/// Every snapshot is of the value that the signal has at the moment at which the
/// event is fired: when what is sent makes a snapshot, there is a network on the
/// way in which the stream has just fired the event, the snapshot is the next to
/// come, and sampling the signal can give the value.
pub proof fn snapshot_is_of_its_moment<
    T: Item,
    A: Event<T>,
    B: Event<T>,
    C: Event<T>,
    D: Event<T>,
>(
    network: NetworkView<T>,
    signal: Signal<A>,
    stream: Stream<B>,
    snapshots: Stream<C>,
    sink: Sink<D>,
    d: D,
    next: NetworkView<T>,
    j: int,
) -> (moment: NetworkView<T>)
    requires
        network.valid(),
        sink.within(network),
        signal.known(network),
        stream.known(network),
        snapshots.known(network),
        network.sources[snapshots.id()].origin matches Origin::Snapshot {
            parent,
            signal: k,
            ..
        } && k == signal.id() && parent == stream.id(),
        network.sends(sink.id(), d.encode(), next),
        network.sources[snapshots.id()].causes.len() <= j
            < next.sources[snapshots.id()].causes.len(),
    ensures
        network.becomes(moment),
        moment.becomes(next),
        moment.sources[snapshots.id()].causes.len() == j,
        stream.history(moment).len() > 0,
        ({
            let cause = next.sources[snapshots.id()].causes[j];
            moment.sources[stream.id()].history.len() > 0 && cause == both(
                sampled(cause),
                moment.sources[stream.id()].history.last(),
            )
        }),
        signal.can_be(moment, sample_at::<T, A, C>(next, snapshots, j)),
{
    let id = sink.id();
    let v = d.encode();
    let m = snapshots.id();
    d.encoded();
    lemma_sends(network, id, v, next);
    lemma_sent_steady(network, id, v, next.returned);
    assert(network.keeps_moments(next, m));
    assert(network.has_moment(next, m, j));
    let moment = choose|mid: NetworkView<T>| network.is_moment(mid, next, m, j);
    let x = sampled(next.sources[m].causes[j]);
    assert(moment.can_be(signal.id(), x));
    lemma_can_be_shape(network, moment, signal.id(), x);
    A::decoded(x);
    moment
}

/// What sampling a cell gives on the way has the shape of the cell.
proof fn lemma_can_be_shape<T>(a: NetworkView<T>, b: NetworkView<T>, k: int, x: Value<T>)
    requires
        a.sound(),
        a.becomes(b),
        a.is_cell(k),
        b.can_be(k, x),
        b.sound(),
    ensures
        x.fits(a.cells[k].shape),
{
    lemma_can_be_fits(b, k, x);
    assert(b.cells[k].shape == a.cells[k].shape);
}

/// The stream made by `snapshot` of a constant signal fires as the stream made by
/// `map` with the function applied to the constant.
pub proof fn snapshot_of_a_constant_maps<
    T: Item,
    A: Event<T>,
    B: Event<T>,
    C: Event<T>,
    F: Fn(A, B) -> C,
>(
    network: NetworkView<T>,
    constant: A,
    signal: Signal<A>,
    stream: Stream<B>,
    since: nat,
    f: F,
    snapshots: Stream<C>,
)
    requires
        runs(network),
        signal.known(network),
        network.cells[signal.id()].origin is Constant,
        network.cells[signal.id()].content == ContentView::Held(constant.encode()),
        stream.known(network),
        snapshots.lives(network),
        network.sources[snapshots.id()].origin == (Origin::Snapshot {
            parent: stream.id(),
            since,
            signal: signal.id(),
            f: mapped2::<T, A, B, C, F>(f),
        }),
    ensures
        since <= stream.history(network).len(),
        ({
            let events = stream.history(network).skip(since as int);
            let images = snapshots.history(network);
            &&& images.len() == events.len()
            &&& forall|j: int|
                0 <= j < events.len() ==> f.ensures((constant, events[j]), #[trigger] images[j])
        }),
{
    let m = snapshots.id();
    snapshot_applies::<T, A, B, C, F>(network, signal, stream, since, f, snapshots);
    let events = stream.history(network).skip(since as int);
    let images = snapshots.history(network);
    assert(network.fed_source(m));
    assert(network.own_samples(m));
    constant.encoded();
    let g = mapped2::<T, A, B, C, F>(f);
    lemma_effect(
        network,
        stream.id(),
        Reaction::Snapshot { signal: signal.id(), f: g, target: m },
        since,
    );
    assert forall|j: int| 0 <= j < events.len() implies f.ensures(
        (constant, events[j]),
        #[trigger] images[j],
    ) by {
        let cause = network.sources[m].causes[j];
        assert(network.cells[signal.id()].content == ContentView::Held(sampled(cause)));
        assert(sample_at::<T, A, C>(network, snapshots, j) == constant);
    }
}

} // verus!
