//! Which functions can be applied to whatever comes.
//!
//! A function that a user hands over may ask something of its arguments. Then
//! nothing may be sent that leads to an argument that it does not take. If all
//! functions take everything of their types, everything may be sent.
use crate::function::{
    mapped, mapped2, mapped_on, selected, total, total2, total_on, total_test, Binary, Unary,
};
use crate::life::lemma_sweep_sound;
use crate::model::{both, ContentView, Entry, NetworkView, Reaction};
use crate::sound::{
    lemma_can_be_fits, lemma_deliver_sound, lemma_enqueue_sound, lemma_fire_sound,
    lemma_hear_sound, lemma_prune_sound, lemma_record_sound, lemma_reflexive, lemma_rewire_sound,
    lemma_same_sound, lemma_store_sound, lemma_update_sound,
};
use crate::value::{Carried, Event, Item, Shape, Value};
use vstd::prelude::*;

verus! {

/// `f` can be applied to everything of a shape.
pub open spec fn covers<T>(f: Unary<T>, shape: Shape) -> bool {
    forall|v: Value<T>| v.fits(shape) ==> #[trigger] (f.domain)(v)
}

/// `f` can be applied to everything of two shapes.
pub open spec fn covers2<T>(f: Binary<T>, first: Shape, second: Shape) -> bool {
    forall|x: Value<T>, v: Value<T>|
        x.fits(first) && v.fits(second) ==> #[trigger] (f.domain)((x, v))
}

impl<T> NetworkView<T> {
    /// The function of a callback of the source `s` can be applied to whatever
    /// comes.
    pub open spec fn covered_entry(self, s: int, entry: Entry<T>) -> bool {
        let shape = self.sources[s].shape;
        match entry.reaction {
            Reaction::Mapped { f, .. } => covers(f, shape),
            Reaction::Snapshot { signal, f, .. } => covers2(f, self.cells[signal].shape, shape),
            Reaction::ScanMut { cell, f } => covers2(f, self.cells[cell].shape, shape),
            _ => true,
        }
    }

    /// The function of a cell can be applied to whatever the cells have that it
    /// rests on.
    pub open spec fn covered_cell(self, k: int) -> bool {
        match self.cells[k].content {
            ContentView::Combined { state, other, f } => covers2(
                f,
                self.cells[state].shape,
                self.cells[other].shape,
            ),
            _ => true,
        }
    }

    /// Every function can be applied to whatever comes.
    pub open spec fn covered(self) -> bool {
        &&& forall|s: int, i: int|
            #![trigger self.sources[s].callbacks[i]]
            self.is_source(s) && 0 <= i < self.sources[s].callbacks.len() ==> self.covered_entry(
                s,
                self.sources[s].callbacks[i],
            )
        &&& forall|k: int| self.is_cell(k) ==> #[trigger] self.covered_cell(k)
    }
}

/// A signal can be sampled if every function can be applied to whatever comes.
pub proof fn covered_is_safe<T>(network: NetworkView<T>, k: int)
    requires
        network.sound(),
        network.covered(),
    ensures
        network.is_safe(k),
    decreases k,
{
    if network.is_cell(k) {
        assert(network.sound_cell(k));
        assert(network.covered_cell(k));
        if let ContentView::Combined { state, other, f } = network.cells[k].content {
            covered_is_safe(network, state);
            covered_is_safe(network, other);
            assert forall|a: Value<T>, b: Value<T>|
                network.can_be(state, a) && network.can_be(other, b) implies #[trigger] (f.domain)(
                (a, b),
            ) by {
                lemma_can_be_fits(network, state, a);
                lemma_can_be_fits(network, other, b);
            }
        }
    }
}

/// Nothing is added by events but callbacks through which switches follow
/// streams.
proof fn lemma_covered_step<T>(a: NetworkView<T>, b: NetworkView<T>)
    requires
        a.sound(),
        a.covered(),
        a.becomes(b),
        b.sound(),
        forall|s: int, i: int|
            #![trigger b.sources[s].callbacks[i]]
            b.is_source(s) && 0 <= i < b.sources[s].callbacks.len()
                ==> b.sources[s].callbacks[i].reaction is Switched
                || a.sources[s].callbacks.contains(b.sources[s].callbacks[i]),
    ensures
        b.covered(),
{
    assert forall|s: int, i: int|
        #![trigger b.sources[s].callbacks[i]]
        b.is_source(s) && 0 <= i < b.sources[s].callbacks.len() implies b.covered_entry(
        s,
        b.sources[s].callbacks[i],
    ) by {
        let entry = b.sources[s].callbacks[i];
        if !(entry.reaction is Switched) {
            let j = choose|j: int|
                0 <= j < a.sources[s].callbacks.len() && a.sources[s].callbacks[j] == entry;
            assert(a.covered_entry(s, a.sources[s].callbacks[j]));
            assert(a.sound_source(s));
            assert(a.sound_entry(s, a.sources[s].callbacks[j]));
            assert(b.sources[s].shape == a.sources[s].shape);
            match entry.reaction {
                Reaction::Snapshot { signal, .. } => {
                    assert(b.cells[signal].shape == a.cells[signal].shape);
                },
                Reaction::ScanMut { cell, .. } => {
                    assert(b.cells[cell].shape == a.cells[cell].shape);
                },
                _ => {},
            }
        }
    }
    assert forall|k: int| b.is_cell(k) implies #[trigger] b.covered_cell(k) by {
        assert(a.covered_cell(k));
        assert(a.sound_cell(k));
        assert(b.cells[k].shape == a.cells[k].shape);
        if let ContentView::Combined { state, other, .. } = a.cells[k].content {
            assert(b.cells[state].shape == a.cells[state].shape);
            assert(b.cells[other].shape == a.cells[other].shape);
        }
    }
}

/// `lemma_covered_step` where all callbacks are as before.
proof fn lemma_covered_same<T>(a: NetworkView<T>, b: NetworkView<T>)
    requires
        a.sound(),
        a.covered(),
        a.becomes(b),
        b.sound(),
        forall|s: int|
            b.is_source(s) ==> (#[trigger] b.sources[s]).callbacks == a.sources[s].callbacks,
    ensures
        b.covered(),
{
    assert forall|s: int, i: int|
        #![trigger b.sources[s].callbacks[i]]
        b.is_source(s) && 0 <= i < b.sources[s].callbacks.len() implies a.sources[s]
            .callbacks.contains(b.sources[s].callbacks[i]) by {
        assert(a.sources[s].callbacks[i] == b.sources[s].callbacks[i]);
    }
    lemma_covered_step(a, b);
}

/// Rewiring adds nothing but a callback through which a switch follows a stream.
proof fn lemma_rewire_covered<T>(a: NetworkView<T>, idle: Set<int>, id: int, v: Value<T>)
    requires
        a.sound(),
        a.covered(),
        a.is_source(id),
        a.sources[id].origin is Switch,
    ensures
        a.rewire(idle, id, v).covered(),
{
    let b = a.rewire(idle, id, v);
    lemma_rewire_sound(a, idle, id, v);
    assert forall|s: int, i: int|
        #![trigger b.sources[s].callbacks[i]]
        b.is_source(s) && 0 <= i < b.sources[s].callbacks.len() implies b.sources[s].callbacks[i]
        .reaction is Switched || a.sources[s].callbacks.contains(b.sources[s].callbacks[i]) by {
        if i < a.sources[s].callbacks.len() {
            assert(a.sources[s].callbacks[i] == b.sources[s].callbacks[i]);
        }
    }
    lemma_covered_step(a, b);
}

/// Firing applies no function to what it cannot be applied to.
proof fn lemma_fire_covered<T>(
    a: NetworkView<T>,
    all: Seq<Value<T>>,
    idle: Set<int>,
    id: int,
    v: Value<T>,
    cause: Value<T>,
)
    requires
        a.sound(),
        a.covered(),
        !a.overstepped,
        a.is_source(id),
        v.fits(a.sources[id].shape),
    ensures
        a.fire(all, idle, id, v, cause).covered(),
        !a.fire(all, idle, id, v, cause).overstepped,
    decreases idle.len(), 0int, 0int,
{
    if idle.finite() && idle.contains(id) {
        let b = a.record(id, v, cause);
        let rest = idle.remove(id);
        let count = b.sources[id].callbacks.len();
        let c = b.deliver(all, rest, id, v, count);
        lemma_record_sound(a, id, v, cause);
        lemma_covered_same(a, b);
        lemma_deliver_sound(b, all, rest, id, v, count);
        lemma_deliver_covered(b, all, rest, id, v, count);
        lemma_prune_sound(c, id);
        let d = c.prune(id);
        let keep = |e: Entry<T>| !c.disappeared(e);
        assert forall|s: int, i: int|
            #![trigger d.sources[s].callbacks[i]]
            d.is_source(s) && 0 <= i < d.sources[s].callbacks.len() implies c.sources[s]
                .callbacks.contains(d.sources[s].callbacks[i]) by {
            if s == id {
                assert(d.sources[id].callbacks.contains(d.sources[id].callbacks[i]));
                c.sources[id].callbacks.lemma_filter_contains_rev(keep, d.sources[s].callbacks[i]);
            } else {
                assert(c.sources[s].callbacks[i] == d.sources[s].callbacks[i]);
            }
        }
        lemma_covered_step(c, d);
    } else {
        lemma_reflexive(a, idle);
        assert(a.returned =~= a.returned.subrange(0, a.returned.len() as int));
        lemma_same_sound(a, a.poison(), idle);
        lemma_covered_same(a, a.poison());
    }
}

proof fn lemma_deliver_covered<T>(
    a: NetworkView<T>,
    all: Seq<Value<T>>,
    idle: Set<int>,
    id: int,
    v: Value<T>,
    count: nat,
)
    requires
        a.sound(),
        a.covered(),
        !a.overstepped,
        a.is_source(id),
        v.fits(a.sources[id].shape),
        !idle.contains(id),
        count <= a.sources[id].callbacks.len(),
    ensures
        a.deliver(all, idle, id, v, count).covered(),
        !a.deliver(all, idle, id, v, count).overstepped,
    decreases idle.len(), 2int, count,
{
    if count > 0 {
        let less = (count - 1) as nat;
        let b = a.deliver(all, idle, id, v, less);
        lemma_deliver_sound(a, all, idle, id, v, less);
        lemma_deliver_covered(a, all, idle, id, v, less);
        assert(b.sound_source(id));
        assert(a.sources[id].callbacks.is_prefix_of(b.sources[id].callbacks));
        let entry = b.sources[id].callbacks[less as int];
        assert(a.deliver(all, idle, id, v, count) == b.answer_to(all, idle, entry, v));
        if !b.disappeared(entry) {
            lemma_react_covered(b, all, idle, id, less as int, v);
        }
    }
}

proof fn lemma_react_covered<T>(
    a: NetworkView<T>,
    all: Seq<Value<T>>,
    idle: Set<int>,
    id: int,
    i: int,
    v: Value<T>,
)
    requires
        a.sound(),
        a.covered(),
        !a.overstepped,
        a.is_source(id),
        0 <= i < a.sources[id].callbacks.len(),
        !a.disappeared(a.sources[id].callbacks[i]),
        v.fits(a.sources[id].shape),
    ensures
        a.react(all, idle, a.sources[id].callbacks[i].reaction, v).covered(),
        !a.react(all, idle, a.sources[id].callbacks[i].reaction, v).overstepped,
    decreases idle.len(), 1int, 0int,
{
    let entry = a.sources[id].callbacks[i];
    assert(a.sound_source(id));
    assert(a.sound_entry(id, entry));
    assert(a.covered_entry(id, entry));
    lemma_reflexive(a, idle);
    assert(a.returned =~= a.returned.subrange(0, a.returned.len() as int));
    lemma_same_sound(a, a.lose(), idle);
    lemma_covered_same(a, a.lose());
    match entry.reaction {
        Reaction::Mapped { f, target } => {
            assert((f.domain)(v));
            if let Some(w) = a.answer(all) {
                if (f.promise)(v, w) {
                    let c = a.take(w);
                    assert(a.returned =~= c.returned.subrange(0, a.returned.len() as int));
                    lemma_taken_covered(a, c, idle);
                    lemma_fire_covered(c, all, idle, target, w, v);
                }
            }
        },
        Reaction::FilterSome { target } => {
            if let Some(w) = v.contained() {
                lemma_fire_covered(a, all, idle, target, w, v);
            }
        },
        Reaction::Merge { left, target } => {
            let b = a.hear(target, left, v);
            lemma_hear_sound(a, target, left, v);
            lemma_covered_same(a, b);
            assert(b.sources[target].shape == a.sources[target].shape);
            lemma_fire_covered(b, all, idle, target, v, v);
        },
        Reaction::Switch { target } => {
            lemma_rewire_covered(a, idle, target, v);
        },
        Reaction::Switched { target, .. } => {
            lemma_fire_covered(a, all, idle, target, v, v);
        },
        Reaction::Snapshot { signal, f, target } => {
            lemma_same_sound(a, a.poison(), idle);
            lemma_covered_same(a, a.poison());
            covered_is_safe(a, signal);
            if let Some(x) = a.answer(all) {
                if a.can_be(signal, x) {
                    lemma_can_be_fits(a, signal, x);
                    assert((f.domain)((x, v)));
                    if let Some(w) = a.take(x).answer(all) {
                        if a.defined(signal) && (f.promise)((x, v), w) {
                            let c = a.take(x).take(w);
                            assert(a.returned =~= c.returned.subrange(
                                0,
                                a.returned.len() as int,
                            ));
                            lemma_taken_covered(a, c, idle);
                            lemma_fire_covered(c, all, idle, target, w, both(x, v));
                        }
                    }
                }
            }
        },
        Reaction::Events { queue } => {
            lemma_enqueue_sound(a, queue, v, idle);
            lemma_covered_same(a, a.enqueue(queue, v));
        },
        Reaction::Hold { cell } => {
            lemma_store_sound(a, cell, v, idle);
            lemma_covered_same(a, a.store(cell, v));
        },
        Reaction::ScanMut { cell, f } => {
            assert(a.sound_cell(cell));
            if let ContentView::Held(x) = a.cells[cell].content {
                assert((f.domain)((x, v)));
                if let Some(w) = a.answer(all) {
                    if (f.promise)((x, v), w) {
                        let c = a.take(w);
                        assert(a.returned =~= c.returned.subrange(0, a.returned.len() as int));
                        lemma_taken_covered(a, c, idle);
                        lemma_update_sound(c, cell, x, v, w, idle);
                        lemma_covered_same(c, c.update(cell, x, v, w));
                    }
                }
            }
        },
    }
}

/// What has been returned plays no part.
proof fn lemma_taken_covered<T>(a: NetworkView<T>, c: NetworkView<T>, idle: Set<int>)
    requires
        a.sound(),
        a.covered(),
        c == (NetworkView { returned: c.returned, ..a }),
        a.returned.is_prefix_of(c.returned),
    ensures
        c.sound(),
        c.covered(),
{
    lemma_same_sound(a, c, idle);
    lemma_covered_same(a, c);
}

/// Sweeping takes nothing but callbacks away.
pub proof fn lemma_sweep_covered<T>(a: NetworkView<T>)
    requires
        a.sound(),
        a.covered(),
    ensures
        a.sweep().covered(),
{
    let b = a.sweep();
    lemma_sweep_sound(a);
    assert forall|s: int, i: int|
        #![trigger b.sources[s].callbacks[i]]
        b.is_source(s) && 0 <= i < b.sources[s].callbacks.len() implies a.sources[s]
            .callbacks.contains(b.sources[s].callbacks[i]) by {
        assert(b.sources[s] == a.swept_source(s));
        assert(a.sources[s].callbacks[i] == b.sources[s].callbacks[i]);
    }
    lemma_covered_step(a, b);
}

/// Everything may be sent if every function can be applied to whatever comes,
/// and that stays so.
pub proof fn covered_can_send<T>(network: NetworkView<T>, id: int, v: Value<T>)
    requires
        network.sound(),
        network.covered(),
        !network.overstepped,
        network.is_source(id),
        v.fits(network.sources[id].shape),
    ensures
        network.can_send(id, v),
        forall|all: Seq<Value<T>>| (#[trigger] network.sent(id, v, all)).covered(),
{
    assert forall|all: Seq<Value<T>>|
        (#[trigger] network.sent(id, v, all)).covered() && !network.sent(
            id,
            v,
            all,
        ).overstepped by {
        let fired = network.fire(all, network.ids(), id, v, v);
        lemma_fire_covered(network, all, network.ids(), id, v, v);
        lemma_fire_sound(network, all, network.ids(), id, v, v);
        lemma_sweep_covered(fired);
    }
}

/// Everything may be fed if every function can be applied to whatever comes.
pub proof fn covered_can_feed<T>(network: NetworkView<T>, id: int, vs: Seq<Value<T>>)
    requires
        network.sound(),
        network.covered(),
        !network.overstepped,
        network.is_source(id),
        forall|i: int| 0 <= i < vs.len() ==> (#[trigger] vs[i]).fits(network.sources[id].shape),
    ensures
        network.can_feed(id, vs),
{
    assert forall|all: Seq<Value<T>>| network.returned.is_prefix_of(all) implies !(
    #[trigger] network.fed(id, vs, all)).overstepped by {
        lemma_fed_covered(network, id, vs, all);
    }
}

proof fn lemma_fed_covered<T>(
    a: NetworkView<T>,
    id: int,
    vs: Seq<Value<T>>,
    all: Seq<Value<T>>,
)
    requires
        a.sound(),
        a.covered(),
        !a.overstepped,
        a.is_source(id),
        forall|i: int| 0 <= i < vs.len() ==> (#[trigger] vs[i]).fits(a.sources[id].shape),
    ensures
        a.fed(id, vs, all).sound(),
        a.fed(id, vs, all).covered(),
        !a.fed(id, vs, all).overstepped,
        a.fed(id, vs, all).is_source(id),
        a.fed(id, vs, all).sources[id].shape == a.sources[id].shape,
    decreases vs.len(),
{
    if vs.len() > 0 {
        let b = a.fed(id, vs.drop_last(), all);
        lemma_fed_covered(a, id, vs.drop_last(), all);
        let v = vs.last();
        assert(vs[vs.len() - 1].fits(a.sources[id].shape));
        let fired = b.fire(all, b.ids(), id, v, v);
        lemma_fire_covered(b, all, b.ids(), id, v, v);
        lemma_fire_sound(b, all, b.ids(), id, v, v);
        lemma_sweep_covered(fired);
        lemma_sweep_sound(fired);
        assert(fired.sources[id].shape == b.sources[id].shape);
        assert(b.sent(id, v, all).sources[id].shape == fired.sources[id].shape);
    }
}

// ---- Functions ----

/// A function that can be applied to everything, in the form in which it is
/// kept.
pub proof fn lemma_mapped_covers<T: Item, A: Carried<T>, B: Carried<T>, F: Fn(A) -> B>(f: F)
    requires
        total::<A, B, F>(f),
    ensures
        covers(mapped::<T, A, B, F>(f), A::shape()),
{
    let g = mapped::<T, A, B, F>(f);
    assert forall|v: Value<T>| v.fits(A::shape()) implies #[trigger] (g.domain)(v) by {
        A::decoded(v);
    }
}

/// `lemma_mapped_covers` for a predicate.
pub proof fn lemma_selected_covers<T: Item, A: Event<T>, F: Fn(&A) -> bool>(f: F)
    requires
        total_test::<A, F>(f),
    ensures
        covers(selected::<T, A, F>(f), A::shape()),
{
    let g = selected::<T, A, F>(f);
    assert forall|v: Value<T>| v.fits(A::shape()) implies #[trigger] (g.domain)(v) by {
        A::decoded(v);
    }
}

/// `lemma_mapped_covers` for a function of two arguments.
pub proof fn lemma_mapped2_covers<
    T: Item,
    A: Carried<T>,
    B: Carried<T>,
    C: Carried<T>,
    F: Fn(A, B) -> C,
>(f: F)
    requires
        total2::<A, B, C, F>(f),
    ensures
        covers2(mapped2::<T, A, B, C, F>(f), A::shape(), B::shape()),
{
    let g = mapped2::<T, A, B, C, F>(f);
    assert forall|x: Value<T>, v: Value<T>|
        x.fits(A::shape()) && v.fits(B::shape()) implies #[trigger] (g.domain)((x, v)) by {
        A::decoded(x);
        B::decoded(v);
    }
}

/// `lemma_mapped_covers` for a function that borrows its first argument.
pub proof fn lemma_mapped_on_covers<
    T: Item,
    A: Carried<T>,
    B: Carried<T>,
    C: Carried<T>,
    F: Fn(&A, B) -> C,
>(f: F)
    requires
        total_on::<A, B, C, F>(f),
    ensures
        covers2(mapped_on::<T, A, B, C, F>(f), A::shape(), B::shape()),
{
    let g = mapped_on::<T, A, B, C, F>(f);
    assert forall|x: Value<T>, v: Value<T>|
        x.fits(A::shape()) && v.fits(B::shape()) implies #[trigger] (g.domain)((x, v)) by {
        A::decoded(x);
        B::decoded(v);
    }
}

// ---- Building ----

/// What is added is covered if its functions are.
pub proof fn lemma_grows_covered<T>(a: NetworkView<T>, b: NetworkView<T>)
    requires
        a.sound(),
        a.covered(),
        a.grows_to(b),
        forall|s: int, i: int|
            #![trigger b.sources[s].callbacks[i]]
            b.is_callback(s, i) && a.is_added(s, i) ==> b.covered_entry(
                s,
                b.sources[s].callbacks[i],
            ),
        forall|k: int| a.cells.len() <= k < b.cells.len() ==> #[trigger] b.covered_cell(k),
    ensures
        b.covered(),
{
    assert forall|s: int, i: int|
        #![trigger b.sources[s].callbacks[i]]
        b.is_source(s) && 0 <= i < b.sources[s].callbacks.len() implies b.covered_entry(
        s,
        b.sources[s].callbacks[i],
    ) by {
        assert(b.is_callback(s, i));
        if !a.is_added(s, i) {
            assert(a.sources[s].callbacks.is_prefix_of(b.sources[s].callbacks));
            let entry = a.sources[s].callbacks[i];
            assert(b.sources[s].callbacks[i] == entry);
            assert(a.covered_entry(s, entry));
            assert(a.sound_source(s));
            assert(a.sound_entry(s, entry));
            match entry.reaction {
                Reaction::Snapshot { signal, .. } => {
                    assert(b.cells[signal] == a.cells[signal]);
                },
                Reaction::ScanMut { cell, .. } => {
                    assert(b.cells[cell] == a.cells[cell]);
                },
                _ => {},
            }
        }
    }
    assert forall|k: int| b.is_cell(k) implies #[trigger] b.covered_cell(k) by {
        if a.is_cell(k) {
            assert(a.covered_cell(k));
            assert(a.sound_cell(k));
            assert(b.cells[k] == a.cells[k]);
            if let ContentView::Combined { state, other, .. } = a.cells[k].content {
                assert(b.cells[state] == a.cells[state]);
                assert(b.cells[other] == a.cells[other]);
            }
        }
    }
}

/// Handing a value out changes no function.
pub proof fn lemma_hands_out_covered<T>(a: NetworkView<T>, b: NetworkView<T>)
    requires
        a.sound(),
        a.covered(),
        a.hands_out(b),
    ensures
        b.covered(),
{
    assert forall|s: int, i: int|
        #![trigger b.sources[s].callbacks[i]]
        b.is_source(s) && 0 <= i < b.sources[s].callbacks.len() implies b.covered_entry(
        s,
        b.sources[s].callbacks[i],
    ) by {
        let entry = a.sources[s].callbacks[i];
        assert(b.sources[s].callbacks == a.sources[s].callbacks);
        assert(a.covered_entry(s, entry));
        assert(b.sources[s].shape == a.sources[s].shape);
    }
    assert forall|k: int| b.is_cell(k) implies #[trigger] b.covered_cell(k) by {
        assert(a.covered_cell(k));
    }
}

/// Letting go takes nothing but callbacks away.
pub proof fn lemma_lets_go_covered<T>(a: NetworkView<T>, b: NetworkView<T>)
    requires
        a.covered(),
        a.lets_go(b),
        b.sound(),
    ensures
        b.sweep().covered(),
{
    assert forall|s: int, i: int|
        #![trigger b.sources[s].callbacks[i]]
        b.is_source(s) && 0 <= i < b.sources[s].callbacks.len() implies b.covered_entry(
        s,
        b.sources[s].callbacks[i],
    ) by {
        let entry = a.sources[s].callbacks[i];
        assert(b.sources[s].callbacks == a.sources[s].callbacks);
        assert(a.covered_entry(s, entry));
        assert(b.sound_source(s));
        assert(b.sound_entry(s, entry));
        match entry.reaction {
            Reaction::Snapshot { signal, .. } => {
                assert(b.cells[signal].shape == a.cells[signal].shape);
            },
            Reaction::ScanMut { cell, .. } => {
                assert(b.cells[cell].shape == a.cells[cell].shape);
            },
            _ => {},
        }
    }
    assert forall|k: int| b.is_cell(k) implies #[trigger] b.covered_cell(k) by {
        assert(a.covered_cell(k));
        assert(b.sound_cell(k));
        assert(b.cells[k].content == a.cells[k].content);
        if let ContentView::Combined { state, other, .. } = a.cells[k].content {
            assert(b.cells[state].shape == a.cells[state].shape);
            assert(b.cells[other].shape == a.cells[other].shape);
        }
    }
    lemma_sweep_covered(b);
}

} // verus!
