//! Soundness: every callback finds what it refers to, and every value has the
//! shape of the place where it is.
use crate::function::{mapped, mapped2, mapped_on, selected, Binary, Unary};
use crate::model::{
    both, CellOrigin, ContentView, Entry, NetworkView, Origin, Reaction, SourceView, Turn,
};
use crate::value::{Carried, Event, Item, Shape, Value};
use vstd::prelude::*;

verus! {

/// What `f` makes of values of the first shape has the second.
pub open spec fn takes<T>(f: Unary<T>, from: Shape, to: Shape) -> bool {
    forall|v: Value<T>, w: Value<T>| v.fits(from) && #[trigger] (f.promise)(v, w) ==> w.fits(to)
}

/// What `f` makes of pairs of values of the first two shapes has the third.
pub open spec fn takes2<T>(f: Binary<T>, first: Shape, second: Shape, to: Shape) -> bool {
    forall|a: Value<T>, b: Value<T>, w: Value<T>|
        a.fits(first) && b.fits(second) && #[trigger] (f.promise)((a, b), w) ==> w.fits(to)
}

/// All of the values have the shape.
pub open spec fn all_fit<T>(values: Seq<Value<T>>, shape: Shape) -> bool {
    forall|i: int| 0 <= i < values.len() ==> (#[trigger] values[i]).fits(shape)
}

impl<T> Origin<T> {
    /// The streams that a source comes from were there before it.
    pub open spec fn precedes(self, m: int) -> bool {
        match self {
            Origin::Sink => true,
            Origin::Never => true,
            Origin::Mapped { parent, .. } => 0 <= parent < m,
            Origin::FilterSome { parent, .. } => 0 <= parent < m,
            Origin::Merge { left, right, .. } => 0 <= left < m && 0 <= right < m,
            Origin::Switch { parent, .. } => 0 <= parent < m,
            Origin::Snapshot { parent, .. } => 0 <= parent < m,
        }
    }
}

impl<T> NetworkView<T> {
    /// A callback of the source `s` finds what it refers to.
    pub open spec fn sound_entry(self, s: int, entry: Entry<T>) -> bool {
        let shape = self.sources[s].shape;
        &&& entry.since <= self.sources[s].history.len()
        &&& self.sources[s].ended ==> self.disappeared(entry)
        &&& match entry.reaction {
            Reaction::Mapped { f, target } => {
                &&& self.is_source(target)
                &&& takes(f, shape, self.sources[target].shape)
                &&& self.sources[target].origin matches Origin::Mapped { parent, f: g, .. } && g
                    == f && parent == s
            },
            Reaction::FilterSome { target } => {
                &&& self.is_source(target)
                &&& shape == Shape::Optional(Box::new(self.sources[target].shape))
                &&& self.sources[target].origin matches Origin::FilterSome { parent, .. } && parent
                    == s
            },
            Reaction::Merge { left, target } => {
                &&& self.is_source(target)
                &&& shape == self.sources[target].shape
                &&& self.sources[target].origin matches Origin::Merge { left: l, right: r, .. } && s
                    == if left {
                    l
                } else {
                    r
                }
            },
            Reaction::Switch { target } => {
                &&& self.is_source(target)
                &&& shape == Shape::Stream(Box::new(self.sources[target].shape))
                &&& self.sources[target].origin matches Origin::Switch { parent, .. } && parent == s
            },
            Reaction::Switched { target, token, from } => {
                &&& self.is_source(target)
                &&& shape == self.sources[target].shape
                &&& self.sources[target].origin is Switch
                &&& 0 <= token < self.tokens.len()
            },
            Reaction::Snapshot { signal, f, target } => {
                &&& self.is_cell(signal)
                &&& self.is_source(target)
                &&& takes2(f, self.cells[signal].shape, shape, self.sources[target].shape)
                &&& self.sources[target].origin matches Origin::Snapshot {
                    parent,
                    signal: k,
                    f: g,
                    ..
                } && g == f && parent == s && k == signal
                &&& self.cells[signal].ended ==> self.sources[target].ended
            },
            Reaction::Events { queue } => {
                &&& self.is_queue(queue)
                &&& shape == self.queues[queue].shape
            },
            Reaction::Hold { cell } => {
                &&& self.is_cell(cell)
                &&& shape == self.cells[cell].shape
                &&& self.cells[cell].ended || self.cells[cell].content is Held
                &&& self.cells[cell].origin matches CellOrigin::Hold { parent, .. } && parent == s
            },
            Reaction::ScanMut { cell, f } => {
                &&& self.is_cell(cell)
                &&& takes2(f, self.cells[cell].shape, shape, self.cells[cell].shape)
                &&& self.cells[cell].ended || self.cells[cell].content is Held
                &&& self.cells[cell].origin matches CellOrigin::ScanMut { parent, f: g, .. } && g
                    == f && parent == s
            },
        }
    }

    /// The callbacks of a source are sound.
    pub open spec fn sound_callbacks(self, s: int) -> bool {
        forall|i: int|
            0 <= i < self.sources[s].callbacks.len() ==> self.sound_entry(
                s,
                #[trigger] self.sources[s].callbacks[i],
            )
    }

    pub open spec fn sound_source(self, s: int) -> bool {
        let source = self.sources[s];
        &&& all_fit(source.history, source.shape)
        &&& source.origin.precedes(s)
        &&& source.ended ==> !source.is_held()
        &&& source.terminate matches Some(t) ==> 0 <= t < self.tokens.len()
        &&& self.sound_callbacks(s)
    }

    pub open spec fn sound_cell(self, k: int) -> bool {
        let cell = self.cells[k];
        &&& cell.ended ==> cell.released && cell.content is Undefined
        &&& match cell.content {
            ContentView::Undefined => true,
            ContentView::Held(v) => v.fits(cell.shape),
            ContentView::Alias(j) => {
                &&& self.is_cell(j)
                &&& self.cells[j].shape == cell.shape
                &&& self.cells[j].content is Held
                &&& self.cells[j].ended ==> cell.ended
            },
            ContentView::Combined { state, other, f } => {
                &&& 0 <= state < k
                &&& 0 <= other < k
                &&& takes2(f, self.cells[state].shape, self.cells[other].shape, cell.shape)
                &&& self.cells[state].ended ==> cell.ended
                &&& self.cells[other].ended ==> cell.ended
            },
        }
    }

    pub open spec fn sound_queue(self, q: int) -> bool {
        all_fit(self.queues[q].waiting, self.queues[q].shape)
    }

    /// Everything finds what it refers to, and has the right shape.
    pub open spec fn sound(self) -> bool {
        &&& forall|s: int| self.is_source(s) ==> #[trigger] self.sound_source(s)
        &&& forall|k: int| self.is_cell(k) ==> #[trigger] self.sound_cell(k)
        &&& forall|q: int| self.is_queue(q) ==> #[trigger] self.sound_queue(q)
    }

    /// The cells of `next` are as before, but for the values that they hold.
    pub open spec fn same_cells(self, next: NetworkView<T>) -> bool {
        &&& next.cells.len() == self.cells.len()
        &&& forall|k: int|
            self.is_cell(k) ==> {
                let cell = #[trigger] next.cells[k];
                &&& cell.shape == self.cells[k].shape
                &&& cell.origin == self.cells[k].origin
                &&& !cell.ended ==> cell.content is Held == self.cells[k].content is Held
                &&& !cell.ended && !(cell.content is Held) ==> cell.content
                    == self.cells[k].content
                &&& cell.ended ==> cell.content is Undefined || self.cells[k].ended
                    && cell.content == self.cells[k].content
                &&& !cell.ended && cell.origin is Constant ==> cell.content
                    == self.cells[k].content
                &&& cell.released == self.cells[k].released
                &&& self.cells[k].ended ==> cell.ended
            }
    }

    /// Nothing has ended on the way to `next`.
    pub open spec fn same_ends(self, next: NetworkView<T>) -> bool {
        &&& forall|s: int|
            self.is_source(s) ==> (#[trigger] next.sources[s]).ended == self.sources[s].ended
        &&& forall|k: int|
            self.is_cell(k) ==> (#[trigger] next.cells[k]).ended == self.cells[k].ended
    }

    /// `next` is what `self` has become through events: nothing has been
    /// added or removed but callbacks and tokens, histories have grown, and what
    /// had ended has ended.
    pub open spec fn becomes(self, next: NetworkView<T>) -> bool {
        &&& next.number == self.number
        &&& next.sources.len() == self.sources.len()
        &&& forall|s: int|
            self.is_source(s) ==> {
                let source = #[trigger] next.sources[s];
                &&& source.shape == self.sources[s].shape
                &&& source.origin == self.sources[s].origin
                &&& self.sources[s].history.is_prefix_of(source.history)
                &&& self.sources[s].causes.is_prefix_of(source.causes)
                &&& self.sources[s].sides.is_prefix_of(source.sides)
                &&& self.sources[s].turns.is_prefix_of(source.turns)
                &&& source.pinned == self.sources[s].pinned
                &&& source.released == self.sources[s].released
                &&& self.sources[s].ended ==> source.ended
            }
        &&& self.same_cells(next)
        &&& next.queues.len() == self.queues.len()
        &&& forall|q: int|
            self.is_queue(q) ==> {
                let queue = #[trigger] next.queues[q];
                &&& queue.shape == self.queues[q].shape
                &&& queue.parent == self.queues[q].parent
                &&& queue.since == self.queues[q].since
                &&& queue.open == self.queues[q].open
                &&& self.queues[q].received.is_prefix_of(queue.received)
                &&& queue.received.len() - queue.waiting.len() == self.queues[q].received.len()
                    - self.queues[q].waiting.len()
            }
        &&& self.tokens.len() <= next.tokens.len()
        &&& forall|t: int|
            0 <= t < self.tokens.len() && #[trigger] next.tokens[t] ==> self.tokens[t]
        &&& self.poisoned ==> next.poisoned
        &&& self.returned.is_prefix_of(next.returned)
        &&& self.astray ==> next.astray
        &&& self.overstepped ==> next.overstepped
    }

    /// Sources that are firing fire nothing else meanwhile, and lose no
    /// callback; nothing ends.
    pub open spec fn spares(self, next: NetworkView<T>, idle: Set<int>) -> bool {
        &&& self.same_ends(next)
        &&& forall|s: int|
            self.is_source(s) && !idle.contains(s) ==> {
                let source = #[trigger] next.sources[s];
                &&& source.history == self.sources[s].history
                &&& self.sources[s].callbacks.is_prefix_of(source.callbacks)
            }
    }
}

pub proof fn lemma_becomes_transitive<T>(a: NetworkView<T>, b: NetworkView<T>, c: NetworkView<T>)
    requires
        a.becomes(b),
        b.becomes(c),
    ensures
        a.becomes(c),
{
    assert forall|s: int| a.is_source(s) implies a.sources[s].history.is_prefix_of(
        (#[trigger] c.sources[s]).history,
    ) by {
        assert(b.is_source(s));
        let x = a.sources[s].history;
        let y = b.sources[s].history;
        let z = c.sources[s].history;
        assert(x.is_prefix_of(y) && y.is_prefix_of(z));
        assert(x =~= z.subrange(0, x.len() as int));
    }
    assert forall|s: int| a.is_source(s) implies a.sources[s].sides.is_prefix_of(
        (#[trigger] c.sources[s]).sides,
    ) by {
        assert(b.is_source(s));
        let x = a.sources[s].sides;
        let y = b.sources[s].sides;
        let z = c.sources[s].sides;
        assert(x.is_prefix_of(y) && y.is_prefix_of(z));
        assert(x =~= z.subrange(0, x.len() as int));
    }
    assert forall|s: int| a.is_source(s) implies a.sources[s].causes.is_prefix_of(
        (#[trigger] c.sources[s]).causes,
    ) && a.sources[s].turns.is_prefix_of(c.sources[s].turns) by {
        assert(b.is_source(s));
        let x = a.sources[s].causes;
        let y = b.sources[s].causes;
        let z = c.sources[s].causes;
        assert(x.is_prefix_of(y) && y.is_prefix_of(z));
        assert(x =~= z.subrange(0, x.len() as int));
        let p = a.sources[s].turns;
        let q = b.sources[s].turns;
        let r = c.sources[s].turns;
        assert(p.is_prefix_of(q) && q.is_prefix_of(r));
        assert(p =~= r.subrange(0, p.len() as int));
    }
    assert forall|t: int|
        0 <= t < a.tokens.len() && #[trigger] c.tokens[t] implies a.tokens[t] by {
        assert(b.tokens[t]);
    }
    assert(a.returned =~= c.returned.subrange(0, a.returned.len() as int));
    assert forall|q: int| a.is_queue(q) implies a.queues[q].received.is_prefix_of(
        (#[trigger] c.queues[q]).received,
    ) by {
        assert(b.is_queue(q));
        let x = a.queues[q].received;
        let y = b.queues[q].received;
        let z = c.queues[q].received;
        assert(x.is_prefix_of(y) && y.is_prefix_of(z));
        assert(x =~= z.subrange(0, x.len() as int));
    }
    assert forall|s: int| a.is_source(s) implies ({
        let source = #[trigger] c.sources[s];
        &&& source.shape == a.sources[s].shape
        &&& source.origin == a.sources[s].origin
        &&& source.pinned == a.sources[s].pinned
        &&& source.released == a.sources[s].released
        &&& a.sources[s].ended ==> source.ended
    }) by {
        assert(b.sources[s].shape == a.sources[s].shape);
    }
    assert forall|q: int| a.is_queue(q) implies ({
        let queue = #[trigger] c.queues[q];
        &&& queue.shape == a.queues[q].shape
        &&& queue.parent == a.queues[q].parent
        &&& queue.since == a.queues[q].since
        &&& queue.open == a.queues[q].open
        &&& queue.received.len() - queue.waiting.len() == a.queues[q].received.len()
            - a.queues[q].waiting.len()
    }) by {
        assert(b.queues[q].shape == a.queues[q].shape);
    }
    assert forall|k: int| a.is_cell(k) implies ({
        let cell = #[trigger] c.cells[k];
        &&& cell.shape == a.cells[k].shape
        &&& cell.origin == a.cells[k].origin
        &&& !cell.ended ==> cell.content is Held == a.cells[k].content is Held
        &&& !cell.ended && !(cell.content is Held) ==> cell.content == a.cells[k].content
        &&& cell.ended ==> cell.content is Undefined || a.cells[k].ended && cell.content
            == a.cells[k].content
        &&& !cell.ended && cell.origin is Constant ==> cell.content == a.cells[k].content
        &&& cell.released == a.cells[k].released
        &&& a.cells[k].ended ==> cell.ended
    }) by {
        assert(b.cells[k].shape == a.cells[k].shape);
    }
}

proof fn lemma_spares_transitive<T>(
    a: NetworkView<T>,
    b: NetworkView<T>,
    c: NetworkView<T>,
    idle: Set<int>,
)
    requires
        a.becomes(b),
        a.spares(b, idle),
        b.spares(c, idle),
    ensures
        a.spares(c, idle),
{
    assert forall|s: int| a.is_source(s) implies (#[trigger] c.sources[s]).ended
        == a.sources[s].ended by {
        assert(b.sources[s].ended == a.sources[s].ended);
    }
    assert forall|k: int| a.is_cell(k) implies (#[trigger] c.cells[k]).ended
        == a.cells[k].ended by {
        assert(b.cells[k].ended == a.cells[k].ended);
    }
    assert forall|s: int| a.is_source(s) && !idle.contains(s) implies ({
        let source = #[trigger] c.sources[s];
        &&& source.history == a.sources[s].history
        &&& a.sources[s].callbacks.is_prefix_of(source.callbacks)
    }) by {
        assert(b.sources[s].history == a.sources[s].history);
        let x = a.sources[s].callbacks;
        let y = b.sources[s].callbacks;
        let z = c.sources[s].callbacks;
        assert(x.is_prefix_of(y) && y.is_prefix_of(z));
        assert(x =~= z.subrange(0, x.len() as int));
    }
}

/// A sound callback stays sound.
proof fn lemma_entry_stays_sound<T>(a: NetworkView<T>, b: NetworkView<T>, s: int, entry: Entry<T>)
    requires
        a.becomes(b),
        a.same_ends(b),
        a.is_source(s),
        a.sound_entry(s, entry),
    ensures
        b.sound_entry(s, entry),
{
    assert(b.sources[s].shape == a.sources[s].shape);
    match entry.reaction {
        Reaction::Mapped { f, target } => {
            assert(b.sources[target].shape == a.sources[target].shape);
        },
        Reaction::FilterSome { target } => {
            assert(b.sources[target].shape == a.sources[target].shape);
        },
        Reaction::Merge { left, target } => {
            assert(b.sources[target].shape == a.sources[target].shape);
        },
        Reaction::Switch { target } => {
            assert(b.sources[target].shape == a.sources[target].shape);
        },
        Reaction::Switched { target, token, from } => {
            assert(b.sources[target].shape == a.sources[target].shape);
        },
        Reaction::Snapshot { signal, f, target } => {
            assert(b.sources[target].shape == a.sources[target].shape);
            assert(b.cells[signal].shape == a.cells[signal].shape);
        },
        Reaction::Events { queue } => {
            assert(b.queues[queue].shape == a.queues[queue].shape);
        },
        Reaction::Hold { cell } => {
            assert(b.cells[cell].shape == a.cells[cell].shape);
        },
        Reaction::ScanMut { cell, f } => {
            assert(b.cells[cell].shape == a.cells[cell].shape);
        },
    }
}

/// A sound source stays sound if its history is and all its callbacks were
/// there before.
pub proof fn lemma_source_stays_sound<T>(a: NetworkView<T>, b: NetworkView<T>, s: int)
    requires
        a.becomes(b),
        a.same_ends(b),
        a.is_source(s),
        a.sound_source(s),
        all_fit(b.sources[s].history, b.sources[s].shape),
        b.sources[s].terminate matches Some(t) ==> 0 <= t < b.tokens.len(),
        forall|i: int|
            0 <= i < b.sources[s].callbacks.len() ==> a.sources[s].callbacks.contains(
                #[trigger] b.sources[s].callbacks[i],
            ),
    ensures
        b.sound_source(s),
{
    assert forall|i: int| 0 <= i < b.sources[s].callbacks.len() implies b.sound_entry(
        s,
        #[trigger] b.sources[s].callbacks[i],
    ) by {
        let entry = b.sources[s].callbacks[i];
        let j = choose|j: int|
            0 <= j < a.sources[s].callbacks.len() && a.sources[s].callbacks[j] == entry;
        assert(a.sound_entry(s, a.sources[s].callbacks[j]));
        lemma_entry_stays_sound(a, b, s, entry);
    }
}

/// Sound cells stay sound while what they hold fits.
proof fn lemma_cells_stay_sound<T>(a: NetworkView<T>, b: NetworkView<T>)
    requires
        a.sound(),
        a.same_cells(b),
        forall|k: int| a.is_cell(k) ==> (#[trigger] b.cells[k]).ended == a.cells[k].ended,
        forall|k: int|
            b.is_cell(k) ==> ((#[trigger] b.cells[k]).content matches ContentView::Held(v)
                ==> v.fits(b.cells[k].shape)),
    ensures
        forall|k: int| b.is_cell(k) ==> #[trigger] b.sound_cell(k),
{
    assert forall|k: int| b.is_cell(k) implies #[trigger] b.sound_cell(k) by {
        assert(a.sound_cell(k));
        let cell = b.cells[k];
        assert(cell.shape == a.cells[k].shape);
        match cell.content {
            ContentView::Alias(j) => {
                assert(b.cells[j].shape == a.cells[j].shape);
            },
            ContentView::Combined { state, other, f } => {
                assert(b.cells[state].shape == a.cells[state].shape);
                assert(b.cells[other].shape == a.cells[other].shape);
            },
            _ => {},
        }
    }
}

/// Soundness is kept by a step that touches nothing but the source `id`, and
/// that one only in its history, its bookkeeping and its callbacks.
pub proof fn lemma_source_step<T>(a: NetworkView<T>, b: NetworkView<T>, id: int)
    requires
        a.sound(),
        a.becomes(b),
        a.same_ends(b),
        a.is_source(id),
        b.cells == a.cells,
        b.queues == a.queues,
        forall|s: int| a.is_source(s) && s != id ==> #[trigger] b.sources[s] == a.sources[s],
        b.sound_source(id),
    ensures
        b.sound(),
{
    assert forall|s: int| b.is_source(s) implies #[trigger] b.sound_source(s) by {
        assert(a.sound_source(s));
        if s != id {
            assert(b.sources[s] == a.sources[s]);
            lemma_source_stays_sound(a, b, s);
        }
    }
    assert forall|k: int| b.is_cell(k) implies #[trigger] b.sound_cell(k) by {
        assert(a.sound_cell(k));
    }
    assert forall|q: int| b.is_queue(q) implies #[trigger] b.sound_queue(q) by {
        assert(a.sound_queue(q));
    }
}

proof fn lemma_same_is_prefix<X>(x: Seq<X>)
    ensures
        x.is_prefix_of(x),
{
    assert(x =~= x.subrange(0, x.len() as int));
}

proof fn lemma_pushed_is_longer<X>(x: Seq<X>, y: X)
    ensures
        x.is_prefix_of(x.push(y)),
{
    assert(x =~= x.push(y).subrange(0, x.len() as int));
}

/// A step that leaves all histories and cells and queues alone.
pub proof fn lemma_becomes_source<T>(a: NetworkView<T>, b: NetworkView<T>, id: int)
    requires
        a.is_source(id),
        b.sources.len() == a.sources.len(),
        forall|s: int| a.is_source(s) && s != id ==> #[trigger] b.sources[s] == a.sources[s],
        b.sources[id].shape == a.sources[id].shape,
        b.sources[id].origin == a.sources[id].origin,
        a.sources[id].history.is_prefix_of(b.sources[id].history),
        a.sources[id].causes.is_prefix_of(b.sources[id].causes),
        a.sources[id].sides.is_prefix_of(b.sources[id].sides),
        a.sources[id].turns.is_prefix_of(b.sources[id].turns),
        b.sources[id].pinned == a.sources[id].pinned,
        b.sources[id].released == a.sources[id].released,
        b.sources[id].ended == a.sources[id].ended,
        b.number == a.number,
        b.cells == a.cells,
        b.queues == a.queues,
        a.tokens.len() <= b.tokens.len(),
        forall|t: int| 0 <= t < a.tokens.len() && #[trigger] b.tokens[t] ==> a.tokens[t],
        a.poisoned ==> b.poisoned,
        b.returned == a.returned,
        a.astray ==> b.astray,
        a.overstepped ==> b.overstepped,
    ensures
        a.becomes(b),
        a.same_ends(b),
{
    assert forall|s: int| a.is_source(s) implies a.sources[s].sides.is_prefix_of(
        (#[trigger] b.sources[s]).sides,
    ) && a.sources[s].causes.is_prefix_of(b.sources[s].causes)
        && a.sources[s].turns.is_prefix_of(b.sources[s].turns) by {
        lemma_same_is_prefix(a.sources[s].sides);
        lemma_same_is_prefix(a.sources[s].causes);
        lemma_same_is_prefix(a.sources[s].turns);
    }
    lemma_same_is_prefix(a.returned);
    assert forall|s: int| a.is_source(s) implies a.sources[s].history.is_prefix_of(
        (#[trigger] b.sources[s]).history,
    ) by {
        lemma_same_is_prefix(a.sources[s].history);
    }
    assert forall|q: int| a.is_queue(q) implies a.queues[q].received.is_prefix_of(
        (#[trigger] b.queues[q]).received,
    ) by {
        lemma_same_is_prefix(a.queues[q].received);
    }
}

/// Nothing is changed but what has been returned and whether something is
/// wrong.
pub proof fn lemma_same_sound<T>(a: NetworkView<T>, b: NetworkView<T>, idle: Set<int>)
    requires
        a.sound(),
        b.number == a.number,
        b.sources == a.sources,
        b.cells == a.cells,
        b.queues == a.queues,
        b.tokens == a.tokens,
        a.poisoned ==> b.poisoned,
        a.returned.is_prefix_of(b.returned),
        a.astray ==> b.astray,
        a.overstepped ==> b.overstepped,
    ensures
        b.sound(),
        a.becomes(b),
        a.spares(b, idle),
{
    lemma_reflexive(a, idle);
    assert forall|s: int| b.is_source(s) implies #[trigger] b.sound_source(s) by {
        assert(a.sound_source(s));
        assert forall|i: int| 0 <= i < b.sources[s].callbacks.len() implies b.sound_entry(
            s,
            #[trigger] b.sources[s].callbacks[i],
        ) by {
            assert(a.sound_entry(s, a.sources[s].callbacks[i]));
        }
    }
    assert forall|k: int| b.is_cell(k) implies #[trigger] b.sound_cell(k) by {
        assert(a.sound_cell(k));
    }
    assert forall|q: int| b.is_queue(q) implies #[trigger] b.sound_queue(q) by {
        assert(a.sound_queue(q));
    }
}

pub proof fn lemma_poison_sound<T>(a: NetworkView<T>, idle: Set<int>)
    requires
        a.sound(),
    ensures
        a.poison().sound(),
        a.becomes(a.poison()),
        a.spares(a.poison(), idle),
        a.lose().sound(),
        a.becomes(a.lose()),
        a.spares(a.lose(), idle),
        a.overstep().sound(),
        a.becomes(a.overstep()),
        a.spares(a.overstep(), idle),
{
    lemma_same_is_prefix(a.returned);
    lemma_same_sound(a, a.overstep(), idle);
    lemma_same_sound(a, a.poison(), idle);
    lemma_same_sound(a, a.lose(), idle);
}

pub proof fn lemma_take_sound<T>(a: NetworkView<T>, w: Value<T>, idle: Set<int>)
    requires
        a.sound(),
    ensures
        a.take(w).sound(),
        a.becomes(a.take(w)),
        a.spares(a.take(w), idle),
{
    lemma_pushed_is_longer(a.returned, w);
    lemma_same_sound(a, a.take(w), idle);
}

pub proof fn lemma_reflexive<T>(a: NetworkView<T>, idle: Set<int>)
    ensures
        a.becomes(a),
        a.spares(a, idle),
{
    lemma_same_is_prefix(a.returned);
    assert forall|s: int| a.is_source(s) implies (#[trigger] a.sources[s]).sides.is_prefix_of(
        a.sources[s].sides,
    ) by {
        lemma_same_is_prefix(a.sources[s].sides);
    }
    assert forall|s: int| a.is_source(s) implies (#[trigger] a.sources[s]).causes.is_prefix_of(
        a.sources[s].causes,
    ) && a.sources[s].turns.is_prefix_of(a.sources[s].turns) by {
        lemma_same_is_prefix(a.sources[s].causes);
        lemma_same_is_prefix(a.sources[s].turns);
    }
    assert forall|s: int| a.is_source(s) implies (#[trigger] a.sources[s]).history.is_prefix_of(
        a.sources[s].history,
    ) && a.sources[s].callbacks.is_prefix_of(a.sources[s].callbacks) by {
        lemma_same_is_prefix(a.sources[s].history);
        lemma_same_is_prefix(a.sources[s].callbacks);
    }
    assert forall|q: int| a.is_queue(q) implies (#[trigger] a.queues[q]).received.is_prefix_of(
        a.queues[q].received,
    ) by {
        lemma_same_is_prefix(a.queues[q].received);
    }
}

pub proof fn lemma_record_sound<T>(a: NetworkView<T>, id: int, v: Value<T>, cause: Value<T>)
    requires
        a.sound(),
        a.is_source(id),
        v.fits(a.sources[id].shape),
    ensures
        a.record(id, v, cause).sound(),
        a.becomes(a.record(id, v, cause)),
        a.same_ends(a.record(id, v, cause)),
{
    let b = a.record(id, v, cause);
    lemma_pushed_is_longer(a.sources[id].history, v);
    lemma_pushed_is_longer(a.sources[id].causes, cause);
    lemma_same_is_prefix(a.sources[id].sides);
    lemma_same_is_prefix(a.sources[id].turns);
    lemma_becomes_source(a, b, id);
    assert(a.sound_source(id));
    lemma_source_stays_sound(a, b, id);
    lemma_source_step(a, b, id);
}

pub proof fn lemma_hear_sound<T>(a: NetworkView<T>, id: int, left: bool, v: Value<T>)
    requires
        a.sound(),
        a.is_source(id),
    ensures
        a.hear(id, left, v).sound(),
        a.becomes(a.hear(id, left, v)),
        a.same_ends(a.hear(id, left, v)),
{
    let b = a.hear(id, left, v);
    lemma_same_is_prefix(a.sources[id].history);
    lemma_same_is_prefix(a.sources[id].causes);
    lemma_pushed_is_longer(a.sources[id].sides, left);
    lemma_same_is_prefix(a.sources[id].turns);
    lemma_becomes_source(a, b, id);
    assert(a.sound_source(id));
    lemma_source_stays_sound(a, b, id);
    lemma_source_step(a, b, id);
}

/// A change of the bookkeeping of a source spares the firing ones.
proof fn lemma_bookkeeping_spares<T>(
    a: NetworkView<T>,
    id: int,
    source: SourceView<T>,
    idle: Set<int>,
)
    requires
        a.is_source(id),
        source.history == a.sources[id].history,
        source.callbacks == a.sources[id].callbacks,
        source.ended == a.sources[id].ended,
    ensures
        a.spares(a.with_source(id, source), idle),
{
    assert forall|s: int| a.is_source(s) implies a.sources[s].callbacks.is_prefix_of(
        (#[trigger] a.with_source(id, source).sources[s]).callbacks,
    ) by {
        lemma_same_is_prefix(a.sources[s].callbacks);
    }
}

/// What sampling a cell gives has the shape of the cell.
pub proof fn lemma_can_be_fits<T>(a: NetworkView<T>, k: int, x: Value<T>)
    requires
        a.sound(),
        a.can_be(k, x),
    ensures
        a.is_cell(k),
        x.fits(a.cells[k].shape),
    decreases k,
{
    assert(a.sound_cell(k));
    match a.cells[k].content {
        ContentView::Alias(j) => {
            assert(a.sound_cell(j));
        },
        ContentView::Combined { state, other, f } => {
            let (y, z) = choose|y: Value<T>, z: Value<T>|
                {
                    &&& #[trigger] (f.promise)((y, z), x)
                    &&& a.can_be(state, y)
                    &&& a.can_be(other, z)
                };
            lemma_can_be_fits(a, state, y);
            lemma_can_be_fits(a, other, z);
        },
        _ => {},
    }
}

/// What sampling a cell can give depends on the cells alone.
pub proof fn lemma_same_can_be<T>(a: NetworkView<T>, b: NetworkView<T>, k: int, x: Value<T>)
    requires
        b.cells == a.cells,
        a.can_be(k, x),
    ensures
        b.can_be(k, x),
    decreases k,
{
    if let ContentView::Combined { state, other, f } = a.cells[k].content {
        let (y, z) = choose|y: Value<T>, z: Value<T>|
            {
                &&& #[trigger] (f.promise)((y, z), x)
                &&& a.can_be(state, y)
                &&& a.can_be(other, z)
            };
        lemma_same_can_be(a, b, state, y);
        lemma_same_can_be(a, b, other, z);
    }
}

pub proof fn lemma_store_sound<T>(a: NetworkView<T>, k: int, v: Value<T>, idle: Set<int>)
    requires
        a.sound(),
        a.is_cell(k),
        a.cells[k].content is Held,
        !(a.cells[k].origin is Constant),
        v.fits(a.cells[k].shape),
    ensures
        a.store(k, v).sound(),
        a.becomes(a.store(k, v)),
        a.spares(a.store(k, v), idle),
{
    let b = a.store(k, v);
    lemma_reflexive(a, idle);
    assert(a.sound_cell(k));
    assert(a.becomes(b));
    assert forall|j: int| b.is_cell(j) implies ((#[trigger] b.cells[j]).content
        matches ContentView::Held(w) ==> w.fits(b.cells[j].shape)) by {
        assert(a.sound_cell(j));
    }
    lemma_cells_stay_sound(a, b);
    assert forall|s: int| b.is_source(s) implies #[trigger] b.sound_source(s) by {
        assert(a.sound_source(s));
        lemma_source_stays_sound(a, b, s);
    }
    assert forall|q: int| b.is_queue(q) implies #[trigger] b.sound_queue(q) by {
        assert(a.sound_queue(q));
    }
}

pub proof fn lemma_update_sound<T>(
    a: NetworkView<T>,
    k: int,
    x: Value<T>,
    v: Value<T>,
    w: Value<T>,
    idle: Set<int>,
)
    requires
        a.sound(),
        a.is_cell(k),
        a.cells[k].content is Held,
        !(a.cells[k].origin is Constant),
        w.fits(a.cells[k].shape),
    ensures
        a.update(k, x, v, w).sound(),
        a.becomes(a.update(k, x, v, w)),
        a.spares(a.update(k, x, v, w), idle),
{
    let b = a.update(k, x, v, w);
    lemma_reflexive(a, idle);
    assert(a.sound_cell(k));
    assert(a.becomes(b));
    assert forall|j: int| b.is_cell(j) implies ((#[trigger] b.cells[j]).content
        matches ContentView::Held(y) ==> y.fits(b.cells[j].shape)) by {
        assert(a.sound_cell(j));
    }
    lemma_cells_stay_sound(a, b);
    assert forall|s: int| b.is_source(s) implies #[trigger] b.sound_source(s) by {
        assert(a.sound_source(s));
        lemma_source_stays_sound(a, b, s);
    }
    assert forall|q: int| b.is_queue(q) implies #[trigger] b.sound_queue(q) by {
        assert(a.sound_queue(q));
    }
}

pub proof fn lemma_enqueue_sound<T>(a: NetworkView<T>, q: int, v: Value<T>, idle: Set<int>)
    requires
        a.sound(),
        a.is_queue(q),
        v.fits(a.queues[q].shape),
    ensures
        a.enqueue(q, v).sound(),
        a.becomes(a.enqueue(q, v)),
        a.spares(a.enqueue(q, v), idle),
{
    let b = a.enqueue(q, v);
    lemma_reflexive(a, idle);
    lemma_pushed_is_longer(a.queues[q].received, v);
    assert(a.becomes(b));
    assert forall|s: int| b.is_source(s) implies #[trigger] b.sound_source(s) by {
        assert(a.sound_source(s));
        lemma_source_stays_sound(a, b, s);
    }
    assert forall|k: int| b.is_cell(k) implies #[trigger] b.sound_cell(k) by {
        assert(a.sound_cell(k));
    }
    assert forall|p: int| b.is_queue(p) implies #[trigger] b.sound_queue(p) by {
        assert(a.sound_queue(p));
    }
}

pub proof fn lemma_prune_sound<T>(a: NetworkView<T>, id: int)
    requires
        a.sound(),
        a.is_source(id),
    ensures
        a.prune(id).sound(),
        a.becomes(a.prune(id)),
        a.same_ends(a.prune(id)),
{
    let b = a.prune(id);
    let keep = |e: Entry<T>| !a.disappeared(e);
    lemma_same_is_prefix(a.sources[id].history);
    lemma_same_is_prefix(a.sources[id].causes);
    lemma_same_is_prefix(a.sources[id].sides);
    lemma_same_is_prefix(a.sources[id].turns);
    lemma_becomes_source(a, b, id);
    assert(a.sound_source(id));
    let entries = a.sources[id].callbacks;
    assert forall|i: int| 0 <= i < b.sources[id].callbacks.len() implies entries.contains(
        #[trigger] b.sources[id].callbacks[i],
    ) by {
        a.sources[id].callbacks.lemma_filter_contains_rev(keep, b.sources[id].callbacks[i]);
    }
    lemma_source_stays_sound(a, b, id);
    lemma_source_step(a, b, id);
}

pub proof fn lemma_register_sound<T>(
    a: NetworkView<T>,
    id: int,
    reaction: Reaction<T>,
    idle: Set<int>,
)
    requires
        a.sound(),
        a.is_source(id),
        a.sound_entry(id, Entry { reaction, since: a.sources[id].history.len() }),
    ensures
        a.register(id, reaction).sound(),
        a.becomes(a.register(id, reaction)),
        a.spares(a.register(id, reaction), idle),
{
    let b = a.register(id, reaction);
    let entry = Entry { reaction, since: a.sources[id].history.len() };
    lemma_same_is_prefix(a.sources[id].history);
    lemma_same_is_prefix(a.sources[id].causes);
    lemma_same_is_prefix(a.sources[id].sides);
    lemma_same_is_prefix(a.sources[id].turns);
    lemma_becomes_source(a, b, id);
    lemma_entry_stays_sound(a, b, id, entry);
    assert(a.sound_source(id));
    assert forall|i: int| 0 <= i < b.sources[id].callbacks.len() implies b.sound_entry(
        id,
        #[trigger] b.sources[id].callbacks[i],
    ) by {
        if i < a.sources[id].callbacks.len() {
            assert(a.sound_entry(id, a.sources[id].callbacks[i]));
            lemma_entry_stays_sound(a, b, id, a.sources[id].callbacks[i]);
        }
    }
    assert(b.sound_source(id));
    lemma_source_step(a, b, id);
    assert forall|s: int| a.is_source(s) implies a.sources[s].callbacks.is_prefix_of(
        (#[trigger] b.sources[s]).callbacks,
    ) by {
        lemma_same_is_prefix(a.sources[s].callbacks);
        lemma_pushed_is_longer(a.sources[s].callbacks, entry);
    }
}

pub proof fn lemma_rewire_sound<T>(a: NetworkView<T>, idle: Set<int>, id: int, v: Value<T>)
    requires
        a.sound(),
        a.is_source(id),
        a.sources[id].origin is Switch,
    ensures
        a.rewire(idle, id, v).sound(),
        a.becomes(a.rewire(idle, id, v)),
        a.spares(a.rewire(idle, id, v), idle),
{
    lemma_poison_sound(a, idle);
    if let Value::Stream(number, new, _) = v {
        if number == a.number && a.is_source(new as int) && a.sources[new as int].shape
            == a.sources[id].shape && !a.sources[new as int].ended {
            let source = a.sources[id];
            let token = a.tokens.len() as int;
            let turn = Turn {
                stream: new as int,
                from: source.history.len(),
                since: a.sources[new as int].history.len(),
            };
            let turned = SourceView {
                terminate: Some(token),
                turns: source.turns.push(turn),
                ..source
            };
            let a1 = NetworkView { tokens: a.fresh_token(id), ..a };
            let b = a1.with_source(id, turned);
            lemma_same_is_prefix(source.history);
            lemma_same_is_prefix(source.causes);
            lemma_same_is_prefix(source.sides);
            lemma_pushed_is_longer(source.turns, turn);
            assert(a.sound_source(id));
            lemma_becomes_source(a, b, id);
            lemma_source_stays_sound(a, b, id);
            lemma_source_step(a, b, id);
            assert forall|s: int| a.is_source(s) implies a.sources[s].callbacks.is_prefix_of(
                (#[trigger] b.sources[s]).callbacks,
            ) by {
                lemma_same_is_prefix(a.sources[s].callbacks);
            }
            assert(a.spares(b, idle));
            let reaction = Reaction::Switched { target: id, token, from: source.history.len() };
            lemma_register_sound(b, new as int, reaction, idle);
            let c = b.register(new as int, reaction);
            lemma_becomes_transitive(a, b, c);
            lemma_spares_transitive(a, b, c, idle);
            lemma_poison_sound(c, idle);
            lemma_becomes_transitive(a, c, c.poison());
            lemma_spares_transitive(a, c, c.poison(), idle);
        }
    }
}

/// Firing keeps a network sound.
pub proof fn lemma_fire_sound<T>(
    a: NetworkView<T>,
    all: Seq<Value<T>>,
    idle: Set<int>,
    id: int,
    v: Value<T>,
    cause: Value<T>,
)
    requires
        a.sound(),
        a.is_source(id),
        v.fits(a.sources[id].shape),
    ensures
        a.fire(all, idle, id, v, cause).sound(),
        a.becomes(a.fire(all, idle, id, v, cause)),
        a.spares(a.fire(all, idle, id, v, cause), idle),
    decreases idle.len(), 0int, 0int,
{
    if idle.finite() && idle.contains(id) {
        let b = a.record(id, v, cause);
        let rest = idle.remove(id);
        let count = b.sources[id].callbacks.len();
        let c = b.deliver(all, rest, id, v, count);
        lemma_record_sound(a, id, v, cause);
        lemma_deliver_sound(b, all, rest, id, v, count);
        lemma_prune_sound(c, id);
        lemma_becomes_transitive(a, b, c);
        lemma_becomes_transitive(a, c, c.prune(id));
        assert forall|s: int| a.is_source(s) && !idle.contains(s) implies ({
            let source = #[trigger] a.fire(all, idle, id, v, cause).sources[s];
            &&& source.history == a.sources[s].history
            &&& a.sources[s].callbacks.is_prefix_of(source.callbacks)
        }) by {
            assert(c.prune(id).sources[s] == c.sources[s]);
            assert(b.sources[s] == a.sources[s]);
            assert(!rest.contains(s));
        }
    } else {
        lemma_poison_sound(a, idle);
    }
}

/// Delivering an event keeps a network sound.
pub proof fn lemma_deliver_sound<T>(
    a: NetworkView<T>,
    all: Seq<Value<T>>,
    idle: Set<int>,
    id: int,
    v: Value<T>,
    count: nat,
)
    requires
        a.sound(),
        a.is_source(id),
        v.fits(a.sources[id].shape),
        !idle.contains(id),
        count <= a.sources[id].callbacks.len(),
    ensures
        a.deliver(all, idle, id, v, count).sound(),
        a.becomes(a.deliver(all, idle, id, v, count)),
        a.spares(a.deliver(all, idle, id, v, count), idle),
    decreases idle.len(), 2int, count,
{
    lemma_reflexive(a, idle);
    if count > 0 {
        let b = a.deliver(all, idle, id, v, (count - 1) as nat);
        lemma_deliver_sound(a, all, idle, id, v, (count - 1) as nat);
        assert(b.sound_source(id));
        assert(a.sources[id].callbacks.is_prefix_of(b.sources[id].callbacks));
        let entry = b.sources[id].callbacks[count - 1];
        if !b.disappeared(entry) {
            lemma_react_sound(b, all, idle, id, entry, v);
        } else {
            lemma_reflexive(b, idle);
        }
        let c = b.answer_to(all, idle, entry, v);
        lemma_becomes_transitive(a, b, c);
        lemma_spares_transitive(a, b, c, idle);
    }
}

/// A reaction keeps a network sound.
pub proof fn lemma_react_sound<T>(
    a: NetworkView<T>,
    all: Seq<Value<T>>,
    idle: Set<int>,
    id: int,
    entry: Entry<T>,
    v: Value<T>,
)
    requires
        a.sound(),
        a.is_source(id),
        a.sound_entry(id, entry),
        !a.disappeared(entry),
        v.fits(a.sources[id].shape),
    ensures
        a.react(all, idle, entry.reaction, v).sound(),
        a.becomes(a.react(all, idle, entry.reaction, v)),
        a.spares(a.react(all, idle, entry.reaction, v), idle),
    decreases idle.len(), 1int, 0int,
{
    lemma_reflexive(a, idle);
    match entry.reaction {
        Reaction::Mapped { f, target } => {
            lemma_poison_sound(a, idle);
            if let Some(w) = a.answer(all) {
                if (f.promise)(v, w) {
                    lemma_taken_fire_sound(a, a.take(w), all, idle, target, w, v);
                }
            }
        },
        Reaction::FilterSome { target } => {
            if let Some(w) = v.contained() {
                lemma_fire_sound(a, all, idle, target, w, v);
            }
        },
        Reaction::Merge { left, target } => {
            let b = a.hear(target, left, v);
            lemma_hear_sound(a, target, left, v);
            assert(b.sources[target].shape == a.sources[target].shape);
            lemma_fire_sound(b, all, idle, target, v, v);
            lemma_bookkeeping_spares(a, target, b.sources[target], idle);
            lemma_becomes_transitive(a, b, b.fire(all, idle, target, v, v));
            lemma_spares_transitive(a, b, b.fire(all, idle, target, v, v), idle);
        },
        Reaction::Switch { target } => {
            lemma_rewire_sound(a, idle, target, v);
        },
        Reaction::Switched { target, token, from } => {
            lemma_fire_sound(a, all, idle, target, v, v);
        },
        Reaction::Snapshot { signal, f, target } => {
            lemma_poison_sound(a, idle);
            if let Some(x) = a.answer(all) {
                if let Some(w) = a.take(x).answer(all) {
                    if a.defined(signal) && a.is_safe(signal) && a.can_be(signal, x) && (f.domain)(
                        (x, v),
                    ) && (f.promise)((x, v), w) {
                        lemma_can_be_fits(a, signal, x);
                        let c = a.take(x).take(w);
                        assert(a.returned =~= c.returned.subrange(0, a.returned.len() as int));
                        lemma_taken_fire_sound(a, c, all, idle, target, w, both(x, v));
                    }
                }
            }
        },
        Reaction::Events { queue } => {
            lemma_enqueue_sound(a, queue, v, idle);
        },
        Reaction::Hold { cell } => {
            lemma_store_sound(a, cell, v, idle);
        },
        Reaction::ScanMut { cell, f } => {
            assert(a.sound_cell(cell));
            lemma_poison_sound(a, idle);
            if let ContentView::Held(x) = a.cells[cell].content {
                if let Some(w) = a.answer(all) {
                    if (f.promise)((x, v), w) {
                        let c = a.take(w);
                        let b = c.update(cell, x, v, w);
                        lemma_take_sound(a, w, idle);
                        lemma_update_sound(c, cell, x, v, w, idle);
                        lemma_becomes_transitive(a, c, b);
                        lemma_spares_transitive(a, c, b, idle);
                    }
                }
            }
        },
    }
}

/// A source is made to fire after something has been returned.
proof fn lemma_taken_fire_sound<T>(
    a: NetworkView<T>,
    c: NetworkView<T>,
    all: Seq<Value<T>>,
    idle: Set<int>,
    target: int,
    w: Value<T>,
    cause: Value<T>,
)
    requires
        a.sound(),
        c == (NetworkView { returned: c.returned, ..a }),
        a.returned.is_prefix_of(c.returned),
        a.is_source(target),
        w.fits(a.sources[target].shape),
    ensures
        c.fire(all, idle, target, w, cause).sound(),
        a.becomes(c.fire(all, idle, target, w, cause)),
        a.spares(c.fire(all, idle, target, w, cause), idle),
    decreases idle.len(), 0int, 1int,
{
    let b = c.fire(all, idle, target, w, cause);
    lemma_same_sound(a, c, idle);
    lemma_fire_sound(c, all, idle, target, w, cause);
    lemma_becomes_transitive(a, c, b);
    lemma_spares_transitive(a, c, b, idle);
}

// ---- Functions ----

/// A kept function takes events to events.
pub proof fn lemma_mapped_takes<T: Item, A: Carried<T>, B: Carried<T>, F: Fn(A) -> B>(f: F)
    ensures
        takes(mapped::<T, A, B, F>(f), A::shape(), B::shape()),
{
    let g = mapped::<T, A, B, F>(f);
    assert forall|v: Value<T>, w: Value<T>|
        v.fits(A::shape()) && #[trigger] (g.promise)(v, w) implies w.fits(B::shape()) by {
        (B::decode(w)->0).encoded();
    }
}

/// A kept predicate takes events to options.
pub proof fn lemma_selected_takes<T: Item, A: Event<T>, F: Fn(&A) -> bool>(f: F)
    ensures
        takes(selected::<T, A, F>(f), A::shape(), <Option<A> as Carried<T>>::shape()),
{
    let g = selected::<T, A, F>(f);
    assert forall|v: Value<T>, w: Value<T>|
        v.fits(A::shape()) && #[trigger] (g.promise)(v, w) implies w.fits(
        <Option<A> as Carried<T>>::shape(),
    ) by {
        let a = A::decode(v)->0;
        <Option<A> as Carried<T>>::encoded(Some(a));
        <Option<A> as Carried<T>>::encoded(None);
    }
}

/// A kept function takes pairs of events to events.
pub proof fn lemma_mapped2_takes<
    T: Item,
    A: Carried<T>,
    B: Carried<T>,
    C: Carried<T>,
    F: Fn(A, B) -> C,
>(f: F)
    ensures
        takes2(mapped2::<T, A, B, C, F>(f), A::shape(), B::shape(), C::shape()),
{
    let g = mapped2::<T, A, B, C, F>(f);
    assert forall|x: Value<T>, y: Value<T>, w: Value<T>|
        x.fits(A::shape()) && y.fits(B::shape()) && #[trigger] (g.promise)(
            (x, y),
            w,
        ) implies w.fits(C::shape()) by {
        (C::decode(w)->0).encoded();
    }
}

/// A kept function that borrows its first argument takes pairs of events to
/// events.
pub proof fn lemma_mapped_on_takes<
    T: Item,
    A: Carried<T>,
    B: Carried<T>,
    C: Carried<T>,
    F: Fn(&A, B) -> C,
>(f: F)
    ensures
        takes2(mapped_on::<T, A, B, C, F>(f), A::shape(), B::shape(), C::shape()),
{
    let g = mapped_on::<T, A, B, C, F>(f);
    assert forall|x: Value<T>, y: Value<T>, w: Value<T>|
        x.fits(A::shape()) && y.fits(B::shape()) && #[trigger] (g.promise)(
            (x, y),
            w,
        ) implies w.fits(C::shape()) by {
        (C::decode(w)->0).encoded();
    }
}

} // verus!
