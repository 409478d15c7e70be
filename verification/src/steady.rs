//! What events leave as it was.
//!
//! A switch follows the stream that it follows until it is handed another one,
//! a signal keeps its value until the stream behind it fires, callbacks stay
//! registered until they have disappeared, and nothing but sending makes a
//! sink fire.
use crate::consistency::sampled;
use crate::life::{alive_is_held_or_rested_on, lemma_live, lemma_sweep_sound};
use crate::model::{both, CellOrigin, ContentView, Entry, NetworkView, Origin, Reaction, Turn};
use crate::sound::{
    lemma_becomes_transitive, lemma_can_be_fits, lemma_deliver_sound, lemma_fire_sound,
    lemma_hear_sound, lemma_poison_sound, lemma_prune_sound, lemma_react_sound,
    lemma_record_sound, lemma_reflexive, lemma_rewire_sound, lemma_same_can_be, lemma_same_sound,
    lemma_take_sound,
};
use crate::value::Value;
use vstd::prelude::*;

verus! {

impl<T> NetworkView<T> {
    /// The source `s`, one of `idle`, has not fired on the way to `next`.
    pub open spec fn silent(self, next: NetworkView<T>, idle: Set<int>, s: int) -> bool {
        &&& self.is_source(s)
        &&& idle.contains(s)
        &&& next.sources[s].history.len() == self.sources[s].history.len()
    }

    /// What the cell `k` was made to hold has not fired on the way to `next`.
    pub open spec fn quiet(self, next: NetworkView<T>, idle: Set<int>, k: int) -> bool {
        match self.cells[k].origin {
            CellOrigin::Hold { parent, .. } => self.silent(next, idle, parent),
            CellOrigin::ScanMut { parent, .. } => self.silent(next, idle, parent),
            _ => true,
        }
    }

    /// Nothing that the value of the cell `k` rests on has fired on the way to
    /// `next`.
    pub open spec fn still(self, next: NetworkView<T>, idle: Set<int>, k: int) -> bool
        decreases k,
    {
        &&& self.is_cell(k)
        &&& self.quiet(next, idle, k)
        &&& match self.cells[k].content {
            ContentView::Alias(j) => self.quiet(next, idle, j),
            ContentView::Combined { state, other, .. } => {
                &&& 0 <= state < k
                &&& 0 <= other < k
                &&& self.still(next, idle, state)
                &&& self.still(next, idle, other)
            },
            _ => true,
        }
    }

    /// A callback that has not disappeared is still registered.
    pub open spec fn keeps_callback(self, next: NetworkView<T>, s: int, i: int) -> bool {
        let entry = self.sources[s].callbacks[i];
        next.disappeared(entry) || next.sources[s].callbacks.contains(entry)
    }

    /// A turn of the switch `m` begins on the way to `next`.
    pub open spec fn begins(self, next: NetworkView<T>, m: int, turn: Turn) -> bool {
        &&& self.sources[m].history.len() <= turn.from <= next.sources[m].history.len()
        &&& self.is_source(turn.stream)
        &&& self.sources[turn.stream].history.len() <= turn.since
            <= next.sources[turn.stream].history.len()
    }

    /// A switch follows what it followed, unless it was handed a stream; then
    /// its new turns begin on the way to `next`.
    pub open spec fn keeps_following(self, next: NetworkView<T>, idle: Set<int>, m: int) -> bool {
        let before = self.sources[m].turns;
        let after = next.sources[m].turns;
        &&& self.sources[m].origin matches Origin::Switch { parent, .. } ==> self.silent(
            next,
            idle,
            parent,
        ) ==> after == before && next.sources[m].terminate == self.sources[m].terminate
        &&& forall|j: int|
            before.len() <= j < after.len() ==> self.begins(next, m, #[trigger] after[j])
    }

    /// `mid` is what the network was on the way to `next` when the snapshot
    /// number `j` of the source `m` was made: the parent had just fired the event,
    /// and the value was one that sampling the signal could give.
    pub open spec fn is_moment(
        self,
        mid: NetworkView<T>,
        next: NetworkView<T>,
        m: int,
        j: int,
    ) -> bool {
        let cause = next.sources[m].causes[j];
        &&& mid.sound()
        &&& self.becomes(mid)
        &&& mid.becomes(next)
        &&& mid.sources[m].causes.len() == j
        &&& self.sources[m].origin matches Origin::Snapshot { parent, signal, .. } && {
            &&& mid.sources[parent].history.len() > 0
            &&& cause == both(sampled(cause), mid.sources[parent].history.last())
            &&& mid.can_be(signal, sampled(cause))
        }
    }

    /// If the source `m` is one of snapshots, it is about to fire because of
    /// `cause`.
    pub open spec fn at_moment(self, m: int, cause: Value<T>) -> bool {
        self.sources[m].origin matches Origin::Snapshot { parent, signal, .. } ==> {
            &&& self.sources[parent].history.len() > 0
            &&& cause == both(sampled(cause), self.sources[parent].history.last())
            &&& self.can_be(signal, sampled(cause))
        }
    }

    /// There was such a moment.
    pub open spec fn has_moment(self, next: NetworkView<T>, m: int, j: int) -> bool {
        exists|mid: NetworkView<T>| self.is_moment(mid, next, m, j)
    }

    /// Every snapshot that was made on the way to `next` had its moment.
    pub open spec fn keeps_moments(self, next: NetworkView<T>, m: int) -> bool {
        self.sources[m].origin is Snapshot ==> forall|j: int|
            self.sources[m].causes.len() <= j < next.sources[m].causes.len()
                ==> #[trigger] self.has_moment(next, m, j)
    }

    /// A cell contains what it contained, unless what it holds has fired or it has
    /// ended.
    pub open spec fn keeps_content(self, next: NetworkView<T>, idle: Set<int>, k: int) -> bool {
        self.quiet(next, idle, k) && !next.cells[k].ended ==> next.cells[k].content
            == self.cells[k].content
    }

    /// The snapshots that were made on the way to `next` are of a value that the
    /// signal could have, unless that could change.
    pub open spec fn keeps_sampling(self, next: NetworkView<T>, idle: Set<int>, m: int) -> bool {
        let before = self.sources[m].causes;
        let after = next.sources[m].causes;
        &&& before.is_prefix_of(after)
        &&& self.sources[m].origin matches Origin::Snapshot { signal, .. } ==> self.still(
            next,
            idle,
            signal,
        ) ==> forall|j: int|
            before.len() <= j < after.len() ==> self.can_be(signal, sampled(#[trigger] after[j]))
    }

    /// `next` is what `self` has become through events while the sources in
    /// `idle` were not firing to begin with.
    pub open spec fn steady(self, next: NetworkView<T>, idle: Set<int>) -> bool {
        &&& forall|t: int|
            0 <= t < self.tokens.len() && #[trigger] next.tokens[t] ==> self.tokens[t]
        &&& forall|s: int, i: int|
            self.is_callback(s, i) ==> #[trigger] self.keeps_callback(next, s, i)
        &&& forall|m: int| self.is_source(m) ==> #[trigger] self.keeps_following(next, idle, m)
        &&& forall|k: int| self.is_cell(k) ==> #[trigger] self.keeps_content(next, idle, k)
        &&& forall|m: int| self.is_source(m) ==> #[trigger] self.keeps_sampling(next, idle, m)
        &&& forall|m: int| self.is_source(m) ==> #[trigger] self.keeps_moments(next, m)
    }

    /// A source that only sending makes fire.
    pub open spec fn is_passive(self, s: int) -> bool {
        self.is_source(s) && (self.sources[s].origin is Sink || self.sources[s].origin is Never)
    }

    /// No sink has fired on the way to `next`, but for `id`.
    pub open spec fn rests(self, next: NetworkView<T>, id: int) -> bool {
        forall|s: int|
            self.is_passive(s) && s != id ==> (#[trigger] next.sources[s]).history
                == self.sources[s].history
    }
}

/// The value of a signal has not changed if nothing that it rests on has fired.
pub proof fn lemma_still_can_be<T>(
    a: NetworkView<T>,
    b: NetworkView<T>,
    idle: Set<int>,
    k: int,
    x: Value<T>,
)
    requires
        a.sound(),
        b.sound(),
        a.becomes(b),
        b.cells[k].ended ==> a.cells[k].ended,
        a.still(b, idle, k),
        forall|c: int| a.is_cell(c) ==> #[trigger] a.keeps_content(b, idle, c),
    ensures
        b.can_be(k, x) == a.can_be(k, x),
    decreases k,
{
    assert(a.sound_cell(k));
    assert(b.sound_cell(k));
    assert(a.keeps_content(b, idle, k));
    match a.cells[k].content {
        ContentView::Alias(j) => {
            assert(a.keeps_content(b, idle, j));
        },
        ContentView::Combined { state, other, f } => {
            if a.can_be(k, x) {
                let (y, z) = choose|y: Value<T>, z: Value<T>|
                    {
                        &&& #[trigger] (f.promise)((y, z), x)
                        &&& a.can_be(state, y)
                        &&& a.can_be(other, z)
                    };
                lemma_still_can_be(a, b, idle, state, y);
                lemma_still_can_be(a, b, idle, other, z);
            }
            if b.can_be(k, x) {
                let (y, z) = choose|y: Value<T>, z: Value<T>|
                    {
                        &&& #[trigger] (f.promise)((y, z), x)
                        &&& b.can_be(state, y)
                        &&& b.can_be(other, z)
                    };
                lemma_still_can_be(a, b, idle, state, y);
                lemma_still_can_be(a, b, idle, other, z);
            }
        },
        _ => {},
    }
}

/// What did not fire on the whole way fired on no part of it.
proof fn lemma_silent_splits<T>(
    a: NetworkView<T>,
    b: NetworkView<T>,
    c: NetworkView<T>,
    idle: Set<int>,
    s: int,
)
    requires
        a.becomes(b),
        b.becomes(c),
        a.silent(c, idle, s),
    ensures
        a.silent(b, idle, s),
        b.silent(c, idle, s),
{
    assert(a.sources[s].history.is_prefix_of(b.sources[s].history));
    assert(b.sources[s].history.is_prefix_of(c.sources[s].history));
}

proof fn lemma_quiet_splits<T>(
    a: NetworkView<T>,
    b: NetworkView<T>,
    c: NetworkView<T>,
    idle: Set<int>,
    k: int,
)
    requires
        a.becomes(b),
        b.becomes(c),
        a.is_cell(k),
        a.quiet(c, idle, k),
    ensures
        a.quiet(b, idle, k),
        b.quiet(c, idle, k),
{
    assert(b.cells[k].origin == a.cells[k].origin);
    match a.cells[k].origin {
        CellOrigin::Hold { parent, .. } => {
            lemma_silent_splits(a, b, c, idle, parent);
        },
        CellOrigin::ScanMut { parent, .. } => {
            lemma_silent_splits(a, b, c, idle, parent);
        },
        _ => {},
    }
}

proof fn lemma_still_splits<T>(
    a: NetworkView<T>,
    b: NetworkView<T>,
    c: NetworkView<T>,
    idle: Set<int>,
    k: int,
)
    requires
        a.sound(),
        a.becomes(b),
        b.becomes(c),
        a.still(c, idle, k),
    ensures
        a.still(b, idle, k),
        b.still(c, idle, k),
    decreases k,
{
    assert(a.sound_cell(k));
    assert(b.cells[k].origin == a.cells[k].origin);
    lemma_quiet_splits(a, b, c, idle, k);
    match a.cells[k].content {
        ContentView::Alias(j) => {
            lemma_quiet_splits(a, b, c, idle, j);
        },
        ContentView::Combined { state, other, f } => {
            lemma_still_splits(a, b, c, idle, state);
            lemma_still_splits(a, b, c, idle, other);
        },
        _ => {},
    }
}

/// One way after the other.
proof fn lemma_steady_transitive<T>(
    a: NetworkView<T>,
    b: NetworkView<T>,
    c: NetworkView<T>,
    idle: Set<int>,
)
    requires
        a.sound(),
        b.sound(),
        a.becomes(b),
        a.same_ends(b),
        b.becomes(c),
        a.steady(b, idle),
        b.steady(c, idle),
    ensures
        a.steady(c, idle),
{
    assert forall|s: int, i: int| a.is_callback(s, i) implies #[trigger] a.keeps_callback(
        c,
        s,
        i,
    ) by {
        let entry = a.sources[s].callbacks[i];
        assert(a.sound_source(s));
        assert(a.sound_entry(s, entry));
        assert(a.keeps_callback(b, s, i));
        if b.disappeared(entry) {
            lemma_stays_disappeared(a, b, c, s, entry);
        }
        if !c.disappeared(entry) {
            assert(b.sources[s].callbacks.contains(entry));
            let j = choose|j: int|
                0 <= j < b.sources[s].callbacks.len() && b.sources[s].callbacks[j] == entry;
            assert(b.is_callback(s, j));
            assert(b.keeps_callback(c, s, j));
        }
    }
    assert forall|m: int| a.is_source(m) implies #[trigger] a.keeps_following(c, idle, m) by {
        assert(a.keeps_following(b, idle, m));
        assert(b.keeps_following(c, idle, m));
        assert(b.sources[m].origin == a.sources[m].origin);
        if let Origin::Switch { parent, .. } = a.sources[m].origin {
            if a.silent(c, idle, parent) {
                lemma_silent_splits(a, b, c, idle, parent);
            }
        }
        let p = a.sources[m].turns;
        let q = b.sources[m].turns;
        let r = c.sources[m].turns;
        assert(q.is_prefix_of(r));
        assert(a.sources[m].history.is_prefix_of(b.sources[m].history));
        assert(b.sources[m].history.is_prefix_of(c.sources[m].history));
        assert forall|j: int| p.len() <= j < r.len() implies a.begins(c, m, #[trigger] r[j]) by {
            let stream = r[j].stream;
            if j < q.len() {
                assert(q[j] == r[j]);
                assert(a.begins(b, m, q[j]));
            } else {
                assert(b.begins(c, m, r[j]));
            }
            assert(a.sources[stream].history.is_prefix_of(b.sources[stream].history));
            assert(b.sources[stream].history.is_prefix_of(c.sources[stream].history));
        }
    }
    assert forall|m: int| a.is_source(m) implies #[trigger] a.keeps_moments(c, m) by {
        assert(a.keeps_moments(b, m));
        assert(b.keeps_moments(c, m));
        assert(b.sources[m].origin == a.sources[m].origin);
        assert(b.sources[m].causes.is_prefix_of(c.sources[m].causes));
        if a.sources[m].origin is Snapshot {
            assert forall|j: int|
                a.sources[m].causes.len() <= j < c.sources[m].causes.len() implies
                #[trigger] a.has_moment(c, m, j) by {
                if j < b.sources[m].causes.len() {
                    assert(a.has_moment(b, m, j));
                    let mid = choose|mid: NetworkView<T>| a.is_moment(mid, b, m, j);
                    lemma_becomes_transitive(mid, b, c);
                    assert(b.sources[m].causes[j] == c.sources[m].causes[j]);
                    assert(a.is_moment(mid, c, m, j));
                } else {
                    assert(b.has_moment(c, m, j));
                    let mid = choose|mid: NetworkView<T>| b.is_moment(mid, c, m, j);
                    lemma_becomes_transitive(a, b, mid);
                    assert(a.is_moment(mid, c, m, j));
                }
            }
        }
    }
    assert forall|k: int| a.is_cell(k) implies #[trigger] a.keeps_content(c, idle, k) by {
        assert(a.keeps_content(b, idle, k));
        assert(b.is_cell(k));
        assert(b.keeps_content(c, idle, k));
        if a.quiet(c, idle, k) {
            lemma_quiet_splits(a, b, c, idle, k);
        }
    }
    assert forall|m: int| a.is_source(m) implies #[trigger] a.keeps_sampling(c, idle, m) by {
        assert(a.keeps_sampling(b, idle, m));
        assert(b.keeps_sampling(c, idle, m));
        assert(b.sources[m].origin == a.sources[m].origin);
        let x = a.sources[m].causes;
        let y = b.sources[m].causes;
        let z = c.sources[m].causes;
        assert(x.is_prefix_of(y) && y.is_prefix_of(z));
        assert(x =~= z.subrange(0, x.len() as int));
        if let Origin::Snapshot { signal, .. } = a.sources[m].origin {
            assert(a.sound_source(m));
            if a.still(c, idle, signal) {
                lemma_still_splits(a, b, c, idle, signal);
                assert forall|j: int| x.len() <= j < z.len() implies a.can_be(
                    signal,
                    sampled(#[trigger] z[j]),
                ) by {
                    lemma_still_can_be(a, b, idle, signal, sampled(z[j]));
                    if j < y.len() {
                        assert(z[j] == y[j]);
                    }
                }
            }
        }
    }
}

/// What had disappeared has.
pub proof fn lemma_stays_disappeared<T>(
    a: NetworkView<T>,
    b: NetworkView<T>,
    c: NetworkView<T>,
    s: int,
    entry: Entry<T>,
)
    requires
        a.becomes(b),
        b.becomes(c),
        a.sound_entry(s, entry),
        b.disappeared(entry),
    ensures
        c.disappeared(entry),
{
    match entry.reaction {
        Reaction::Mapped { target, .. } => {
            assert(b.is_source(target) && (b.sources[target].ended ==> c.sources[target].ended));
        },
        Reaction::FilterSome { target } => {
            assert(b.is_source(target) && (b.sources[target].ended ==> c.sources[target].ended));
        },
        Reaction::Merge { target, .. } => {
            assert(b.is_source(target) && (b.sources[target].ended ==> c.sources[target].ended));
        },
        Reaction::Switch { target } => {
            assert(b.is_source(target) && (b.sources[target].ended ==> c.sources[target].ended));
        },
        Reaction::Switched { target, token, .. } => {
            assert(b.is_source(target) && (b.sources[target].ended ==> c.sources[target].ended));
            assert(c.tokens[token] ==> b.tokens[token]);
        },
        Reaction::Snapshot { target, .. } => {
            assert(b.is_source(target) && (b.sources[target].ended ==> c.sources[target].ended));
        },
        Reaction::Events { queue } => {
            assert(c.queues[queue].open == b.queues[queue].open);
        },
        Reaction::Hold { cell } => {
            assert(b.is_cell(cell) && (b.cells[cell].ended ==> c.cells[cell].ended));
        },
        Reaction::ScanMut { cell, .. } => {
            assert(b.is_cell(cell) && (b.cells[cell].ended ==> c.cells[cell].ended));
        },
    }
}

/// A step on which nothing fires, and callbacks are only added.
proof fn lemma_steady_step<T>(a: NetworkView<T>, b: NetworkView<T>, idle: Set<int>)
    requires
        a.sound(),
        a.becomes(b),
        forall|t: int| 0 <= t < a.tokens.len() && #[trigger] b.tokens[t] ==> a.tokens[t],
        forall|s: int|
            a.is_source(s) ==> {
                let source = #[trigger] b.sources[s];
                &&& source.causes == a.sources[s].causes
                &&& a.sources[s].callbacks.is_prefix_of(source.callbacks)
            },
        forall|m: int| a.is_source(m) ==> #[trigger] a.keeps_following(b, idle, m),
        forall|k: int| a.is_cell(k) ==> #[trigger] a.keeps_content(b, idle, k),
    ensures
        a.steady(b, idle),
{
    assert forall|s: int, i: int| a.is_callback(s, i) implies #[trigger] a.keeps_callback(
        b,
        s,
        i,
    ) by {
        let entry = a.sources[s].callbacks[i];
        assert(a.sources[s].callbacks.is_prefix_of(b.sources[s].callbacks));
        assert(b.sources[s].callbacks[i] == entry);
    }
    assert forall|m: int| a.is_source(m) implies #[trigger] a.keeps_sampling(b, idle, m) by {
        assert(b.sources[m].causes == a.sources[m].causes);
        let x = a.sources[m].causes;
        assert(x =~= x.subrange(0, x.len() as int));
    }
}

/// Nothing happens, something goes wrong, or something is returned.
proof fn lemma_steady_nothing<T>(a: NetworkView<T>, idle: Set<int>)
    requires
        a.sound(),
    ensures
        a.steady(a, idle),
        a.steady(a.poison(), idle),
        a.steady(a.lose(), idle),
        a.steady(a.overstep(), idle),
        forall|b: NetworkView<T>|
            b == (NetworkView { returned: b.returned, ..a }) && a.returned.is_prefix_of(b.returned)
                ==> #[trigger] a.steady(b, idle),
{
    lemma_reflexive(a, idle);
    assert forall|s: int| a.is_source(s) implies a.sources[s].callbacks.is_prefix_of(
        (#[trigger] a.sources[s]).callbacks,
    ) by {
        let x = a.sources[s].callbacks;
        assert(x =~= x.subrange(0, x.len() as int));
    }
    lemma_steady_step(a, a, idle);
    lemma_poison_sound(a, idle);
    lemma_steady_step(a, a.poison(), idle);
    lemma_steady_step(a, a.lose(), idle);
    lemma_steady_step(a, a.overstep(), idle);
    assert forall|b: NetworkView<T>|
        b == (NetworkView { returned: b.returned, ..a }) && a.returned.is_prefix_of(
            b.returned,
        ) implies #[trigger] a.steady(b, idle) by {
        lemma_same_sound(a, b, idle);
        lemma_steady_step(a, b, idle);
    }
}

proof fn lemma_rewire_steady<T>(
    a: NetworkView<T>,
    idle: Set<int>,
    id: int,
    target: int,
    v: Value<T>,
)
    requires
        a.sound(),
        a.is_source(target),
        a.sources[target].origin matches Origin::Switch { parent, .. } && parent == id,
        !idle.contains(id),
    ensures
        a.steady(a.rewire(idle, target, v), idle),
{
    lemma_steady_nothing(a, idle);
    lemma_rewire_sound(a, idle, target, v);
    if let Value::Stream(number, new, _) = v {
        if number == a.number && a.is_source(new as int) && a.sources[new as int].shape
            == a.sources[target].shape && !a.sources[new as int].ended {
            let b = a.rewire(idle, target, v);
            assert(a.sound_source(target));
            assert forall|s: int| a.is_source(s) implies a.sources[s].callbacks.is_prefix_of(
                (#[trigger] b.sources[s]).callbacks,
            ) by {
                let x = a.sources[s].callbacks;
                let y = b.sources[s].callbacks;
                assert(x =~= y.subrange(0, x.len() as int));
            }
            let turn = Turn {
                stream: new as int,
                from: a.sources[target].history.len(),
                since: a.sources[new as int].history.len(),
            };
            assert(b.sources[target].turns == a.sources[target].turns.push(turn));
            assert forall|m: int| a.is_source(m) implies #[trigger] a.keeps_following(
                b,
                idle,
                m,
            ) by {
                assert(b.sources[m].history == a.sources[m].history);
                if m != target {
                    assert(b.sources[m].turns == a.sources[m].turns);
                }
                assert(b.sources[new as int].history == a.sources[new as int].history);
            }
            lemma_steady_step(a, b, idle);
        }
    }
}

/// Firing is steady.
pub proof fn lemma_fire_steady<T>(
    a: NetworkView<T>,
    all: Seq<Value<T>>,
    idle: Set<int>,
    id: int,
    v: Value<T>,
    cause: Value<T>,
)
    requires
        a.sound(),
        a.is_source(id),
        v.fits(a.sources[id].shape),
        a.at_moment(id, cause),
    ensures
        a.steady(a.fire(all, idle, id, v, cause), idle),
        a.rests(a.fire(all, idle, id, v, cause), id),
    decreases idle.len(), 0int, 0int,
{
    lemma_steady_nothing(a, idle);
    if idle.finite() && idle.contains(id) {
        let b = a.record(id, v, cause);
        let rest = idle.remove(id);
        let count = b.sources[id].callbacks.len();
        let c = b.deliver(all, rest, id, v, count);
        let d = c.prune(id);
        lemma_record_sound(a, id, v, cause);
        lemma_deliver_sound(b, all, rest, id, v, count);
        lemma_prune_sound(c, id);
        lemma_becomes_transitive(a, b, c);
        lemma_becomes_transitive(a, c, d);
        lemma_record_steady(a, rest, id, v, cause);
        lemma_deliver_steady(b, all, rest, id, v, count);
        lemma_prune_steady(c, rest, id);
        lemma_steady_transitive(a, b, c, rest);
        lemma_steady_transitive(a, c, d, rest);
        assert(b.sources[id].history.is_prefix_of(d.sources[id].history)) by {
            lemma_becomes_transitive(b, c, d);
        }
        lemma_steady_beside(a, d, idle, id);
        assert forall|s: int| a.is_passive(s) && s != id implies (
        #[trigger] d.sources[s]).history == a.sources[s].history by {
            assert(b.is_passive(s));
            assert(c.sources[s].history == b.sources[s].history);
        }
    }
}

/// What is steady while `id` fires is so for those that were not firing before.
proof fn lemma_steady_beside<T>(a: NetworkView<T>, d: NetworkView<T>, idle: Set<int>, id: int)
    requires
        a.sound(),
        a.steady(d, idle.remove(id)),
        a.is_source(id),
        a.sources[id].history.len() < d.sources[id].history.len(),
    ensures
        a.steady(d, idle),
{
    let rest = idle.remove(id);
    assert forall|m: int| a.is_source(m) implies #[trigger] a.keeps_following(d, idle, m) by {
        assert(a.keeps_following(d, rest, m));
    }
    assert forall|m: int| a.is_source(m) implies #[trigger] a.keeps_moments(d, m) by {}
    assert forall|k: int| a.is_cell(k) implies #[trigger] a.keeps_content(d, idle, k) by {
        assert(a.keeps_content(d, rest, k));
    }
    assert forall|m: int| a.is_source(m) implies #[trigger] a.keeps_sampling(d, idle, m) by {
        assert(a.keeps_sampling(d, rest, m));
        if let Origin::Snapshot { signal, .. } = a.sources[m].origin {
            if a.still(d, idle, signal) {
                lemma_still_beside(a, d, idle, id, signal);
            }
        }
    }
}

proof fn lemma_still_beside<T>(
    a: NetworkView<T>,
    d: NetworkView<T>,
    idle: Set<int>,
    id: int,
    k: int,
)
    requires
        a.sources[id].history.len() < d.sources[id].history.len(),
        a.still(d, idle, k),
    ensures
        a.still(d, idle.remove(id), k),
    decreases k,
{
    if let ContentView::Combined { state, other, .. } = a.cells[k].content {
        lemma_still_beside(a, d, idle, id, state);
        lemma_still_beside(a, d, idle, id, other);
    }
}

proof fn lemma_record_steady<T>(
    a: NetworkView<T>,
    rest: Set<int>,
    id: int,
    v: Value<T>,
    cause: Value<T>,
)
    requires
        a.sound(),
        a.is_source(id),
        v.fits(a.sources[id].shape),
        a.at_moment(id, cause),
    ensures
        a.steady(a.record(id, v, cause), rest),
{
    let b = a.record(id, v, cause);
    assert forall|s: int, i: int| a.is_callback(s, i) implies #[trigger] a.keeps_callback(
        b,
        s,
        i,
    ) by {
        assert(b.sources[s].callbacks[i] == a.sources[s].callbacks[i]);
    }
    assert forall|m: int| a.is_source(m) implies #[trigger] a.keeps_sampling(b, rest, m) by {
        let x = a.sources[m].causes;
        let y = b.sources[m].causes;
        assert(x =~= y.subrange(0, x.len() as int));
    }
    assert forall|m: int| a.is_source(m) implies #[trigger] a.keeps_moments(b, m) by {
        if a.sources[m].origin is Snapshot {
            assert forall|j: int|
                a.sources[m].causes.len() <= j < b.sources[m].causes.len() implies
                #[trigger] a.has_moment(b, m, j) by {
                lemma_record_sound(a, id, v, cause);
                lemma_reflexive(a, rest);
                assert(a.is_moment(a, b, m, j));
            }
        }
    }
}

proof fn lemma_prune_steady<T>(a: NetworkView<T>, rest: Set<int>, id: int)
    requires
        a.sound(),
        a.is_source(id),
    ensures
        a.steady(a.prune(id), rest),
{
    let b = a.prune(id);
    let keep = |e: Entry<T>| !a.disappeared(e);
    assert forall|s: int, i: int| a.is_callback(s, i) implies #[trigger] a.keeps_callback(
        b,
        s,
        i,
    ) by {
        let entry = a.sources[s].callbacks[i];
        assert(a.sound_source(s));
        assert(a.sound_entry(s, entry));
        assert(b.disappeared(entry) == a.disappeared(entry));
        if s == id && !a.disappeared(entry) {
            a.sources[id].callbacks.lemma_filter_contains(keep, i);
        }
        if s != id {
            assert(b.sources[s].callbacks[i] == entry);
        }
    }
    assert forall|m: int| a.is_source(m) implies #[trigger] a.keeps_sampling(b, rest, m) by {
        let x = a.sources[m].causes;
        assert(x =~= x.subrange(0, x.len() as int));
    }
}

/// Delivering an event is steady.
proof fn lemma_deliver_steady<T>(
    a: NetworkView<T>,
    all: Seq<Value<T>>,
    idle: Set<int>,
    id: int,
    v: Value<T>,
    count: nat,
)
    requires
        a.sound(),
        a.is_source(id),
        v.fits(a.sources[id].shape),
        !idle.contains(id),
        count <= a.sources[id].callbacks.len(),
        a.sources[id].history.len() > 0,
        a.sources[id].history.last() == v,
    ensures
        a.steady(a.deliver(all, idle, id, v, count), idle),
        a.rests(a.deliver(all, idle, id, v, count), id),
    decreases idle.len(), 2int, count,
{
    lemma_steady_nothing(a, idle);
    if count > 0 {
        let b = a.deliver(all, idle, id, v, (count - 1) as nat);
        lemma_deliver_sound(a, all, idle, id, v, (count - 1) as nat);
        lemma_deliver_steady(a, all, idle, id, v, (count - 1) as nat);
        assert(b.sound_source(id));
        assert(a.sources[id].callbacks.is_prefix_of(b.sources[id].callbacks));
        let entry = b.sources[id].callbacks[count - 1];
        assert(b.sources[id].shape == a.sources[id].shape);
        assert(b.sources[id].history == a.sources[id].history);
        lemma_steady_nothing(b, idle);
        lemma_reflexive(b, idle);
        if !b.disappeared(entry) {
            lemma_react_sound(b, all, idle, id, entry, v);
            lemma_react_steady(b, all, idle, id, entry, v);
        }
        let c = b.answer_to(all, idle, entry, v);
        lemma_steady_transitive(a, b, c, idle);
        assert forall|s: int| a.is_passive(s) && s != id implies (
        #[trigger] c.sources[s]).history == a.sources[s].history by {
            assert(b.sources[s].history == a.sources[s].history);
            assert(b.is_passive(s));
        }
    }
}

/// A reaction is steady.
proof fn lemma_react_steady<T>(
    a: NetworkView<T>,
    all: Seq<Value<T>>,
    idle: Set<int>,
    id: int,
    entry: Entry<T>,
    v: Value<T>,
)
    requires
        a.sound(),
        a.is_source(id),
        a.sound_entry(id, entry),
        !a.disappeared(entry),
        v.fits(a.sources[id].shape),
        !idle.contains(id),
        a.sources[id].history.len() > 0,
        a.sources[id].history.last() == v,
    ensures
        a.steady(a.react(all, idle, entry.reaction, v), idle),
        a.rests(a.react(all, idle, entry.reaction, v), id),
    decreases idle.len(), 1int, 0int,
{
    lemma_steady_nothing(a, idle);
    let b = a.react(all, idle, entry.reaction, v);
    match entry.reaction {
        Reaction::Mapped { f, target } => {
            if let Some(w) = a.answer(all) {
                if (f.domain)(v) && (f.promise)(v, w) {
                    let c = a.take(w);
                    lemma_take_sound(a, w, idle);
                    assert(a.steady(c, idle));
                    lemma_fire_sound(c, all, idle, target, w, v);
                    lemma_fire_steady(c, all, idle, target, w, v);
                    lemma_steady_transitive(a, c, b, idle);
                    assert forall|s: int| a.is_passive(s) implies (#[trigger] b.sources[s]).history
                        == a.sources[s].history by {
                        assert(c.is_passive(s));
                    }
                }
            }
        },
        Reaction::FilterSome { target } => {
            if let Some(w) = v.contained() {
                lemma_fire_steady(a, all, idle, target, w, v);
            }
        },
        Reaction::Merge { left, target } => {
            let c = a.hear(target, left, v);
            lemma_hear_sound(a, target, left, v);
            assert(c.sources[target].shape == a.sources[target].shape);
            assert forall|s: int| a.is_source(s) implies a.sources[s].callbacks.is_prefix_of(
                (#[trigger] c.sources[s]).callbacks,
            ) by {
                let x = a.sources[s].callbacks;
                assert(x =~= x.subrange(0, x.len() as int));
            }
            lemma_steady_step(a, c, idle);
            lemma_fire_sound(c, all, idle, target, v, v);
            lemma_fire_steady(c, all, idle, target, v, v);
            lemma_steady_transitive(a, c, b, idle);
            assert forall|s: int| a.is_passive(s) implies (#[trigger] b.sources[s]).history
                == a.sources[s].history by {
                assert(c.is_passive(s));
            }
        },
        Reaction::Switch { target } => {
            lemma_rewire_steady(a, idle, id, target, v);
        },
        Reaction::Switched { target, token, from } => {
            lemma_fire_steady(a, all, idle, target, v, v);
        },
        Reaction::Snapshot { signal, f, target } => {
            if let Some(x) = a.answer(all) {
                if let Some(w) = a.take(x).answer(all) {
                    if a.defined(signal) && a.is_safe(signal) && a.can_be(signal, x) && (f.domain)(
                        (x, v),
                    ) && (f.promise)((x, v), w) {
                        let c = a.take(x).take(w);
                        lemma_can_be_fits(a, signal, x);
                        assert(a.returned =~= c.returned.subrange(0, a.returned.len() as int));
                        lemma_same_sound(a, c, idle);
                        lemma_same_can_be(a, c, signal, x);
                        assert(a.steady(c, idle));
                        assert(sampled(both(x, v)) == x);
                        lemma_fire_sound(c, all, idle, target, w, both(x, v));
                        lemma_fire_steady(c, all, idle, target, w, both(x, v));
                        lemma_steady_transitive(a, c, b, idle);
                        assert forall|s: int| a.is_passive(s) implies (
                        #[trigger] b.sources[s]).history == a.sources[s].history by {
                            assert(c.is_passive(s));
                        }
                    }
                }
            }
        },
        _ => {
            lemma_react_sound(a, all, idle, id, entry, v);
            assert forall|s: int| a.is_source(s) implies a.sources[s].callbacks.is_prefix_of(
                (#[trigger] b.sources[s]).callbacks,
            ) by {
                let x = a.sources[s].callbacks;
                assert(x =~= x.subrange(0, x.len() as int));
            }
            lemma_steady_step(a, b, idle);
        },
    }
}

/// Sweeping is steady.
proof fn lemma_sweep_steady<T>(a: NetworkView<T>, idle: Set<int>)
    requires
        a.sound(),
    ensures
        a.steady(a.sweep(), idle),
{
    let b = a.sweep();
    lemma_sweep_sound(a);
    assert forall|s: int| a.is_source(s) implies (#[trigger] b.sources[s]) == a.swept_source(
        s,
    ) by {}
    assert forall|s: int, i: int| a.is_callback(s, i) implies #[trigger] a.keeps_callback(
        b,
        s,
        i,
    ) by {
        let entry = a.sources[s].callbacks[i];
        assert(a.sound_source(s));
        assert(a.sound_entry(s, entry));
        assert(b.sources[s] == a.swept_source(s));
        if a.alive(s) {
            assert(b.sources[s].callbacks[i] == entry);
        } else {
            alive_is_held_or_rested_on(a, s);
            assert(!a.live(a.sources[s].callbacks[i]));
            lemma_live(a, entry);
            match entry.reaction {
                Reaction::Hold { cell } => {
                    assert(b.cells[cell] == a.swept_cell(cell));
                },
                Reaction::ScanMut { cell, .. } => {
                    assert(b.cells[cell] == a.swept_cell(cell));
                },
                Reaction::Mapped { target, .. } => {
                    assert(b.sources[target] == a.swept_source(target));
                },
                Reaction::FilterSome { target } => {
                    assert(b.sources[target] == a.swept_source(target));
                },
                Reaction::Merge { target, .. } => {
                    assert(b.sources[target] == a.swept_source(target));
                },
                Reaction::Switch { target } => {
                    assert(b.sources[target] == a.swept_source(target));
                },
                Reaction::Switched { target, .. } => {
                    assert(b.sources[target] == a.swept_source(target));
                },
                Reaction::Snapshot { target, .. } => {
                    assert(b.sources[target] == a.swept_source(target));
                },
                Reaction::Events { .. } => {},
            }
        }
    }
    assert forall|m: int| a.is_source(m) implies #[trigger] a.keeps_following(b, idle, m) by {
        assert(b.sources[m].turns == a.sources[m].turns);
    }
    assert forall|k: int| a.is_cell(k) implies #[trigger] a.keeps_content(b, idle, k) by {
        assert(b.cells[k] == a.swept_cell(k));
    }
    assert forall|m: int| a.is_source(m) implies #[trigger] a.keeps_sampling(b, idle, m)
        && a.keeps_moments(b, m) by {
        assert(b.sources[m].causes == a.sources[m].causes);
        let x = a.sources[m].causes;
        assert(x =~= x.subrange(0, x.len() as int));
    }
}

/// Sending is steady, and makes no other sink fire.
pub proof fn lemma_sent_steady<T>(
    a: NetworkView<T>,
    id: int,
    v: Value<T>,
    all: Seq<Value<T>>,
)
    requires
        a.sound(),
        a.is_source(id),
        a.sources[id].origin is Sink,
        v.fits(a.sources[id].shape),
    ensures
        a.sent(id, v, all).sound(),
        a.becomes(a.sent(id, v, all)),
        a.sent(id, v, all).swept(),
        a.steady(a.sent(id, v, all), a.ids()),
        a.rests(a.sent(id, v, all), id),
        a.sent(id, v, all).sources[id].history == a.sources[id].history.push(v),
{
    let idle = a.ids();
    let b = a.fire(all, idle, id, v, v);
    let c = b.sweep();
    vstd::set_lib::lemma_int_range(0, a.sources.len() as int);
    lemma_fire_sound(a, all, idle, id, v, v);
    lemma_fire_steady(a, all, idle, id, v, v);
    lemma_sweep_sound(b);
    lemma_sweep_steady(b, idle);
    lemma_becomes_transitive(a, b, c);
    lemma_steady_transitive(a, b, c, idle);
    assert forall|s: int| a.is_passive(s) && s != id implies (#[trigger] c.sources[s]).history
        == a.sources[s].history by {
        assert(c.sources[s] == b.swept_source(s));
        assert(b.sources[s].history == a.sources[s].history);
    }
    let fired = a.record(id, v, v);
    lemma_record_sound(a, id, v, v);
    lemma_deliver_sound(
        fired,
        all,
        idle.remove(id),
        id,
        v,
        fired.sources[id].callbacks.len(),
    );
    assert(b.sources[id].history == a.sources[id].history.push(v));
    assert(c.sources[id] == b.swept_source(id));
}

} // verus!
