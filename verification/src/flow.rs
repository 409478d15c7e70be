//! When an event runs through a network without poisoning it, and where it runs.
//!
//! Streams are made from streams that were there before, so events run
//! forward, and no source is made to fire while it is firing. Only a switch can
//! be handed a stream that was made after it. So the sources are ordered by a
//! rank that need not be the order in which they were made.
use crate::life::lemma_sweep_sound;
use crate::model::{both, ContentView, Entry, NetworkView, Origin, Reaction};
use crate::sound::{
    lemma_becomes_transitive, lemma_can_be_fits, lemma_deliver_sound, lemma_fire_sound,
    lemma_hear_sound, lemma_prune_sound, lemma_react_sound, lemma_record_sound, lemma_reflexive,
    lemma_rewire_sound, lemma_same_sound, lemma_take_sound,
};
use crate::steady::lemma_stays_disappeared;
use crate::value::Value;
use vstd::prelude::*;

verus! {

/// The source that a callback makes fire.
pub open spec fn fires_into<T>(entry: Entry<T>) -> Option<int> {
    match entry.reaction {
        Reaction::Mapped { target, .. } => Some(target),
        Reaction::FilterSome { target } => Some(target),
        Reaction::Merge { target, .. } => Some(target),
        Reaction::Switched { target, .. } => Some(target),
        Reaction::Snapshot { target, .. } => Some(target),
        _ => None,
    }
}

/// The source that a callback makes fire, now or, if that is a switch which it
/// hands a stream over to, as soon as the stream fires.
pub open spec fn bears_on<T>(entry: Entry<T>) -> Option<int> {
    match entry.reaction {
        Reaction::Switch { target } => Some(target),
        _ => fires_into(entry),
    }
}

impl<T> NetworkView<T> {
    /// If the callback `i` of the source `s` makes a source fire, that one has a
    /// higher rank.
    pub open spec fn rises(self, rank: spec_fn(int) -> int, s: int, i: int) -> bool {
        let entry = self.sources[s].callbacks[i];
        !self.disappeared(entry) ==> (fires_into(entry) matches Some(t) ==> rank(s) < rank(t))
    }

    /// Events run from lower to higher ranks.
    pub open spec fn flows_by(self, rank: spec_fn(int) -> int) -> bool {
        forall|s: int, i: int| self.is_callback(s, i) ==> #[trigger] self.rises(rank, s, i)
    }

    /// If the callback `i` of the source `s` bears on a source, that one is among
    /// `reached`.
    pub open spec fn stays_among(self, reached: Set<int>, s: int, i: int) -> bool {
        let entry = self.sources[s].callbacks[i];
        !self.disappeared(entry) ==> (bears_on(entry) matches Some(t) ==> reached.contains(t))
    }

    /// Whatever one of `reached` fires bears on none but those.
    pub open spec fn closed_in(self, reached: Set<int>) -> bool {
        forall|s: int, i: int|
            self.is_callback(s, i) && reached.contains(s) ==> #[trigger] self.stays_among(
                reached,
                s,
                i,
            )
    }

    /// Every signal has a value.
    pub open spec fn settled(self) -> bool {
        forall|k: int|
            self.is_cell(k) && !self.cells[k].ended ==> #[trigger] self.defined(k)
    }

    /// The switch `m` can be handed `v` by the source `s` after something has been
    /// sent into `top`, if none but `reached` fire: it is a stream of the network
    /// that has not ended, is not firing, and has a lower rank than the switch.
    pub open spec fn acceptable(
        self,
        rank: spec_fn(int) -> int,
        reached: Set<int>,
        top: int,
        s: int,
        v: Value<T>,
        m: int,
    ) -> bool {
        v matches Value::Stream(number, new, _) && {
            &&& number == self.number
            &&& self.is_source(new as int)
            &&& self.sources[new as int].shape == self.sources[m].shape
            &&& !self.sources[new as int].ended
            &&& rank(new as int) < rank(m)
            &&& {
                ||| !reached.contains(new as int)
                ||| rank(s) < rank(new as int)
                ||| s == top && new as int != top
            }
        }
    }

    /// The source `s` hands what it fires to the switch `m`.
    pub open spec fn hands_to(self, s: int, m: int) -> bool {
        &&& self.is_source(m)
        &&& !self.sources[m].ended
        &&& self.sources[m].origin matches Origin::Switch { parent, .. } && parent == s
    }

    /// What `s` fires as its event number `j` is acceptable to the switch `m`, if
    /// it hands it over.
    pub open spec fn hands_well(
        self,
        rank: spec_fn(int) -> int,
        reached: Set<int>,
        top: int,
        next: NetworkView<T>,
        s: int,
        j: int,
        m: int,
    ) -> bool {
        self.hands_to(s, m) ==> self.acceptable(
            rank,
            reached,
            top,
            s,
            next.sources[s].history[j],
            m,
        )
    }

    /// Whatever the sources among `reached` have handed to switches on the way to
    /// `next` was acceptable.
    pub open spec fn hands_over_well(
        self,
        rank: spec_fn(int) -> int,
        reached: Set<int>,
        top: int,
        next: NetworkView<T>,
    ) -> bool {
        forall|s: int, j: int, m: int|
            self.is_source(s) && reached.contains(s) && self.sources[s].history.len() <= j
                < next.sources[s].history.len() ==> #[trigger] self.hands_well(
                rank,
                reached,
                top,
                next,
                s,
                j,
                m,
            )
    }

    /// No callback of `next` is new.
    pub open spec fn sheds_to(self, next: NetworkView<T>) -> bool {
        &&& self.becomes(next)
        &&& forall|s: int, i: int|
            next.is_callback(s, i) ==> self.sources[s].callbacks.contains(
                #[trigger] next.sources[s].callbacks[i],
            )
    }

    /// The sources that are not among `reached` have fired nothing on the way to
    /// `next`.
    pub open spec fn silent_but(self, next: NetworkView<T>, reached: Set<int>) -> bool {
        forall|s: int|
            self.is_source(s) && !reached.contains(s) ==> (#[trigger] next.sources[s]).history
                == self.sources[s].history
    }
}

/// What holds of all callbacks holds of those that are left.
pub proof fn lemma_sheds<T>(
    a: NetworkView<T>,
    b: NetworkView<T>,
    rank: spec_fn(int) -> int,
    reached: Set<int>,
)
    requires
        a.sound(),
        a.sheds_to(b),
    ensures
        a.flows_by(rank) ==> b.flows_by(rank),
        a.closed_in(reached) ==> b.closed_in(reached),
{
    assert forall|s: int, i: int| b.is_callback(s, i) implies exists|j: int|
        a.is_callback(s, j) && #[trigger] a.sources[s].callbacks[j]
            == b.sources[s].callbacks[i] by {
        assert(a.sources[s].callbacks.contains(b.sources[s].callbacks[i]));
    }
    lemma_reflexive(a, a.ids());
    assert forall|s: int, i: int| b.is_callback(s, i) && a.flows_by(rank) implies
        #[trigger] b.rises(rank, s, i) by {
        let j = choose|j: int|
            a.is_callback(s, j) && #[trigger] a.sources[s].callbacks[j]
                == b.sources[s].callbacks[i];
        let entry = a.sources[s].callbacks[j];
        assert(a.sound_source(s));
        assert(a.sound_entry(s, entry));
        if a.disappeared(entry) {
            lemma_stays_disappeared(a, a, b, s, entry);
        }
        assert(a.rises(rank, s, j));
    }
    assert forall|s: int, i: int|
        b.is_callback(s, i) && a.closed_in(reached) && reached.contains(s) implies
        #[trigger] b.stays_among(reached, s, i) by {
        let j = choose|j: int|
            a.is_callback(s, j) && #[trigger] a.sources[s].callbacks[j]
                == b.sources[s].callbacks[i];
        let entry = a.sources[s].callbacks[j];
        assert(a.sound_source(s));
        assert(a.sound_entry(s, entry));
        if a.disappeared(entry) {
            lemma_stays_disappeared(a, a, b, s, entry);
        }
        assert(a.stays_among(reached, s, j));
    }
}

/// The callbacks are the same.
proof fn lemma_sheds_nothing<T>(a: NetworkView<T>, b: NetworkView<T>)
    requires
        a.becomes(b),
        forall|s: int|
            a.is_source(s) ==> (#[trigger] b.sources[s]).callbacks == a.sources[s].callbacks,
    ensures
        a.sheds_to(b),
{
    assert forall|s: int, i: int| b.is_callback(s, i) implies a.sources[s].callbacks.contains(
        #[trigger] b.sources[s].callbacks[i],
    ) by {
        assert(b.sources[s].callbacks == a.sources[s].callbacks);
        assert(a.sources[s].callbacks[i] == b.sources[s].callbacks[i]);
    }
}

/// Signals keep having values.
pub proof fn lemma_stays_settled<T>(a: NetworkView<T>, b: NetworkView<T>)
    requires
        a.becomes(b),
        a.settled(),
        b.sound(),
    ensures
        b.settled(),
{
    assert forall|k: int| b.is_cell(k) && !b.cells[k].ended implies #[trigger] b.defined(k) by {
        assert(a.defined(k));
        lemma_stays_defined(a, b, k);
    }
}

/// A signal that has a value keeps having one.
pub proof fn lemma_stays_defined<T>(a: NetworkView<T>, b: NetworkView<T>, k: int)
    requires
        a.becomes(b),
        b.sound(),
        a.defined(k),
        !b.cells[k].ended,
    ensures
        b.defined(k),
    decreases k,
{
    assert(b.cells[k].content is Held == a.cells[k].content is Held);
    assert(b.sound_cell(k));
    if let ContentView::Combined { state, other, f } = a.cells[k].content {
        lemma_stays_defined(a, b, state);
        lemma_stays_defined(a, b, other);
    }
}

proof fn lemma_prune_sheds<T>(a: NetworkView<T>, id: int)
    requires
        a.sound(),
        a.is_source(id),
    ensures
        a.sheds_to(a.prune(id)),
{
    let b = a.prune(id);
    let keep = |e: Entry<T>| !a.disappeared(e);
    lemma_prune_sound(a, id);
    assert forall|s: int, i: int| b.is_callback(s, i) implies a.sources[s].callbacks.contains(
        #[trigger] b.sources[s].callbacks[i],
    ) by {
        if s == id {
            a.sources[id].callbacks.lemma_filter_contains_rev(keep, b.sources[id].callbacks[i]);
        } else {
            assert(a.sources[s].callbacks[i] == b.sources[s].callbacks[i]);
        }
    }
}

pub proof fn lemma_sweep_sheds<T>(a: NetworkView<T>)
    requires
        a.sound(),
    ensures
        a.sheds_to(a.sweep()),
{
    let b = a.sweep();
    lemma_sweep_sound(a);
    assert forall|s: int, i: int| b.is_callback(s, i) implies a.sources[s].callbacks.contains(
        #[trigger] b.sources[s].callbacks[i],
    ) by {
        assert(b.sources[s] == a.swept_source(s));
        assert(a.sources[s].callbacks[i] == b.sources[s].callbacks[i]);
    }
}

// ---- Where events run ----

/// What one of `reached` fires makes none but those fire, whatever it hands over.
proof fn lemma_fire_reaches<T>(
    a: NetworkView<T>,
    all: Seq<Value<T>>,
    idle: Set<int>,
    reached: Set<int>,
    id: int,
    v: Value<T>,
    cause: Value<T>,
)
    requires
        a.sound(),
        a.is_source(id),
        v.fits(a.sources[id].shape),
        reached.contains(id),
        a.closed_in(reached),
    ensures
        a.fire(all, idle, id, v, cause).closed_in(reached),
        a.silent_but(a.fire(all, idle, id, v, cause), reached),
    decreases idle.len(), 0int, 0int,
{
    let rank = |s: int| 0int;
    if idle.finite() && idle.contains(id) {
        let b = a.record(id, v, cause);
        let rest = idle.remove(id);
        let count = b.sources[id].callbacks.len();
        let c = b.deliver(all, rest, id, v, count);
        lemma_record_sound(a, id, v, cause);
        lemma_sheds_nothing(a, b);
        lemma_sheds(a, b, rank, reached);
        lemma_deliver_sound(b, all, rest, id, v, count);
        lemma_deliver_reaches(b, all, rest, reached, id, v, count);
        lemma_prune_sheds(c, id);
        lemma_sheds(c, c.prune(id), rank, reached);
        assert forall|s: int| a.is_source(s) && !reached.contains(s) implies (
        #[trigger] c.prune(id).sources[s]).history == a.sources[s].history by {
            assert(c.sources[s].history == b.sources[s].history);
        }
    } else {
        lemma_reflexive(a, idle);
        lemma_own_prefix(a.returned);
        lemma_same_sound(a, a.poison(), idle);
        lemma_sheds_nothing(a, a.poison());
        lemma_sheds(a, a.poison(), rank, reached);
    }
}

proof fn lemma_own_prefix<X>(x: Seq<X>)
    ensures
        x.is_prefix_of(x),
{
    assert(x =~= x.subrange(0, x.len() as int));
}

proof fn lemma_deliver_reaches<T>(
    a: NetworkView<T>,
    all: Seq<Value<T>>,
    idle: Set<int>,
    reached: Set<int>,
    id: int,
    v: Value<T>,
    count: nat,
)
    requires
        a.sound(),
        a.is_source(id),
        v.fits(a.sources[id].shape),
        reached.contains(id),
        a.closed_in(reached),
        !idle.contains(id),
        count <= a.sources[id].callbacks.len(),
    ensures
        a.deliver(all, idle, id, v, count).closed_in(reached),
        a.silent_but(a.deliver(all, idle, id, v, count), reached),
    decreases idle.len(), 2int, count,
{
    if count > 0 {
        let less = (count - 1) as nat;
        let b = a.deliver(all, idle, id, v, less);
        lemma_deliver_sound(a, all, idle, id, v, less);
        lemma_deliver_reaches(a, all, idle, reached, id, v, less);
        assert(a.sources[id].callbacks.is_prefix_of(b.sources[id].callbacks));
        assert(b.sources[id].shape == a.sources[id].shape);
        assert(b.sound_source(id));
        let entry = b.sources[id].callbacks[less as int];
        let c = b.answer_to(all, idle, entry, v);
        assert(a.deliver(all, idle, id, v, count) == c);
        if !b.disappeared(entry) {
            lemma_react_reaches(b, all, idle, reached, id, less as int, v);
        }
        assert forall|s: int| a.is_source(s) && !reached.contains(s) implies (
        #[trigger] c.sources[s]).history == a.sources[s].history by {
            assert(b.sources[s].history == a.sources[s].history);
        }
    }
}

proof fn lemma_react_reaches<T>(
    a: NetworkView<T>,
    all: Seq<Value<T>>,
    idle: Set<int>,
    reached: Set<int>,
    id: int,
    i: int,
    v: Value<T>,
)
    requires
        a.sound(),
        a.is_callback(id, i),
        v.fits(a.sources[id].shape),
        reached.contains(id),
        a.closed_in(reached),
        !a.disappeared(a.sources[id].callbacks[i]),
    ensures
        a.react(all, idle, a.sources[id].callbacks[i].reaction, v).closed_in(reached),
        a.silent_but(a.react(all, idle, a.sources[id].callbacks[i].reaction, v), reached),
    decreases idle.len(), 1int, 0int,
{
    let rank = |s: int| 0int;
    let entry = a.sources[id].callbacks[i];
    let b = a.react(all, idle, entry.reaction, v);
    assert(a.sound_source(id));
    assert(a.sound_entry(id, entry));
    assert(a.stays_among(reached, id, i));
    lemma_reflexive(a, idle);
    lemma_own_prefix(a.returned);
    lemma_same_sound(a, a.lose(), idle);
    lemma_same_sound(a, a.overstep(), idle);
    lemma_same_sound(a, a.poison(), idle);
    lemma_sheds_nothing(a, a.lose());
    lemma_sheds_nothing(a, a.overstep());
    lemma_sheds_nothing(a, a.poison());
    lemma_sheds(a, a.lose(), rank, reached);
    lemma_sheds(a, a.overstep(), rank, reached);
    lemma_sheds(a, a.poison(), rank, reached);
    match entry.reaction {
        Reaction::Mapped { f, target } => {
            if let Some(w) = a.answer(all) {
                if (f.domain)(v) && (f.promise)(v, w) {
                    let c = a.take(w);
                    lemma_take_sound(a, w, idle);
                    lemma_taken_reaches(a, c, all, idle, reached, target, w, v);
                }
            }
        },
        Reaction::FilterSome { target } => {
            if let Some(w) = v.contained() {
                lemma_fire_reaches(a, all, idle, reached, target, w, v);
            }
        },
        Reaction::Merge { left, target } => {
            let c = a.hear(target, left, v);
            lemma_hear_sound(a, target, left, v);
            assert(c.sources[target].shape == a.sources[target].shape);
            lemma_sheds_nothing(a, c);
            lemma_sheds(a, c, rank, reached);
            lemma_fire_reaches(c, all, idle, reached, target, v, v);
            assert forall|s: int| a.is_source(s) && !reached.contains(s) implies (
            #[trigger] b.sources[s]).history == a.sources[s].history by {
                assert(c.sources[s].history == a.sources[s].history);
            }
        },
        Reaction::Switch { target } => {
            lemma_rewire_reaches(a, reached, idle, target, v);
        },
        Reaction::Switched { target, token, from } => {
            lemma_fire_reaches(a, all, idle, reached, target, v, v);
        },
        Reaction::Snapshot { signal, f, target } => {
            if let Some(x) = a.answer(all) {
                if let Some(w) = a.take(x).answer(all) {
                    if a.defined(signal) && a.is_safe(signal) && a.can_be(signal, x) && (f.domain)(
                        (x, v),
                    ) && (f.promise)((x, v), w) {
                        lemma_can_be_fits(a, signal, x);
                        let c = a.take(x).take(w);
                        assert(a.returned =~= c.returned.subrange(0, a.returned.len() as int));
                        lemma_taken_reaches(a, c, all, idle, reached, target, w, both(x, v));
                    }
                }
            }
        },
        _ => {
            lemma_react_sound(a, all, idle, id, entry, v);
            lemma_sheds_nothing(a, b);
            lemma_sheds(a, b, rank, reached);
        },
    }
}

/// A switch among `reached` follows whatever it is handed.
proof fn lemma_rewire_reaches<T>(
    a: NetworkView<T>,
    reached: Set<int>,
    idle: Set<int>,
    target: int,
    v: Value<T>,
)
    requires
        a.sound(),
        a.closed_in(reached),
        a.is_source(target),
        a.sources[target].origin is Switch,
        reached.contains(target),
    ensures
        a.rewire(idle, target, v).closed_in(reached),
        a.silent_but(a.rewire(idle, target, v), reached),
{
    let b = a.rewire(idle, target, v);
    lemma_rewire_sound(a, idle, target, v);
    lemma_reflexive(a, idle);
    assert forall|s: int, i: int| b.is_callback(s, i) && reached.contains(s) implies
        #[trigger] b.stays_among(reached, s, i) by {
        if i < a.sources[s].callbacks.len() {
            let entry = a.sources[s].callbacks[i];
            assert(a.is_callback(s, i));
            assert(a.stays_among(reached, s, i));
            assert(b.sources[s].callbacks[i] == entry);
            assert(a.sound_source(s));
            assert(a.sound_entry(s, entry));
            if a.disappeared(entry) {
                lemma_stays_disappeared(a, a, b, s, entry);
            }
        }
    }
}

proof fn lemma_taken_reaches<T>(
    a: NetworkView<T>,
    c: NetworkView<T>,
    all: Seq<Value<T>>,
    idle: Set<int>,
    reached: Set<int>,
    id: int,
    v: Value<T>,
    cause: Value<T>,
)
    requires
        a.sound(),
        a.is_source(id),
        v.fits(a.sources[id].shape),
        reached.contains(id),
        a.closed_in(reached),
        c == (NetworkView { returned: c.returned, ..a }),
        a.returned.is_prefix_of(c.returned),
    ensures
        c.fire(all, idle, id, v, cause).closed_in(reached),
        a.silent_but(c.fire(all, idle, id, v, cause), reached),
    decreases idle.len(), 0int, 1int,
{
    let rank = |s: int| 0int;
    let b = c.fire(all, idle, id, v, cause);
    lemma_same_sound(a, c, idle);
    lemma_sheds_nothing(a, c);
    lemma_sheds(a, c, rank, reached);
    lemma_fire_reaches(c, all, idle, reached, id, v, cause);
    assert forall|s: int| a.is_source(s) && !reached.contains(s) implies (
    #[trigger] b.sources[s]).history == a.sources[s].history by {
        assert(c.sources[s].history == a.sources[s].history);
    }
}

/// Sending makes none but the sources among `reached` fire.
pub proof fn lemma_sent_reaches<T>(
    a: NetworkView<T>,
    reached: Set<int>,
    id: int,
    v: Value<T>,
    all: Seq<Value<T>>,
)
    requires
        a.sound(),
        a.is_source(id),
        v.fits(a.sources[id].shape),
        reached.contains(id),
        a.closed_in(reached),
    ensures
        a.sent(id, v, all).closed_in(reached),
        a.silent_but(a.sent(id, v, all), reached),
{
    let rank = |s: int| 0int;
    let fired = a.fire(all, a.ids(), id, v, v);
    lemma_fire_sound(a, all, a.ids(), id, v, v);
    lemma_fire_reaches(a, all, a.ids(), reached, id, v, v);
    lemma_sweep_sheds(fired);
    lemma_sheds(fired, fired.sweep(), rank, reached);
    let b = fired.sweep();
    assert forall|s: int| a.is_source(s) && !reached.contains(s) implies (
    #[trigger] b.sources[s]).history == a.sources[s].history by {
        assert(b.sources[s] == fired.swept_source(s));
        assert(fired.sources[s].history == a.sources[s].history);
    }
}

// ---- Sending without poisoning ----

/// What is handed over later on the way is acceptable too.
proof fn lemma_still_well<T>(
    a: NetworkView<T>,
    b: NetworkView<T>,
    rank: spec_fn(int) -> int,
    reached: Set<int>,
    top: int,
    end: NetworkView<T>,
)
    requires
        a.becomes(b),
        a.same_ends(b),
        b.becomes(end),
        a.hands_over_well(rank, reached, top, end),
    ensures
        b.hands_over_well(rank, reached, top, end),
{
    assert forall|s: int, j: int, m: int|
        b.is_source(s) && reached.contains(s) && b.sources[s].history.len() <= j
            < end.sources[s].history.len() implies #[trigger] b.hands_well(
        rank,
        reached,
        top,
        end,
        s,
        j,
        m,
    ) by {
        assert(a.sources[s].history.is_prefix_of(b.sources[s].history));
        if b.hands_to(s, m) {
            assert(a.sources[m].origin == b.sources[m].origin);
            assert(a.hands_well(rank, reached, top, end, s, j, m));
            if let Value::Stream(_, new, _) = end.sources[s].history[j] {
                assert(b.sources[new as int].shape == a.sources[new as int].shape);
            }
        }
    }
}

/// An event runs upward from the source `id`.
proof fn lemma_fire_flows<T>(
    a: NetworkView<T>,
    all: Seq<Value<T>>,
    rank: spec_fn(int) -> int,
    reached: Set<int>,
    top: int,
    idle: Set<int>,
    id: int,
    v: Value<T>,
    cause: Value<T>,
    end: NetworkView<T>,
)
    requires
        a.sound(),
        !a.poisoned,
        a.flows_by(rank),
        a.settled(),
        a.is_source(id),
        v.fits(a.sources[id].shape),
        idle.finite(),
        forall|s: int|
            a.is_source(s) && !(#[trigger] idle.contains(s)) ==> rank(s) < rank(id)
                && reached.contains(s),
        rank(top) <= rank(id),
        id == top ==> forall|s: int| a.is_source(s) ==> #[trigger] idle.contains(s),
        reached.contains(id),
        a.closed_in(reached),
        a.fire(all, idle, id, v, cause).becomes(end),
        a.hands_over_well(rank, reached, top, end),
    ensures
        !a.fire(all, idle, id, v, cause).poisoned,
        a.fire(all, idle, id, v, cause).flows_by(rank),
    decreases idle.len(), 0int, 0int,
{
    assert(idle.contains(id));
    let b = a.record(id, v, cause);
    let rest = idle.remove(id);
    let count = b.sources[id].callbacks.len();
    let c = b.deliver(all, rest, id, v, count);
    let d = c.prune(id);
    lemma_record_sound(a, id, v, cause);
    lemma_sheds_nothing(a, b);
    lemma_sheds(a, b, rank, reached);
    lemma_stays_settled(a, b);
    lemma_deliver_sound(b, all, rest, id, v, count);
    lemma_prune_sound(c, id);
    lemma_becomes_transitive(c, d, end);
    lemma_becomes_transitive(b, c, end);
    lemma_still_well(a, b, rank, reached, top, end);
    assert(b.sources[id].history.last() == v);
    assert forall|m: int| b.hands_to(id, m) implies #[trigger] b.acceptable(
        rank,
        reached,
        top,
        id,
        v,
        m,
    ) by {
        let j = a.sources[id].history.len() as int;
        assert(b.sources[id].history.is_prefix_of(end.sources[id].history));
        assert(end.sources[id].history[j] == b.sources[id].history[j]);
        assert(a.sources[m].origin == b.sources[m].origin);
        assert(a.hands_well(rank, reached, top, end, id, j, m));
        if let Value::Stream(_, new, _) = v {
            assert(b.sources[new as int].shape == a.sources[new as int].shape);
        }
    }
    lemma_deliver_flows(b, all, rank, reached, top, rest, id, v, count, end);
    lemma_prune_sheds(c, id);
    lemma_sheds(c, d, rank, reached);
}

proof fn lemma_deliver_flows<T>(
    a: NetworkView<T>,
    all: Seq<Value<T>>,
    rank: spec_fn(int) -> int,
    reached: Set<int>,
    top: int,
    idle: Set<int>,
    id: int,
    v: Value<T>,
    count: nat,
    end: NetworkView<T>,
)
    requires
        a.sound(),
        !a.poisoned,
        a.flows_by(rank),
        a.settled(),
        a.is_source(id),
        v.fits(a.sources[id].shape),
        idle.finite(),
        !idle.contains(id),
        forall|s: int|
            a.is_source(s) && !(#[trigger] idle.contains(s)) ==> rank(s) <= rank(id)
                && reached.contains(s),
        rank(top) <= rank(id),
        id == top ==> forall|s: int|
            a.is_source(s) && s != top ==> #[trigger] idle.contains(s),
        reached.contains(id),
        a.closed_in(reached),
        count <= a.sources[id].callbacks.len(),
        a.deliver(all, idle, id, v, count).becomes(end),
        a.hands_over_well(rank, reached, top, end),
        forall|m: int| a.hands_to(id, m) ==> #[trigger] a.acceptable(rank, reached, top, id, v, m),
    ensures
        !a.deliver(all, idle, id, v, count).poisoned,
        a.deliver(all, idle, id, v, count).flows_by(rank),
    decreases idle.len(), 2int, count,
{
    if count > 0 {
        let less = (count - 1) as nat;
        let b = a.deliver(all, idle, id, v, less);
        lemma_deliver_sound(a, all, idle, id, v, less);
        lemma_deliver_reaches(a, all, idle, reached, id, v, less);
        lemma_stays_settled(a, b);
        assert(a.sources[id].callbacks.is_prefix_of(b.sources[id].callbacks));
        assert(b.sources[id].shape == a.sources[id].shape);
        assert(b.sound_source(id));
        let entry = b.sources[id].callbacks[less as int];
        let c = b.answer_to(all, idle, entry, v);
        assert(a.deliver(all, idle, id, v, count) == c);
        lemma_reflexive(b, idle);
        if !b.disappeared(entry) {
            assert(b.sound_entry(id, entry));
            lemma_react_sound(b, all, idle, id, entry, v);
        }
        lemma_becomes_transitive(b, c, end);
        lemma_deliver_flows(a, all, rank, reached, top, idle, id, v, less, end);
        lemma_still_well(a, b, rank, reached, top, end);
        if !b.disappeared(entry) {
            assert forall|m: int| b.hands_to(id, m) implies #[trigger] b.acceptable(
                rank,
                reached,
                top,
                id,
                v,
                m,
            ) by {
                assert(a.sources[m].origin == b.sources[m].origin);
                assert(a.acceptable(rank, reached, top, id, v, m));
                if let Value::Stream(_, new, _) = v {
                    assert(b.sources[new as int].shape == a.sources[new as int].shape);
                }
            }
            lemma_react_flows(b, all, rank, reached, top, idle, id, less as int, v, end);
        }
    }
}

proof fn lemma_react_flows<T>(
    a: NetworkView<T>,
    all: Seq<Value<T>>,
    rank: spec_fn(int) -> int,
    reached: Set<int>,
    top: int,
    idle: Set<int>,
    id: int,
    i: int,
    v: Value<T>,
    end: NetworkView<T>,
)
    requires
        a.sound(),
        !a.poisoned,
        a.flows_by(rank),
        a.settled(),
        a.is_callback(id, i),
        v.fits(a.sources[id].shape),
        idle.finite(),
        !idle.contains(id),
        forall|s: int|
            a.is_source(s) && !(#[trigger] idle.contains(s)) ==> rank(s) <= rank(id)
                && reached.contains(s),
        rank(top) <= rank(id),
        id == top ==> forall|s: int|
            a.is_source(s) && s != top ==> #[trigger] idle.contains(s),
        reached.contains(id),
        a.closed_in(reached),
        !a.disappeared(a.sources[id].callbacks[i]),
        a.react(all, idle, a.sources[id].callbacks[i].reaction, v).becomes(end),
        a.hands_over_well(rank, reached, top, end),
        forall|m: int| a.hands_to(id, m) ==> #[trigger] a.acceptable(rank, reached, top, id, v, m),
    ensures
        !a.react(all, idle, a.sources[id].callbacks[i].reaction, v).poisoned,
        a.react(all, idle, a.sources[id].callbacks[i].reaction, v).flows_by(rank),
    decreases idle.len(), 1int, 0int,
{
    let entry = a.sources[id].callbacks[i];
    let b = a.react(all, idle, entry.reaction, v);
    assert(a.sound_source(id));
    assert(a.sound_entry(id, entry));
    assert(a.rises(rank, id, i));
    assert(a.stays_among(reached, id, i));
    lemma_reflexive(a, idle);
    lemma_own_prefix(a.returned);
    lemma_same_sound(a, a.lose(), idle);
    lemma_same_sound(a, a.overstep(), idle);
    lemma_sheds_nothing(a, a.lose());
    lemma_sheds_nothing(a, a.overstep());
    lemma_sheds(a, a.lose(), rank, reached);
    lemma_sheds(a, a.overstep(), rank, reached);
    match entry.reaction {
        Reaction::Mapped { f, target } => {
            if let Some(w) = a.answer(all) {
                if (f.domain)(v) && (f.promise)(v, w) {
                    let c = a.take(w);
                    lemma_take_sound(a, w, idle);
                    lemma_taken_flows(a, c, all, rank, reached, top, idle, target, w, v, end);
                }
            }
        },
        Reaction::FilterSome { target } => {
            if let Some(w) = v.contained() {
                lemma_fire_flows(a, all, rank, reached, top, idle, target, w, v, end);
            }
        },
        Reaction::Merge { left, target } => {
            let c = a.hear(target, left, v);
            lemma_hear_sound(a, target, left, v);
            assert(c.sources[target].shape == a.sources[target].shape);
            lemma_sheds_nothing(a, c);
            lemma_sheds(a, c, rank, reached);
            lemma_stays_settled(a, c);
            lemma_fire_sound(c, all, idle, target, v, v);
            lemma_becomes_transitive(c, b, end);
            lemma_still_well(a, c, rank, reached, top, end);
            lemma_fire_flows(c, all, rank, reached, top, idle, target, v, v, end);
        },
        Reaction::Switch { target } => {
            assert(a.hands_to(id, target));
            assert(a.acceptable(rank, reached, top, id, v, target));
            lemma_rewire_flows(a, rank, idle, target, v);
        },
        Reaction::Switched { target, token, from } => {
            lemma_fire_flows(a, all, rank, reached, top, idle, target, v, v, end);
        },
        Reaction::Snapshot { signal, f, target } => {
            assert(a.defined(signal));
            if let Some(x) = a.answer(all) {
                if let Some(w) = a.take(x).answer(all) {
                    if a.is_safe(signal) && a.can_be(signal, x) && (f.domain)((x, v)) && (
                    f.promise)((x, v), w) {
                        lemma_can_be_fits(a, signal, x);
                        let c = a.take(x).take(w);
                        let cause = both(x, v);
                        assert(a.returned =~= c.returned.subrange(0, a.returned.len() as int));
                        lemma_taken_flows(
                            a,
                            c,
                            all,
                            rank,
                            reached,
                            top,
                            idle,
                            target,
                            w,
                            cause,
                            end,
                        );
                    }
                }
            }
        },
        _ => {
            lemma_react_sound(a, all, idle, id, entry, v);
            lemma_sheds_nothing(a, b);
            lemma_sheds(a, b, rank, reached);
        },
    }
}

/// A source is made to fire after something has been returned.
proof fn lemma_taken_flows<T>(
    a: NetworkView<T>,
    c: NetworkView<T>,
    all: Seq<Value<T>>,
    rank: spec_fn(int) -> int,
    reached: Set<int>,
    top: int,
    idle: Set<int>,
    id: int,
    v: Value<T>,
    cause: Value<T>,
    end: NetworkView<T>,
)
    requires
        a.sound(),
        !a.poisoned,
        a.flows_by(rank),
        a.settled(),
        a.is_source(id),
        v.fits(a.sources[id].shape),
        idle.finite(),
        forall|s: int|
            a.is_source(s) && !(#[trigger] idle.contains(s)) ==> rank(s) < rank(id)
                && reached.contains(s),
        rank(top) < rank(id),
        reached.contains(id),
        a.closed_in(reached),
        c == (NetworkView { returned: c.returned, ..a }),
        a.returned.is_prefix_of(c.returned),
        c.fire(all, idle, id, v, cause).becomes(end),
        a.hands_over_well(rank, reached, top, end),
    ensures
        !c.fire(all, idle, id, v, cause).poisoned,
        c.fire(all, idle, id, v, cause).flows_by(rank),
    decreases idle.len(), 0int, 1int,
{
    lemma_same_sound(a, c, idle);
    lemma_sheds_nothing(a, c);
    lemma_sheds(a, c, rank, reached);
    lemma_stays_settled(a, c);
    lemma_fire_sound(c, all, idle, id, v, cause);
    lemma_becomes_transitive(c, c.fire(all, idle, id, v, cause), end);
    lemma_still_well(a, c, rank, reached, top, end);
    lemma_fire_flows(c, all, rank, reached, top, idle, id, v, cause, end);
}

/// A switch that is handed a stream which is not firing and has a lower rank
/// follows it.
proof fn lemma_rewire_flows<T>(
    a: NetworkView<T>,
    rank: spec_fn(int) -> int,
    idle: Set<int>,
    target: int,
    v: Value<T>,
)
    requires
        a.sound(),
        !a.poisoned,
        a.flows_by(rank),
        a.is_source(target),
        a.sources[target].origin is Switch,
        v matches Value::Stream(number, new, _) && {
            &&& number == a.number
            &&& a.is_source(new as int)
            &&& a.sources[new as int].shape == a.sources[target].shape
            &&& !a.sources[new as int].ended
            &&& rank(new as int) < rank(target)
            &&& idle.contains(new as int)
        },
    ensures
        !a.rewire(idle, target, v).poisoned,
        a.rewire(idle, target, v).flows_by(rank),
{
    let b = a.rewire(idle, target, v);
    lemma_rewire_sound(a, idle, target, v);
    lemma_reflexive(a, idle);
    assert forall|s: int, i: int| b.is_callback(s, i) implies #[trigger] b.rises(rank, s, i) by {
        if i < a.sources[s].callbacks.len() {
            let entry = a.sources[s].callbacks[i];
            assert(a.is_callback(s, i));
            assert(a.rises(rank, s, i));
            assert(b.sources[s].callbacks[i] == entry);
            assert(a.sound_source(s));
            assert(a.sound_entry(s, entry));
            if a.disappeared(entry) {
                lemma_stays_disappeared(a, a, b, s, entry);
            }
        }
    }
}

/// Sending into the source `id` does not poison the network, if events run from
/// lower to higher ranks, every signal has a value, and what is handed to switches
/// is acceptable.
pub proof fn lemma_sent_flows<T>(
    a: NetworkView<T>,
    rank: spec_fn(int) -> int,
    reached: Set<int>,
    id: int,
    v: Value<T>,
    all: Seq<Value<T>>,
)
    requires
        a.sound(),
        !a.poisoned,
        a.flows_by(rank),
        a.settled(),
        a.is_source(id),
        v.fits(a.sources[id].shape),
        reached.contains(id),
        a.closed_in(reached),
        a.hands_over_well(rank, reached, id, a.sent(id, v, all)),
    ensures
        !a.sent(id, v, all).poisoned,
        a.sent(id, v, all).flows_by(rank),
        a.sent(id, v, all).settled(),
        a.sent(id, v, all).closed_in(reached),
{
    let idle = a.ids();
    vstd::set_lib::lemma_int_range(0, a.sources.len() as int);
    let d = a.fire(all, idle, id, v, v);
    lemma_fire_sound(a, all, idle, id, v, v);
    lemma_sweep_sheds(d);
    lemma_sweep_sound(d);
    lemma_fire_flows(a, all, rank, reached, id, idle, id, v, v, d.sweep());
    lemma_sheds(d, d.sweep(), rank, reached);
    lemma_sent_reaches(a, reached, id, v, all);
    lemma_becomes_transitive(a, d, d.sweep());
    lemma_stays_settled(a, d.sweep());
}

} // verus!
