//! What happens to a network is decided by the results that are used: what would
//! be given after those makes no difference.
use crate::model::{both, Entry, NetworkView, Reaction};
use crate::sound::{
    lemma_can_be_fits, lemma_deliver_sound, lemma_fire_sound, lemma_hear_sound, lemma_prune_sound,
    lemma_react_sound, lemma_record_sound, lemma_same_sound, lemma_take_sound,
};
use crate::value::Value;
use vstd::prelude::*;

verus! {

impl<T> NetworkView<T> {
    /// The results at hand were those of the signals and functions, and no function
    /// was to be applied to what it cannot be applied to.
    pub open spec fn is_real(self) -> bool {
        !self.astray && !self.overstepped
    }
}

proof fn lemma_prefixes<X>(x: Seq<X>, y: Seq<X>, z: Seq<X>)
    requires
        x.is_prefix_of(y),
        y.is_prefix_of(z),
    ensures
        x.is_prefix_of(z),
{
    assert(x =~= z.subrange(0, x.len() as int));
}

proof fn lemma_pushed<X>(x: Seq<X>, all: Seq<X>)
    requires
        x.is_prefix_of(all),
        x.len() < all.len(),
    ensures
        x.push(all[x.len() as int]).is_prefix_of(all),
{
    assert(x.push(all[x.len() as int]) =~= all.subrange(0, (x.len() + 1) as int));
}

/// Firing uses what is given, in order, and nothing else that is given makes a
/// difference.
pub proof fn lemma_fire_agrees<T>(
    a: NetworkView<T>,
    all: Seq<Value<T>>,
    other: Seq<Value<T>>,
    idle: Set<int>,
    id: int,
    v: Value<T>,
    cause: Value<T>,
)
    requires
        a.sound(),
        a.is_source(id),
        v.fits(a.sources[id].shape),
        a.returned.is_prefix_of(all),
    ensures
        a.fire(all, idle, id, v, cause).returned.is_prefix_of(all),
        a.fire(all, idle, id, v, cause).is_real() && a.fire(
            all,
            idle,
            id,
            v,
            cause,
        ).returned.is_prefix_of(other) ==> a.fire(other, idle, id, v, cause) == a.fire(
            all,
            idle,
            id,
            v,
            cause,
        ),
    decreases idle.len(), 0int, 0int,
{
    if idle.finite() && idle.contains(id) {
        let b = a.record(id, v, cause);
        let rest = idle.remove(id);
        let count = b.sources[id].callbacks.len();
        let c = b.deliver(all, rest, id, v, count);
        lemma_record_sound(a, id, v, cause);
        lemma_deliver_sound(b, all, rest, id, v, count);
        lemma_prune_sound(c, id);
        lemma_deliver_agrees(b, all, other, rest, id, v, count);
    }
}

proof fn lemma_deliver_agrees<T>(
    a: NetworkView<T>,
    all: Seq<Value<T>>,
    other: Seq<Value<T>>,
    idle: Set<int>,
    id: int,
    v: Value<T>,
    count: nat,
)
    requires
        a.sound(),
        a.is_source(id),
        v.fits(a.sources[id].shape),
        !idle.contains(id),
        count <= a.sources[id].callbacks.len(),
        a.returned.is_prefix_of(all),
    ensures
        a.deliver(all, idle, id, v, count).returned.is_prefix_of(all),
        a.deliver(all, idle, id, v, count).is_real() && a.deliver(
            all,
            idle,
            id,
            v,
            count,
        ).returned.is_prefix_of(other) ==> a.deliver(other, idle, id, v, count) == a.deliver(
            all,
            idle,
            id,
            v,
            count,
        ),
    decreases idle.len(), 2int, count,
{
    if count > 0 {
        let less = (count - 1) as nat;
        let b = a.deliver(all, idle, id, v, less);
        lemma_deliver_sound(a, all, idle, id, v, less);
        lemma_deliver_agrees(a, all, other, idle, id, v, less);
        assert(a.sources[id].callbacks.is_prefix_of(b.sources[id].callbacks));
        assert(b.sources[id].shape == a.sources[id].shape);
        assert(b.sound_source(id));
        let entry = b.sources[id].callbacks[less as int];
        let c = b.answer_to(all, idle, entry, v);
        assert(a.deliver(all, idle, id, v, count) == c);
        assert(b.sound_entry(id, entry));
        if !b.disappeared(entry) {
            lemma_react_sound(b, all, idle, id, entry, v);
            lemma_react_agrees(b, all, other, idle, id, entry, v);
        }
        if c.is_real() && c.returned.is_prefix_of(other) {
            assert(b.returned.is_prefix_of(c.returned)) by {
                if b.disappeared(entry) {
                    assert(b.returned =~= b.returned.subrange(0, b.returned.len() as int));
                }
            }
            lemma_prefixes(b.returned, c.returned, other);
            assert(a.deliver(other, idle, id, v, less) == b);
            assert(a.deliver(other, idle, id, v, count) == b.answer_to(other, idle, entry, v));
        }
    }
}

proof fn lemma_react_agrees<T>(
    a: NetworkView<T>,
    all: Seq<Value<T>>,
    other: Seq<Value<T>>,
    idle: Set<int>,
    id: int,
    entry: Entry<T>,
    v: Value<T>,
)
    requires
        a.sound(),
        a.is_source(id),
        a.sound_entry(id, entry),
        !a.disappeared(entry),
        v.fits(a.sources[id].shape),
        a.returned.is_prefix_of(all),
    ensures
        a.react(all, idle, entry.reaction, v).returned.is_prefix_of(all),
        a.react(all, idle, entry.reaction, v).is_real() && a.react(
            all,
            idle,
            entry.reaction,
            v,
        ).returned.is_prefix_of(other) ==> a.react(other, idle, entry.reaction, v) == a.react(
            all,
            idle,
            entry.reaction,
            v,
        ),
    decreases idle.len(), 1int, 0int,
{
    let b = a.react(all, idle, entry.reaction, v);
    match entry.reaction {
        Reaction::Mapped { f, target } => {
            if (f.domain)(v) {
                if let Some(w) = a.answer(all) {
                    if (f.promise)(v, w) {
                        let c = a.take(w);
                        lemma_take_sound(a, w, idle);
                        lemma_pushed(a.returned, all);
                        lemma_fire_sound(c, all, idle, target, w, v);
                        lemma_fire_agrees(c, all, other, idle, target, w, v);
                        if b.returned.is_prefix_of(other) {
                            lemma_prefixes(c.returned, b.returned, other);
                            assert(c.returned[a.returned.len() as int] == w);
                            assert(a.answer(other) == Some(w));
                            assert(a.react(other, idle, entry.reaction, v) == c.fire(
                                other,
                                idle,
                                target,
                                w,
                                v,
                            ));
                        }
                    }
                }
            }
        },
        Reaction::FilterSome { target } => {
            if let Some(w) = v.contained() {
                lemma_fire_agrees(a, all, other, idle, target, w, v);
            }
        },
        Reaction::Merge { left, target } => {
            let c = a.hear(target, left, v);
            lemma_hear_sound(a, target, left, v);
            assert(c.sources[target].shape == a.sources[target].shape);
            lemma_fire_agrees(c, all, other, idle, target, v, v);
        },
        Reaction::Switched { target, .. } => {
            lemma_fire_agrees(a, all, other, idle, target, v, v);
        },
        Reaction::Snapshot { signal, f, target } => {
            if let Some(x) = a.answer(all) {
                if let Some(w) = a.take(x).answer(all) {
                    if a.defined(signal) && a.is_safe(signal) && a.can_be(signal, x) && (f.domain)(
                        (x, v),
                    ) && (f.promise)((x, v), w) {
                        let cause = both(x, v);
                        let c = a.take(x).take(w);
                        lemma_can_be_fits(a, signal, x);
                        lemma_pushed(a.returned, all);
                        lemma_pushed(a.take(x).returned, all);
                        assert(a.returned =~= c.returned.subrange(0, a.returned.len() as int));
                        lemma_same_sound(a, c, idle);
                        lemma_fire_sound(c, all, idle, target, w, cause);
                        lemma_fire_agrees(c, all, other, idle, target, w, cause);
                        if b.returned.is_prefix_of(other) {
                            lemma_prefixes(c.returned, b.returned, other);
                            assert(c.returned[a.returned.len() as int] == x);
                            assert(c.returned[(a.returned.len() + 1) as int] == w);
                            assert(a.answer(other) == Some(x));
                            assert(a.take(x).answer(other) == Some(w));
                            assert(a.react(other, idle, entry.reaction, v) == c.fire(
                                other,
                                idle,
                                target,
                                w,
                                cause,
                            ));
                        }
                    }
                }
            }
        },
        Reaction::ScanMut { cell, f } => {
            if let Some(w) = a.answer(all) {
                lemma_pushed(a.returned, all);
                if b.returned.is_prefix_of(other) && b.returned == a.returned.push(w) {
                    assert(b.returned[a.returned.len() as int] == w);
                    assert(a.answer(other) == Some(w));
                }
            }
        },
        _ => {},
    }
}

/// Sending uses what is given, in order, and nothing else that is given makes a
/// difference.
pub proof fn lemma_sent_agrees<T>(
    a: NetworkView<T>,
    id: int,
    v: Value<T>,
    all: Seq<Value<T>>,
    other: Seq<Value<T>>,
)
    requires
        a.sound(),
        a.is_source(id),
        v.fits(a.sources[id].shape),
        a.returned.is_prefix_of(all),
    ensures
        a.sent(id, v, all).returned.is_prefix_of(all),
        a.sent(id, v, all).is_real() && a.sent(id, v, all).returned.is_prefix_of(other) ==> a.sent(
            id,
            v,
            other,
        ) == a.sent(id, v, all),
{
    lemma_fire_agrees(a, all, other, a.ids(), id, v, v);
}

} // verus!
