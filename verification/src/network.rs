//! The executable network.
use crate::building::{lemma_empty_valid, lemma_lets_go_valid, lemma_release_valid};
use crate::copies::{lemma_becomes_copies, lemma_lets_go_copies};
use crate::life::{
    alive_is_held_or_rested_on, lemma_all_marked, lemma_held_is_alive, lemma_lit, lemma_lit_cell,
    lemma_mark, lemma_sweep_sound, unmarked,
};
use crate::model::{
    both, CellOrigin, CellView, Entry, NetworkView, Origin, QueueView, SourceView, Turn,
};
use crate::sound::{
    lemma_becomes_source, lemma_becomes_transitive, lemma_can_be_fits, lemma_deliver_sound,
    lemma_fire_sound, lemma_hear_sound, lemma_prune_sound, lemma_react_sound, lemma_record_sound,
    lemma_reflexive, lemma_source_stays_sound, lemma_source_step, lemma_take_sound,
};
use crate::source::{Callback, Cell, Content, Queue, Record, Registration, Source};
use crate::value::{Item, Plain, Shape, Value};
use std::collections::VecDeque;
use vstd::prelude::*;

verus! {

/// A network of streams and signals, which carries values of `T` besides those
/// that every network carries.
///
/// Whoever has a network at hand exclusively is in a transaction: an event
/// that is sent runs through everything that depends on it before anything
/// else happens. What is made in a network lives until its handles are released
/// and nothing that is alive rests on it. After that it has ended: it fires and
/// holds nothing, and a function that made it fire is dropped when that would be
/// applied next. Its number is not given out again, so that a network grows by a
/// few words with everything that is made and with every stream that a switch is
/// handed.
///
/// Streams of different networks are told apart by the numbers of the networks.
/// Two networks with the same number are not told apart.
#[verifier::reject_recursive_types(T)]
pub struct Network<T = Plain> {
    number: u64,
    sources: Vec<Source<T>>,
    cells: Vec<Cell<T>>,
    queues: Vec<Queue<T>>,
    tokens: Vec<bool>,
    poisoned: bool,
    returned: Ghost<Seq<Value<T>>>,
}

impl<T> View for Network<T> {
    type V = NetworkView<T>;

    closed spec fn view(&self) -> NetworkView<T> {
        NetworkView {
            number: self.number,
            sources: self.sources@.map_values(|s: Source<T>| s@),
            cells: self.cells@.map_values(|c: Cell<T>| c@),
            queues: self.queues@.map_values(|q: Queue<T>| q@),
            tokens: self.tokens@,
            poisoned: self.poisoned,
            returned: self.returned@,
            astray: false,
            overstepped: false,
        }
    }
}

impl<T> Network<T> {
    /// The sources that are not firing.
    pub closed spec fn idle(&self) -> Set<int> {
        Set::new(|s: int| 0 <= s < self.sources.len() && !self.sources[s].firing)
    }
}

impl<T: Item> Network<T> {
    /// The network is in order and at rest.
    pub open spec fn wf(&self) -> bool {
        &&& self@.valid()
        &&& self@.copies_events()
        &&& self.idle() == self@.ids()
    }
}

proof fn lemma_prefix_reflexive<X>(x: Seq<X>)
    ensures
        x.is_prefix_of(x),
{
    assert(x =~= x.subrange(0, x.len() as int));
}

/// What was given after `before` is what is given next, if `all` is given in
/// all.
proof fn lemma_given<X>(before: Seq<X>, given: X, after: Seq<X>, all: Seq<X>)
    requires
        before.push(given).is_prefix_of(after),
        after.is_prefix_of(all),
    ensures
        before.len() < all.len(),
        all[before.len() as int] == given,
{
    lemma_prefix_transitive(before.push(given), after, all);
    assert(before.push(given)[before.len() as int] == given);
}

/// What is given before `given` is given before all that begins so.
proof fn lemma_pushed_prefix<X>(before: Seq<X>, given: X, all: Seq<X>)
    requires
        before.push(given).is_prefix_of(all),
    ensures
        before.is_prefix_of(all),
{
    assert(before =~= before.push(given).subrange(0, before.len() as int));
    assert(before =~= all.subrange(0, before.len() as int));
}

/// A network in the middle of a delivery becomes what it is at its end.
proof fn lemma_deliver_more<T>(
    a: NetworkView<T>,
    all: Seq<Value<T>>,
    idle: Set<int>,
    id: int,
    v: Value<T>,
    k: nat,
    count: nat,
)
    requires
        a.sound(),
        a.is_source(id),
        v.fits(a.sources[id].shape),
        !idle.contains(id),
        k <= count <= a.sources[id].callbacks.len(),
    ensures
        a.deliver(all, idle, id, v, k).becomes(a.deliver(all, idle, id, v, count)),
    decreases count - k,
{
    let x = a.deliver(all, idle, id, v, k);
    lemma_reflexive(x, idle);
    if k < count {
        let less = (count - 1) as nat;
        let y = a.deliver(all, idle, id, v, less);
        lemma_deliver_more(a, all, idle, id, v, k, less);
        lemma_deliver_sound(a, all, idle, id, v, less);
        assert(y.sound_source(id));
        let entry = y.sources[id].callbacks[less as int];
        if !y.disappeared(entry) {
            lemma_react_sound(y, all, idle, id, entry, v);
        } else {
            lemma_reflexive(y, idle);
        }
        assert(a.deliver(all, idle, id, v, count) == y.answer_to(all, idle, entry, v));
        lemma_becomes_transitive(x, y, y.answer_to(all, idle, entry, v));
    }
}

/// A network that has lost callbacks of one source is still sound.
proof fn lemma_fewer_callbacks_sound<T>(a: NetworkView<T>, b: NetworkView<T>, id: int)
    requires
        a.sound(),
        a.is_source(id),
        b == a.with_source(
            id,
            SourceView { callbacks: b.sources[id].callbacks, ..a.sources[id] },
        ),
        forall|i: int|
            0 <= i < b.sources[id].callbacks.len() ==> a.sources[id].callbacks.contains(
                #[trigger] b.sources[id].callbacks[i],
            ),
    ensures
        b.sound(),
{
    let given = a.returned;
    lemma_prefix_reflexive(given);
    lemma_prefix_reflexive(a.sources[id].history);
    lemma_prefix_reflexive(a.sources[id].causes);
    lemma_prefix_reflexive(a.sources[id].sides);
    lemma_prefix_reflexive(a.sources[id].turns);
    lemma_becomes_source(a, b, id);
    assert(a.sound_source(id));
    lemma_source_stays_sound(a, b, id);
    lemma_source_step(a, b, id);
}

/// A beginning of a beginning is a beginning.
proof fn lemma_prefix_transitive<X>(x: Seq<X>, y: Seq<X>, z: Seq<X>)
    requires
        x.is_prefix_of(y),
        y.is_prefix_of(z),
    ensures
        x.is_prefix_of(z),
{
    assert(x =~= z.subrange(0, x.len() as int));
}

impl<T: Item> Network<T> {
    /// Make a source fire.
    fn fire(&mut self, id: usize, v: Value<T>, Ghost(cause): Ghost<Value<T>>)
        requires
            old(self)@.sound(),
            old(self)@.copies_events(),
            old(self)@.is_source(id as int),
            v.fits(old(self)@.sources[id as int].shape),
            old(self).idle().finite(),
            old(self)@.can_fire(old(self).idle(), id as int, v, cause),
        ensures
            old(self)@.fires(old(self).idle(), id as int, v, cause, final(self)@),
            old(self)@.becomes(final(self)@),
            final(self)@.sound(),
            final(self).idle() == old(self).idle(),
        decreases old(self).idle().len(), 0int, 0int,
    {
        let ghost start = self@;
        let ghost idle = self.idle();
        if self.sources[id].firing {
            self.poisoned = true;
            assert(self@ =~= start.poison());
            assert(self.idle() =~= idle);
            proof {
                lemma_fire_sound(start, self@.returned, idle, id as int, v, cause);
            }
            return ;
        }
        let ghost record = self.sources[id as int].record@;
        self.sources[id].record = Ghost(
            Record {
                history: record.history.push(v),
                causes: record.causes.push(cause),
                ..record
            },
        );
        self.sources[id].firing = true;
        let ghost fired = start.record(id as int, v, cause);
        let ghost rest = idle.remove(id as int);
        assert(self@.sources =~= fired.sources);
        assert(self@ =~= fired);
        assert(self.idle() =~= rest);
        proof {
            lemma_record_sound(start, id as int, v, cause);
            lemma_becomes_copies(start, fired);
            lemma_reflexive(fired, rest);
        }
        let ghost all_callbacks = fired.sources[id as int].callbacks.len();
        assert forall|all: Seq<Value<T>>| fired.returned.is_prefix_of(all) implies !(
        #[trigger] fired.deliver(all, rest, id as int, v, all_callbacks)).overstepped by {
            assert(!start.fire(all, idle, id as int, v, cause).overstepped);
        }
        let count: usize = self.sources[id].callbacks.len();
        let mut k: usize = 0;
        while k < count
            invariant
                k <= count,
                count == fired.sources[id as int].callbacks.len(),
                fired.sound(),
                fired.copies_events(),
                fired.is_source(id as int),
                v.fits(fired.sources[id as int].shape),
                fired.delivers(rest, id as int, v, k as nat, self@),
                forall|all: Seq<Value<T>>|
                    fired.returned.is_prefix_of(all) ==> !(#[trigger] fired.deliver(
                        all,
                        rest,
                        id as int,
                        v,
                        count as nat,
                    )).overstepped,
                fired.becomes(self@),
                self@.sound(),
                fired.sources[id as int].callbacks.is_prefix_of(
                    self@.sources[id as int].callbacks,
                ),
                self.idle() == rest,
                rest == idle.remove(id as int),
                idle.contains(id as int),
                idle.finite(),
                idle == old(self).idle(),
            decreases count - k,
        {
            let ghost before = self@;
            let ghost entry = before.sources[id as int].callbacks[k as int];
            proof {
                assert forall|all: Seq<Value<T>>|
                    before.returned.is_prefix_of(all) implies !(#[trigger] before.answer_to(
                    all,
                    rest,
                    entry,
                    v,
                )).overstepped by {
                    lemma_prefix_transitive(fired.returned, before.returned, all);
                    assert(before == fired.deliver(all, rest, id as int, v, k as nat));
                    let next = fired.deliver(all, rest, id as int, v, (k + 1) as nat);
                    assert(next == before.answer_to(all, rest, entry, v));
                    lemma_deliver_more(
                        fired,
                        all,
                        rest,
                        id as int,
                        v,
                        (k + 1) as nat,
                        count as nat,
                    );
                }
            }
            if self.has_disappeared(id, k) {
                proof {
                    lemma_reflexive(before, rest);
                }
            } else {
                proof {
                    lemma_becomes_copies(fired, before);
                }
                self.react(id, k, &v);
            }
            proof {
                let after = self@;
                assert forall|all: Seq<Value<T>>|
                    after.returned.is_prefix_of(all) implies after == #[trigger] fired.deliver(
                    all,
                    rest,
                    id as int,
                    v,
                    (k + 1) as nat,
                ) by {
                    lemma_prefix_transitive(before.returned, after.returned, all);
                    assert(before == fired.deliver(all, rest, id as int, v, k as nat));
                    assert(after == before.answer_to(all, rest, entry, v));
                }
                lemma_becomes_transitive(fired, before, after);
                let all = after.returned;
                assert(all.is_prefix_of(all)) by {
                    assert(all =~= all.subrange(0, all.len() as int));
                }
                lemma_deliver_sound(fired, all, rest, id as int, v, (k + 1) as nat);
                assert(after == fired.deliver(all, rest, id as int, v, (k + 1) as nat));
            }
            k += 1;
        }
        let ghost delivered = self@;
        self.prune(id);
        self.sources[id].firing = false;
        assert(self@.sources =~= delivered.prune(id as int).sources);
        assert(self.idle() =~= idle);
        proof {
            lemma_prune_sound(delivered, id as int);
            lemma_becomes_transitive(start, fired, delivered);
            lemma_becomes_transitive(start, delivered, self@);
            assert forall|all: Seq<Value<T>>|
                self@.returned.is_prefix_of(all) implies self@ == #[trigger] start.fire(
                all,
                idle,
                id as int,
                v,
                cause,
            ) by {
                assert(delivered == fired.deliver(all, rest, id as int, v, count as nat));
            }
        }
    }

    /// Note what a signal or a function has given.
    fn note(&mut self, Ghost(w): Ghost<Value<T>>)
        ensures
            final(self)@ == old(self)@.take(w),
            final(self).idle() == old(self).idle(),
    {
        let ghost start = self@;
        let ghost idle = self.idle();
        let ghost returned = self.returned@.push(w);
        self.returned = Ghost(returned);
        assert(self@ =~= start.take(w));
        assert(self.idle() =~= idle);
    }

    /// Make the callback `k` of the source `id` react.
    fn react(&mut self, id: usize, k: usize, v: &Value<T>)
        requires
            old(self)@.sound(),
            old(self)@.copies_events(),
            old(self)@.is_source(id as int),
            k < old(self)@.sources[id as int].callbacks.len(),
            v.fits(old(self)@.sources[id as int].shape),
            old(self).idle().finite(),
            !old(self)@.disappeared(old(self)@.sources[id as int].callbacks[k as int]),
            old(self)@.can_react(
                old(self).idle(),
                old(self)@.sources[id as int].callbacks[k as int],
                *v,
            ),
        ensures
            old(self)@.reacts(
                old(self).idle(),
                old(self)@.sources[id as int].callbacks[k as int],
                *v,
                final(self)@,
            ),
            old(self)@.becomes(final(self)@),
            final(self)@.sound(),
            final(self).idle() == old(self).idle(),
        decreases old(self).idle().len(), 1int, 0int,
    {
        let ghost start = self@;
        let ghost idle = self.idle();
        let ghost entry = start.sources[id as int].callbacks[k as int];
        let ghost reaction = entry.reaction;
        proof {
            assert(start.sound_source(id as int));
            assert(start.sound_entry(id as int, entry));
            lemma_reflexive(start, idle);
            lemma_prefix_reflexive(start.returned);
            // What holds of `react` holds of `answer_to`.
            assert forall|all: Seq<Value<T>>| #[trigger] start.answer_to(all, idle, entry, *v)
                == start.react(all, idle, reaction, *v) by {}
            assert(!start.answer_to(start.returned, idle, entry, *v).overstepped);
            assert(start.copies_source(id as int));
            v.lemma_copied(start.sources[id as int].shape, T::is_copied());
        }
        match &self.sources[id].callbacks[k].callback {
            Callback::Mapped { f, target } => {
                let t: usize = *target;
                let w = f.call(v.duplicate());
                let ghost given = w;
                self.note(Ghost(given));
                let ghost taken = self@;
                proof {
                    lemma_take_sound(start, given, idle);
                    lemma_becomes_copies(start, taken);
                    lemma_prefix_reflexive(taken.returned);
                    assert forall|all: Seq<Value<T>>|
                        taken.returned.is_prefix_of(all) implies !(#[trigger] taken.fire(
                        all,
                        idle,
                        t as int,
                        given,
                        *v,
                    )).overstepped by {
                        lemma_given(start.returned, given, taken.returned, all);
                        lemma_pushed_prefix(start.returned, given, all);
                        assert(!start.answer_to(all, idle, entry, *v).overstepped);
                    }
                }
                self.fire(t, w, Ghost(*v));
                proof {
                    lemma_becomes_transitive(start, taken, self@);
                    assert forall|all: Seq<Value<T>>|
                        self@.returned.is_prefix_of(all) implies
                        self@ == #[trigger] start.answer_to(all, idle, entry, *v) by {
                        lemma_given(start.returned, given, self@.returned, all);
                        assert(self@ == taken.fire(all, idle, t as int, given, *v));
                    }
                }
            },
            Callback::FilterSome { target } => {
                let t: usize = *target;
                match v {
                    Value::Just(w) => {
                        proof {
                            assert forall|all: Seq<Value<T>>|
                                start.returned.is_prefix_of(all) implies !(#[trigger] start.fire(
                                all,
                                idle,
                                t as int,
                                **w,
                                *v,
                            )).overstepped by {
                                assert(!start.answer_to(all, idle, entry, *v).overstepped);
                            }
                        }
                        self.fire(t, w.duplicate(), Ghost(*v));
                        proof {
                            assert forall|all: Seq<Value<T>>|
                                self@.returned.is_prefix_of(all) implies self@
                                == #[trigger] start.answer_to(all, idle, entry, *v) by {
                                assert(self@ == start.fire(all, idle, t as int, **w, *v));
                            }
                        }
                    },
                    _ => {},
                }
            },
            Callback::Merge { left, target } => {
                let t: usize = *target;
                let side: bool = *left;
                let ghost record = self.sources[t as int].record@;
                self.sources[t].record = Ghost(
                    if side {
                        Record {
                            left: record.left.push(*v),
                            sides: record.sides.push(true),
                            ..record
                        }
                    } else {
                        Record {
                            right: record.right.push(*v),
                            sides: record.sides.push(false),
                            ..record
                        }
                    },
                );
                let ghost heard = start.hear(t as int, side, *v);
                assert(self@.sources =~= heard.sources);
                assert(self@ =~= heard);
                assert(self.idle() =~= idle);
                proof {
                    lemma_hear_sound(start, t as int, side, *v);
                    assert forall|all: Seq<Value<T>>|
                        heard.returned.is_prefix_of(all) implies !(#[trigger] heard.fire(
                        all,
                        idle,
                        t as int,
                        *v,
                        *v,
                    )).overstepped by {
                        assert(!start.answer_to(all, idle, entry, *v).overstepped);
                    }
                }
                proof {
                    lemma_becomes_copies(start, heard);
                }
                self.fire(t, v.duplicate(), Ghost(*v));
                proof {
                    lemma_becomes_transitive(start, heard, self@);
                    assert forall|all: Seq<Value<T>>|
                        self@.returned.is_prefix_of(all) implies
                        self@ == #[trigger] start.answer_to(all, idle, entry, *v) by {
                        assert(self@ == heard.fire(all, idle, t as int, *v, *v));
                    }
                }
            },
            Callback::Switch { target } => {
                let t: usize = *target;
                self.rewire(t, v);
                proof {
                    lemma_react_sound(start, self@.returned, idle, id as int, entry, *v);
                }
            },
            Callback::Switched { target, token, from } => {
                let t: usize = *target;
                proof {
                    assert forall|all: Seq<Value<T>>|
                        start.returned.is_prefix_of(all) implies !(#[trigger] start.fire(
                        all,
                        idle,
                        t as int,
                        *v,
                        *v,
                    )).overstepped by {
                        assert(!start.answer_to(all, idle, entry, *v).overstepped);
                    }
                }
                self.fire(t, v.duplicate(), Ghost(*v));
                proof {
                    assert forall|all: Seq<Value<T>>|
                        self@.returned.is_prefix_of(all) implies
                        self@ == #[trigger] start.answer_to(all, idle, entry, *v) by {
                        assert(self@ == start.fire(all, idle, t as int, *v, *v));
                    }
                }
            },
            Callback::Snapshot { signal, f, target } => {
                let t: usize = *target;
                if self.is_defined(*signal) {
                    proof {
                        assert(start.copies_source(t as int));
                    }
                    let x = self.sample(*signal);
                    let ghost used = x;
                    proof {
                        let all = start.returned.push(used);
                        lemma_prefix_reflexive(all);
                        lemma_pushed_prefix(start.returned, used, all);
                        assert(!start.answer_to(all, idle, entry, *v).overstepped);
                    }
                    let w = f.call((x, v.duplicate()));
                    let ghost cause = both(used, *v);
                    let ghost given = w;
                    self.note(Ghost(used));
                    let ghost asked = self@;
                    self.note(Ghost(given));
                    let ghost taken = self@;
                    proof {
                        lemma_can_be_fits(start, *signal as int, used);
                        lemma_take_sound(start, used, idle);
                        lemma_take_sound(asked, given, idle);
                        lemma_becomes_transitive(start, asked, taken);
                        lemma_becomes_copies(start, taken);
                        assert forall|all: Seq<Value<T>>|
                            taken.returned.is_prefix_of(all) implies !(#[trigger] taken.fire(
                            all,
                            idle,
                            t as int,
                            given,
                            cause,
                        )).overstepped by {
                            lemma_prefix_reflexive(taken.returned);
                            lemma_given(start.returned, used, taken.returned, all);
                            lemma_given(asked.returned, given, taken.returned, all);
                            lemma_pushed_prefix(asked.returned, given, all);
                            lemma_pushed_prefix(start.returned, used, all);
                            assert(!start.answer_to(all, idle, entry, *v).overstepped);
                        }
                    }
                    self.fire(t, w, Ghost(cause));
                    proof {
                        lemma_becomes_transitive(start, taken, self@);
                        lemma_becomes_transitive(asked, taken, self@);
                        assert forall|all: Seq<Value<T>>|
                            self@.returned.is_prefix_of(all) implies self@
                            == #[trigger] start.answer_to(all, idle, entry, *v) by {
                            lemma_given(start.returned, used, self@.returned, all);
                            lemma_given(asked.returned, given, self@.returned, all);
                            assert(self@ == taken.fire(all, idle, t as int, given, cause));
                        }
                    }
                } else {
                    self.poisoned = true;
                    assert(self@ =~= start.poison());
                    assert(self.idle() =~= idle);
                    proof {
                        lemma_react_sound(start, self@.returned, idle, id as int, entry, *v);
                    }
                }
            },
            Callback::Events { queue } => {
                let q: usize = *queue;
                self.enqueue(q, v.duplicate());
                proof {
                    lemma_react_sound(start, self@.returned, idle, id as int, entry, *v);
                }
            },
            Callback::Hold { cell } => {
                let c: usize = *cell;
                self.store(c, v.duplicate());
                proof {
                    lemma_react_sound(start, self@.returned, idle, id as int, entry, *v);
                }
            },
            Callback::ScanMut { cell, f } => {
                let c: usize = *cell;
                let mut content: Content<T> = Content::Undefined;
                core::mem::swap(&mut self.cells[c].content, &mut content);
                proof {
                    assert(start.sound_cell(c as int));
                }
                match content {
                    Content::Held(x) => {
                        let ghost used = x;
                        let w = f.call((x, v.duplicate()));
                        let ghost made = w;
                        let ghost updates = self.cells[c as int].updates@;
                        let ghost returned = self.returned@.push(made);
                        self.returned = Ghost(returned);
                        self.cells[c].content = Content::Held(w);
                        self.cells[c].updates = Ghost(updates.push((used, *v, made)));
                        let ghost taken = start.take(made);
                        let ghost updated = taken.update(c as int, used, *v, made);
                        assert(self@.cells =~= updated.cells);
                        assert(self.idle() =~= idle);
                        proof {
                            let next = self@;
                            assert(next == updated);
                            assert forall|all: Seq<Value<T>>|
                                next.returned.is_prefix_of(all) implies next
                                == #[trigger] start.answer_to(all, idle, entry, *v) by {
                                lemma_prefix_reflexive(next.returned);
                                lemma_prefix_reflexive(taken.returned);
                                lemma_given(start.returned, made, next.returned, all);
                            }
                            lemma_prefix_reflexive(next.returned);
                            lemma_react_sound(start, next.returned, idle, id as int, entry, *v);
                            assert(next == start.answer_to(next.returned, idle, entry, *v));
                        }
                    },
                    _ => {},
                }
            },
        }
    }

    /// Whether the callback `k` of the source `id` will never do anything again.
    fn has_disappeared(&self, id: usize, k: usize) -> (gone: bool)
        requires
            self@.sound(),
            self@.is_source(id as int),
            k < self@.sources[id as int].callbacks.len(),
        ensures
            gone == self@.disappeared(self@.sources[id as int].callbacks[k as int]),
    {
        proof {
            assert(self@.sound_source(id as int));
            assert(self@.sound_entry(id as int, self@.sources[id as int].callbacks[k as int]));
        }
        match &self.sources[id].callbacks[k].callback {
            Callback::Mapped { target, .. } => self.sources[*target].ended,
            Callback::FilterSome { target } => self.sources[*target].ended,
            Callback::Merge { target, .. } => self.sources[*target].ended,
            Callback::Switch { target } => self.sources[*target].ended,
            Callback::Switched { target, token, .. } => !self.tokens[*token]
                || self.sources[*target].ended,
            Callback::Snapshot { target, .. } => self.sources[*target].ended,
            Callback::Events { queue } => !self.queues[*queue].open,
            Callback::Hold { cell } => self.cells[*cell].ended,
            Callback::ScanMut { cell, .. } => self.cells[*cell].ended,
        }
    }

    /// Let the switch `id` follow the stream that `v` is.
    fn rewire(&mut self, id: usize, v: &Value<T>)
        requires
            old(self)@.sound(),
            old(self)@.is_source(id as int),
        ensures
            final(self)@ == old(self)@.rewire(old(self).idle(), id as int, *v),
            final(self).idle() == old(self).idle(),
    {
        let ghost start = self@;
        let ghost idle = self.idle();
        proof {
            assert(start.sound_source(id as int));
        }
        if let Value::Stream(number, stream, _) = v {
            let new: usize = *stream;
            if *number == self.number && new < self.sources.len() && self.sources[new].shape.same(
                &self.sources[id].shape,
            ) && !self.sources[new].ended {
                let token: usize = self.tokens.len();
                if let Some(t) = self.sources[id].terminate {
                    self.tokens[t] = false;
                }
                self.tokens.push(true);
                let ghost record = self.sources[id as int].record@;
                self.sources[id].terminate = Some(token);
                let ghost turn = Turn {
                    stream: new as int,
                    from: record.history.len(),
                    since: start.sources[new as int].history.len(),
                };
                self.sources[id].record = Ghost(
                    Record { turns: record.turns.push(turn), ..record },
                );
                let ghost turned = NetworkView {
                    tokens: start.fresh_token(id as int),
                    ..start
                }.with_source(
                    id as int,
                    SourceView {
                        turns: record.turns.push(turn),
                        terminate: Some(token as int),
                        ..start.sources[id as int]
                    },
                );
                assert(self@.tokens =~= turned.tokens);
                assert(self@.sources =~= turned.sources);
                assert(self@ =~= turned);
                assert(self.idle() =~= idle);
                self.register(
                    new,
                    Callback::Switched { target: id, token, from: Ghost(record.history.len()) },
                );
                assert(self.sources.len() == self@.sources.len() == start.sources.len());
                assert(idle.contains(new as int) == !self.sources[new as int].firing) by {
                    assert(self.idle().contains(new as int) == !self.sources[new as int].firing);
                }
                if self.sources[new].firing {
                    let ghost registered = self@;
                    self.poisoned = true;
                    assert(self@ =~= registered.poison());
                    assert(self.idle() =~= idle);
                }
                return ;
            }
        }
        self.poisoned = true;
        assert(self@ =~= start.poison());
        assert(self.idle() =~= idle);
    }

    /// Whether a cell has a value.
    pub(crate) fn is_defined(&self, k: usize) -> (defined: bool)
        requires
            self@.sound(),
            self@.is_cell(k as int),
        ensures
            defined == self@.defined(k as int),
        decreases k,
    {
        proof {
            assert(self@.sound_cell(k as int));
        }
        match &self.cells[k].content {
            Content::Undefined => false,
            Content::Combined { state, other, .. } => self.is_defined(*state) && self.is_defined(
                *other,
            ),
            _ => true,
        }
    }

    /// The present value of a cell. What it is combined of is not copied.
    pub(crate) fn sample(&self, k: usize) -> (v: Value<T>)
        requires
            self@.sound(),
            self@.copies_events(),
            self@.is_cell(k as int),
            self@.copies(self@.cells[k as int].shape),
            self@.defined(k as int),
            self@.is_safe(k as int),
        ensures
            self@.can_be(k as int, v),
        decreases k,
    {
        proof {
            assert(self@.sound_cell(k as int));
            assert(self@.copies_cell(k as int));
        }
        match &self.cells[k].content {
            Content::Held(v) => {
                proof {
                    v.lemma_copied(self@.cells[k as int].shape, T::is_copied());
                }
                v.duplicate()
            },
            Content::Alias(j) => {
                proof {
                    assert(self@.sound_cell(*j as int));
                }
                match &self.cells[*j].content {
                    Content::Held(v) => {
                        proof {
                            v.lemma_copied(self@.cells[k as int].shape, T::is_copied());
                        }
                        v.duplicate()
                    },
                    _ => Value::Unit,
                }
            },
            Content::Combined { state, other, f } => {
                let b = self.sample(*other);
                proof {
                    assert(self@.copies_cell(*state as int));
                }
                match &self.cells[*state].content {
                    Content::Held(a) => {
                        assert(self@.can_be(*state as int, *a));
                        f.read(a, b)
                    },
                    _ => {
                        let a = self.sample(*state);
                        f.read(&a, b)
                    },
                }
            },
            Content::Undefined => Value::Unit,
        }
    }

    /// Put an event into a queue that is open.
    fn enqueue(&mut self, q: usize, v: Value<T>)
        requires
            old(self)@.is_queue(q as int),
        ensures
            final(self)@ == old(self)@.enqueue(q as int, v),
            final(self).idle() == old(self).idle(),
    {
        let ghost start = self@;
        let ghost idle = self.idle();
        if self.queues[q].open {
            let ghost received = self.queues[q as int].received@.push(v);
            self.queues[q].received = Ghost(received);
            self.queues[q].waiting.push_back(v);
            assert(self@.queues =~= start.enqueue(q as int, v).queues);
        }
        assert(self.idle() =~= idle);
    }

    /// Let a cell take on a value.
    fn store(&mut self, k: usize, v: Value<T>)
        requires
            old(self)@.is_cell(k as int),
        ensures
            final(self)@ == old(self)@.store(k as int, v),
            final(self).idle() == old(self).idle(),
    {
        let ghost start = self@;
        let ghost idle = self.idle();
        self.cells[k].content = Content::Held(v);
        assert(self@.cells =~= start.store(k as int, v).cells);
        assert(self.idle() =~= idle);
    }

    /// Drop the callbacks of a source that have disappeared.
    fn prune(&mut self, id: usize)
        requires
            old(self)@.sound(),
            old(self)@.is_source(id as int),
        ensures
            final(self)@ == old(self)@.prune(id as int),
            final(self).idle() == old(self).idle(),
            final(self).sources.len() == old(self).sources.len(),
    {
        let ghost start = self@;
        let ghost idle = self.idle();
        let ghost keep = |e: Entry<T>| !start.disappeared(e);
        let ghost entries = start.sources[id as int].callbacks;
        let mut k: usize = 0;
        let ghost mut done: int = 0;
        proof {
            assert(start.sound_source(id as int));
            assert(entries.take(0).filter(keep) =~= Seq::<Entry<T>>::empty()) by {
                reveal(Seq::filter);
            }
            assert(entries.take(0).filter(keep) + entries.skip(0) =~= entries);
            assert(self@.sources =~= start.with_source(
                id as int,
                SourceView {
                    callbacks: entries.take(0).filter(keep) + entries.skip(0),
                    ..start.sources[id as int]
                },
            ).sources);
        }
        while k < self.sources[id].callbacks.len()
            invariant
                start.sound(),
                start.is_source(id as int),
                start.sound_source(id as int),
                entries == start.sources[id as int].callbacks,
                0 <= done <= entries.len(),
                k == entries.take(done).filter(keep).len(),
                keep == (|e: Entry<T>| !start.disappeared(e)),
                self.sources.len() == start.sources.len(),
                forall|i: int|
                    0 <= i < self@.sources[id as int].callbacks.len() ==> entries.contains(
                        #[trigger] self@.sources[id as int].callbacks[i],
                    ),
                self@ == start.with_source(
                    id as int,
                    SourceView {
                        callbacks: entries.take(done).filter(keep) + entries.skip(done),
                        ..start.sources[id as int]
                    },
                ),
                self.idle() == idle,
            decreases entries.len() - done,
        {
            let ghost before = self@;
            let ghost kept = entries.take(done).filter(keep);
            proof {
                assert(self@.sources[id as int].callbacks == kept + entries.skip(done));
                assert(done < entries.len());
                assert(self@.sources[id as int].callbacks[k as int] == entries[done]);
                assert(start.sound_entry(id as int, entries[done]));
                assert(entries.take(done + 1).drop_last() =~= entries.take(done));
                reveal(Seq::filter);
            }
            proof {
                lemma_fewer_callbacks_sound(start, self@, id as int);
            }
            let gone: bool = self.has_disappeared(id, k);
            assert(gone == !keep(entries[done]));
            if gone {
                let removed = self.sources[id].callbacks.remove(k);
                assert(self@.sources[id as int].callbacks
                    =~= before.sources[id as int].callbacks.remove(k as int));
                assert(self@.sources[id as int].callbacks =~= kept + entries.skip(done + 1));
            } else {
                k += 1;
                assert(kept + entries.skip(done) =~= kept.push(entries[done]) + entries.skip(
                    done + 1,
                ));
            }
            proof {
                let longer = entries.take(done + 1);
                assert(longer.last() == entries[done]);
                assert(longer.filter(keep) == if keep(entries[done]) {
                    kept.push(entries[done])
                } else {
                    kept
                });
                done = done + 1;
            }
            assert(self@.sources[id as int].callbacks =~= entries.take(done).filter(keep)
                + entries.skip(done));
            proof {
                let kept = entries.take(done).filter(keep);
                let left = self@.sources[id as int].callbacks;
                assert forall|i: int| 0 <= i < left.len() implies entries.contains(
                    #[trigger] left[i],
                ) by {
                    if i < kept.len() {
                        assert(kept.contains(kept[i]));
                        entries.take(done).lemma_filter_contains_rev(keep, kept[i]);
                        let n = choose|n: int|
                            0 <= n < entries.take(done).len() && entries.take(done)[n] == kept[i];
                        assert(entries[n] == left[i]);
                    } else {
                        assert(entries[done + i - kept.len()] == left[i]);
                    }
                }
            }
            assert(before.sources[id as int] =~= SourceView {
                callbacks: before.sources[id as int].callbacks,
                ..start.sources[id as int]
            });
            assert(self@.sources[id as int] =~= SourceView {
                callbacks: self@.sources[id as int].callbacks,
                ..before.sources[id as int]
            });
            assert(self@.sources =~= before.sources.update(
                id as int,
                self@.sources[id as int],
            ));
            assert(self@.sources =~= start.with_source(
                id as int,
                SourceView {
                    callbacks: entries.take(done).filter(keep) + entries.skip(done),
                    ..start.sources[id as int]
                },
            ).sources);
            assert(self.idle() =~= idle);
        }
        assert(self@.sources[id as int].callbacks == entries.take(done).filter(keep)
            + entries.skip(done));
        assert(entries.take(done) =~= entries);
        assert(self@.sources[id as int].callbacks =~= entries.filter(keep));
        assert(self@.sources =~= start.prune(id as int).sources);
    }

    /// Register a callback with a source.
    pub(crate) fn register(&mut self, id: usize, callback: Callback<T>)
        requires
            old(self)@.is_source(id as int),
        ensures
            final(self)@ == old(self)@.register(id as int, callback@),
            final(self).idle() == old(self).idle(),
    {
        let ghost start = self@;
        let ghost idle = self.idle();
        let ghost since = self.sources[id as int].record@.history.len();
        let ghost reaction = callback@;
        self.sources[id].callbacks.push(Registration { callback, since: Ghost(since) });
        assert(self@.sources[id as int].callbacks =~= start.register(
            id as int,
            reaction,
        ).sources[id as int].callbacks);
        assert(self@.sources =~= start.register(id as int, reaction).sources);
        assert(self.idle() =~= idle);
    }

    /// Make a network without anything in it. Its number is zero.
    pub fn new() -> (network: Network<T>)
        ensures
            network@ == NetworkView::<T>::empty(0),
            network@.number == 0,
            network@.sources.len() == 0,
            network@.cells.len() == 0,
            network@.queues.len() == 0,
            !network@.poisoned,
            network@.returned.len() == 0,
            network.wf(),
    {
        Network::numbered(0)
    }

    /// Make a network without anything in it, with a number by which its streams
    /// are told from those of other networks.
    pub fn numbered(number: u64) -> (network: Network<T>)
        ensures
            network@ == NetworkView::<T>::empty(number),
            network@.number == number,
            network@.sources.len() == 0,
            network@.cells.len() == 0,
            network@.queues.len() == 0,
            !network@.poisoned,
            network@.returned.len() == 0,
            network.wf(),
    {
        let network = Network {
            number,
            sources: Vec::new(),
            cells: Vec::new(),
            queues: Vec::new(),
            tokens: Vec::new(),
            poisoned: false,
            returned: Ghost(Seq::empty()),
        };
        assert(network@.sources =~= Seq::empty());
        assert(network@.cells =~= Seq::empty());
        assert(network@.queues =~= Seq::empty());
        assert(network@.tokens =~= Seq::empty());
        assert(network.idle() =~= network@.ids());
        proof {
            lemma_empty_valid::<T>(number);
        }
        network
    }

    /// The number by which the streams of this network are told from those of
    /// others.
    pub fn number(&self) -> (number: u64)
        ensures
            number == self@.number,
    {
        self.number
    }

    /// Whether a source of this shape is there of which somebody has a handle.
    pub(crate) fn is_held(&self, id: usize, shape: &Shape) -> (held: bool)
        ensures
            held == (self@.is_source(id as int) && self@.sources[id as int].shape == *shape
                && self@.sources[id as int].is_held()),
    {
        id < self.sources.len() && self.sources[id].shape.same(shape) && (self.sources[id].pinned
            || !self.sources[id].released)
    }

    /// Whether something has happened that the network cannot carry out: see
    /// [`NetworkView::poisoned`].
    pub fn is_poisoned(&self) -> (poisoned: bool)
        ensures
            poisoned == self@.poisoned,
    {
        self.poisoned
    }

    /// Add a source that nothing feeds yet.
    pub(crate) fn add_source(
        &mut self,
        shape: Shape,
        pinned: bool,
        Ghost(origin): Ghost<Origin<T>>,
    ) -> (id: usize)
        requires
            old(self).idle() == old(self)@.ids(),
            pinned == origin is Sink,
        ensures
            final(self)@ == old(self)@.add_source(shape, origin),
            final(self).idle() == final(self)@.ids(),
            id == old(self)@.sources.len(),
    {
        let ghost start = self@;
        let id: usize = self.sources.len();
        let ghost record = Record {
            origin,
            history: Seq::empty(),
            causes: Seq::empty(),
            left: Seq::empty(),
            right: Seq::empty(),
            sides: Seq::empty(),
            turns: Seq::empty(),
        };
        let ghost idle = self.idle();
        self.sources.push(
            Source {
                shape,
                callbacks: Vec::new(),
                terminate: None,
                firing: false,
                pinned,
                released: false,
                ended: false,
                record: Ghost(record),
            },
        );
        assert(self@.sources.last().callbacks =~= Seq::<Entry<T>>::empty());
        assert(self@.sources =~= start.add_source(shape, origin).sources);
        assert(self.idle() =~= self@.ids()) by {
            assert forall|s: int| self.idle().contains(s) <==> self@.ids().contains(s) by {
                assert(start.ids().contains(s) == idle.contains(s));
            }
        }
        id
    }

    /// Add a cell.
    pub(crate) fn add_cell(
        &mut self,
        shape: Shape,
        content: Content<T>,
        Ghost(origin): Ghost<CellOrigin<T>>,
    ) -> (k: usize)
        ensures
            final(self)@ == old(self)@.add_cell(shape, origin, content@),
            final(self).idle() == old(self).idle(),
            k == old(self)@.cells.len(),
    {
        let ghost start = self@;
        let ghost idle = self.idle();
        let ghost contained = content@;
        let k: usize = self.cells.len();
        self.cells.push(
            Cell {
                shape,
                content,
                released: false,
                ended: false,
                origin: Ghost(origin),
                updates: Ghost(Seq::empty()),
            },
        );
        assert(self@.cells =~= start.add_cell(shape, origin, contained).cells);
        assert(self.idle() =~= idle);
        k
    }

    /// Define an undefined cell.
    pub(crate) fn define(&mut self, k: usize, definition: usize)
        requires
            old(self)@.is_cell(k as int),
            old(self)@.is_cell(definition as int),
            k != definition,
        ensures
            final(self)@ == old(self)@.define(k as int, definition as int),
            final(self).idle() == old(self).idle(),
    {
        let ghost start = self@;
        let ghost idle = self.idle();
        self.cells[k].content = Content::Alias(definition);
        self.cells[definition].released = true;
        assert(self@.cells =~= start.define(k as int, definition as int).cells);
        assert(self.idle() =~= idle);
    }

    /// Add a queue for the events of a source.
    pub(crate) fn listen(&mut self, parent: usize) -> (q: usize)
        requires
            old(self)@.is_source(parent as int),
        ensures
            final(self)@ == old(self)@.listen(parent as int),
            final(self).idle() == old(self).idle(),
            q == old(self)@.queues.len(),
    {
        let ghost start = self@;
        let ghost idle = self.idle();
        let q: usize = self.queues.len();
        let shape = self.sources[parent].shape.duplicate();
        let ghost since = self.sources[parent as int].record@.history.len();
        self.queues.push(
            Queue {
                shape,
                waiting: VecDeque::new(),
                open: true,
                parent: Ghost(parent as int),
                since: Ghost(since),
                received: Ghost(Seq::empty()),
            },
        );
        let ghost queue = QueueView {
            shape: start.sources[parent as int].shape,
            parent: parent as int,
            since,
            received: Seq::empty(),
            waiting: Seq::empty(),
            open: true,
        };
        assert(self@.queues =~= start.queues.push(queue));
        assert(self@ =~= NetworkView { queues: start.queues.push(queue), ..start });
        assert(self.idle() =~= idle);
        self.register(parent, Callback::Events { queue: q });
        q
    }

    /// Note that somebody has got `v`, and with it handles of the streams in it.
    pub(crate) fn retain(&mut self, v: &Value<T>)
        ensures
            final(self)@ == old(self)@.retain(*v),
            final(self).idle() == old(self).idle(),
        decreases *v,
    {
        let ghost start = self@;
        let ghost idle = self.idle();
        match v {
            Value::Just(a) => {
                self.retain(a);
            },
            Value::Pair(a, b) => {
                self.retain(a);
                let ghost mid = self@;
                assert forall|s: int| start.is_source(s) implies #[trigger] mid.sources[s]
                    == start.retained_source(**a, s) by {}
                self.retain(b);
                assert forall|s: int| start.is_source(s) implies #[trigger] self@.sources[s]
                    == start.retained_source(*v, s) by {
                    assert(self@.sources[s] == mid.retained_source(**b, s));
                    assert(mid.sources[s] == start.retained_source(**a, s));
                }
            },
            Value::Success(a) => {
                self.retain(a);
            },
            Value::Failure(a) => {
                self.retain(a);
            },
            Value::Stream(number, id, _) => {
                let s: usize = *id;
                if *number == self.number && s < self.sources.len() && !self.sources[s].ended {
                    self.sources[s].released = false;
                }
                assert(self.idle() =~= idle);
                assert(self@.sources =~= start.retain(*v).sources);
            },
            _ => {},
        }
        assert(self@.sources =~= start.retain(*v).sources);
        assert(self@ =~= start.retain(*v));
    }

    /// Mark the sources whose streams are in `v`, if they have not ended; say
    /// whether one of them was not marked before.
    fn mark_mentioned(&self, v: &Value<T>, sources: &mut Vec<bool>) -> (changed: bool)
        requires
            old(sources).len() == self@.sources.len(),
        ensures
            final(sources).len() == old(sources).len(),
            forall|s: int|
                self@.is_source(s) ==> #[trigger] final(sources)[s] == (old(sources)[s]
                    || self@.mentions(*v, s)),
            unmarked(final(sources)@) <= unmarked(old(sources)@),
            changed ==> unmarked(final(sources)@) < unmarked(old(sources)@),
            !changed ==> final(sources)@ == old(sources)@,
        decreases *v,
    {
        let ghost start = sources@;
        match v {
            Value::Just(a) => self.mark_mentioned(a, sources),
            Value::Pair(a, b) => {
                let first: bool = self.mark_mentioned(a, sources);
                let second: bool = self.mark_mentioned(b, sources);
                first || second
            },
            Value::Success(a) => self.mark_mentioned(a, sources),
            Value::Failure(a) => self.mark_mentioned(a, sources),
            Value::Stream(number, id, _) => {
                let s: usize = *id;
                if *number == self.number && s < self.sources.len() && !self.sources[s].ended {
                    mark(sources, s)
                } else {
                    false
                }
            },
            _ => false,
        }
    }

    /// Take the oldest event out of a queue.
    pub(crate) fn take_next(&mut self, q: usize) -> (v: Option<Value<T>>)
        requires
            old(self)@.is_queue(q as int),
        ensures
            final(self)@ == old(self)@.take_next(q as int),
            v is None <==> old(self)@.queues[q as int].waiting.len() == 0,
            v is Some ==> v->0 == old(self)@.queues[q as int].waiting.first(),
            final(self).idle() == old(self).idle(),
    {
        let ghost start = self@;
        let ghost idle = self.idle();
        let v = self.queues[q].waiting.pop_front();
        assert(self.idle() =~= idle);
        match &v {
            Some(first) => {
                let ghost queue = start.queues[q as int];
                let ghost shorter = QueueView { waiting: queue.waiting.drop_first(), ..queue };
                assert(self@.queues =~= start.queues.update(q as int, shorter));
                assert(self@ =~= NetworkView {
                    queues: start.queues.update(q as int, shorter),
                    ..start
                });
                self.retain(first);
            },
            None => {
                assert(self@.queues =~= start.queues);
                assert(self@ =~= start);
            },
        }
        v
    }

    /// Close a queue.
    pub(crate) fn close(&mut self, q: usize)
        requires
            old(self).wf(),
            old(self)@.is_queue(q as int),
        ensures
            final(self)@ == old(self)@.close(q as int),
            final(self).wf(),
    {
        let ghost start = self@;
        let ghost idle = self.idle();
        proof {
            lemma_release_valid(start, q as int);
        }
        self.queues[q].open = false;
        self.queues[q].waiting = VecDeque::new();
        assert(self@.queues =~= start.shut(q as int).queues);
        assert(self@ =~= start.shut(q as int));
        assert(self.idle() =~= idle);
        self.sweep();
        proof {
            lemma_lets_go_valid(start, start.shut(q as int));
            lemma_lets_go_copies(start, start.shut(q as int));
        }
    }

    /// Note that nobody has a handle of the stream of a source any more.
    pub(crate) fn release(&mut self, id: usize)
        requires
            old(self)@.is_source(id as int),
            old(self)@.let_go(id as int).sound(),
        ensures
            final(self)@ == old(self)@.release(id as int),
            final(self).idle() == old(self).idle(),
    {
        let ghost start = self@;
        let ghost idle = self.idle();
        self.sources[id].released = true;
        assert(self@.sources =~= start.let_go(id as int).sources);
        assert(self@ =~= start.let_go(id as int));
        assert(self.idle() =~= idle);
        self.sweep();
    }

    /// Note that nobody can send into a source any more.
    pub(crate) fn unpin(&mut self, id: usize)
        requires
            old(self).wf(),
            old(self)@.is_source(id as int),
        ensures
            final(self)@ == old(self)@.unpin(id as int),
            final(self).wf(),
    {
        let ghost start = self@;
        let ghost idle = self.idle();
        let ghost free = start.with_source(
            id as int,
            SourceView { pinned: false, ..start.sources[id as int] },
        );
        proof {
            lemma_lets_go_valid(start, free);
        }
        self.sources[id].pinned = false;
        assert(self@.sources =~= free.sources);
        assert(self@ =~= free);
        assert(self.idle() =~= idle);
        self.sweep();
        proof {
            lemma_lets_go_copies(start, free);
        }
    }

    /// Note that nobody has a handle of a signal any more.
    pub(crate) fn release_cell(&mut self, k: usize)
        requires
            old(self).wf(),
            old(self)@.is_cell(k as int),
        ensures
            final(self)@ == old(self)@.release_cell(k as int),
            final(self).wf(),
    {
        let ghost start = self@;
        let ghost idle = self.idle();
        let ghost cell = CellView { released: true, ..start.cells[k as int] };
        let ghost free = NetworkView { cells: start.cells.update(k as int, cell), ..start };
        proof {
            lemma_lets_go_valid(start, free);
        }
        self.cells[k].released = true;
        assert(self@.cells =~= free.cells);
        assert(self@ =~= free);
        assert(self.idle() =~= idle);
        self.sweep();
        proof {
            lemma_lets_go_copies(start, free);
        }
    }

    /// Whether what the callback `k` of the source `id` acts on is marked.
    fn is_lit(&self, id: usize, k: usize, sources: &Vec<bool>, cells: &Vec<bool>) -> (lit: bool)
        requires
            self@.sound(),
            self@.is_source(id as int),
            k < self@.sources[id as int].callbacks.len(),
            sources.len() == self@.sources.len(),
            cells.len() == self@.cells.len(),
        ensures
            lit == self@.lit_by(
                sources@,
                cells@,
                self@.sources[id as int].callbacks[k as int],
            ),
    {
        proof {
            assert(self@.sound_source(id as int));
            assert(self@.sound_entry(id as int, self@.sources[id as int].callbacks[k as int]));
        }
        match &self.sources[id].callbacks[k].callback {
            Callback::Mapped { target, .. } => sources[*target],
            Callback::FilterSome { target } => sources[*target],
            Callback::Merge { target, .. } => sources[*target],
            Callback::Switch { target } => sources[*target],
            Callback::Switched { target, token, .. } => self.tokens[*token] && sources[*target],
            Callback::Snapshot { target, .. } => sources[*target],
            Callback::Events { queue } => self.queues[*queue].open,
            Callback::Hold { cell } => cells[*cell],
            Callback::ScanMut { cell, .. } => cells[*cell],
        }
    }

    /// Mark what is alive because something marked rests on it; say whether
    /// anything was not marked before.
    fn spread(&self, sources: &mut Vec<bool>, cells: &mut Vec<bool>) -> (changed: bool)
        requires
            self@.sound(),
            self@.marked(old(sources)@, old(cells)@),
        ensures
            self@.marked(final(sources)@, final(cells)@),
            unmarked(final(sources)@) + unmarked(final(cells)@) <= unmarked(old(sources)@)
                + unmarked(old(cells)@),
            changed ==> unmarked(final(sources)@) + unmarked(final(cells)@) < unmarked(
                old(sources)@,
            ) + unmarked(old(cells)@),
            !changed ==> self@.all_marked(final(sources)@, final(cells)@),
    {
        let ghost a = self@;
        let ghost first = unmarked(sources@) + unmarked(cells@);
        let ghost start_sources = sources@;
        let ghost start_cells = cells@;
        let mut changed: bool = false;
        let count: usize = self.sources.len();
        let mut s: usize = count;
        while s > 0
            invariant
                s <= count,
                count == a.sources.len(),
                a == self@,
                a.sound(),
                a.marked(sources@, cells@),
                unmarked(sources@) + unmarked(cells@) <= first,
                changed ==> unmarked(sources@) + unmarked(cells@) < first,
                !changed ==> sources@ == start_sources && cells@ == start_cells,
                !changed ==> forall|t: int, i: int|
                    s <= t < count && 0 <= i < a.sources[t].callbacks.len()
                        ==> #[trigger] a.adds_none(sources@, cells@, t, i),
            decreases s,
        {
            s -= 1;
            let callbacks: usize = self.sources[s].callbacks.len();
            let mut i: usize = 0;
            while i < callbacks
                invariant
                    s < count,
                    i <= callbacks,
                    callbacks == a.sources[s as int].callbacks.len(),
                    count == a.sources.len(),
                    a == self@,
                    a.sound(),
                    a.marked(sources@, cells@),
                    unmarked(sources@) + unmarked(cells@) <= first,
                    changed ==> unmarked(sources@) + unmarked(cells@) < first,
                    !changed ==> sources@ == start_sources && cells@ == start_cells,
                    !changed ==> forall|t: int, j: int|
                        s < t < count && 0 <= j < a.sources[t].callbacks.len()
                            ==> #[trigger] a.adds_none(sources@, cells@, t, j),
                    !changed ==> forall|j: int|
                        0 <= j < i ==> #[trigger] a.adds_none(sources@, cells@, s as int, j),
                decreases callbacks - i,
            {
                if self.is_lit(s, i, sources, cells) {
                    proof {
                        lemma_lit(a, sources@, cells@, s as int, i as int);
                    }
                    if mark(sources, s) {
                        changed = true;
                    }
                    let callback = &self.sources[s].callbacks[i].callback;
                    if let Callback::Snapshot { signal, .. } = callback {
                        let k: usize = *signal;
                        if mark(cells, k) {
                            changed = true;
                        }
                    }
                }
                i += 1;
            }
        }
        let total: usize = self.cells.len();
        let mut j: usize = 0;
        while j < total
            invariant
                j <= total,
                total == a.cells.len(),
                count == a.sources.len(),
                a == self@,
                a.sound(),
                a.marked(sources@, cells@),
                unmarked(sources@) + unmarked(cells@) <= first,
                changed ==> unmarked(sources@) + unmarked(cells@) < first,
                !changed ==> sources@ == start_sources && cells@ == start_cells,
                !changed ==> forall|t: int, i: int|
                    0 <= t < count && 0 <= i < a.sources[t].callbacks.len()
                        ==> #[trigger] a.adds_none(sources@, cells@, t, i),
                !changed ==> forall|k: int|
                    0 <= k < j ==> #[trigger] a.rests_on_marked(sources@, cells@, k),
            decreases total - j,
        {
            if cells[j] {
                proof {
                    lemma_lit_cell(a, sources@, cells@, j as int);
                }
                match &self.cells[j].content {
                    Content::Alias(k) => {
                        if mark(cells, *k) {
                            changed = true;
                        }
                    },
                    Content::Combined { state, other, .. } => {
                        if mark(cells, *state) {
                            changed = true;
                        }
                        if mark(cells, *other) {
                            changed = true;
                        }
                    },
                    Content::Held(v) => {
                        if self.mark_mentioned(v, sources) {
                            changed = true;
                        }
                    },
                    Content::Undefined => {},
                }
            }
            j += 1;
        }
        changed
    }

    /// Mark the sources whose streams wait for somebody.
    fn mark_waiting(&self, sources: &mut Vec<bool>)
        requires
            old(sources).len() == self@.sources.len(),
        ensures
            final(sources).len() == old(sources).len(),
            forall|s: int|
                self@.is_source(s) ==> #[trigger] final(sources)[s] == (old(sources)[s] || exists|
                    q: int,
                    i: int,
                | #[trigger] self@.waits(q, i, s)),
    {
        let ghost a = self@;
        let ghost start = sources@;
        let queues: usize = self.queues.len();
        let mut q: usize = 0;
        while q < queues
            invariant
                q <= queues,
                queues == a.queues.len(),
                a == self@,
                sources.len() == a.sources.len(),
                start.len() == a.sources.len(),
                forall|s: int|
                    a.is_source(s) ==> #[trigger] sources[s] == (start[s] || exists|
                        p: int,
                        i: int,
                    | p < q && #[trigger] a.waits(p, i, s)),
            decreases queues - q,
        {
            let ghost before = sources@;
            if self.queues[q].open {
                let count: usize = self.queues[q].waiting.len();
                let mut i: usize = 0;
                while i < count
                    invariant
                        i <= count,
                        q < queues,
                        queues == a.queues.len(),
                        a == self@,
                        a.queues[q as int].open,
                        count == a.queues[q as int].waiting.len(),
                        sources.len() == a.sources.len(),
                        before.len() == a.sources.len(),
                        forall|s: int|
                            a.is_source(s) ==> #[trigger] sources[s] == (before[s] || exists|
                                j: int,
                            | j < i && #[trigger] a.waits(q as int, j, s)),
                    decreases count - i,
                {
                    let ghost earlier = sources@;
                    self.mark_mentioned(&self.queues[q].waiting[i], sources);
                    assert forall|s: int| a.is_source(s) implies #[trigger] sources[s] == (before[s]
                        || exists|j: int| j < i + 1 && #[trigger] a.waits(q as int, j, s)) by {
                        assert(sources[s] == (earlier[s] || a.mentions(
                            a.queues[q as int].waiting[i as int],
                            s,
                        )));
                        assert(a.waits(q as int, i as int, s) == a.mentions(
                            a.queues[q as int].waiting[i as int],
                            s,
                        ));
                    }
                    i += 1;
                }
            }
            assert forall|s: int| a.is_source(s) implies #[trigger] sources[s] == (start[s]
                || exists|p: int, i: int| p < q + 1 && #[trigger] a.waits(p, i, s)) by {
                assert(before[s] == (start[s] || exists|p: int, i: int|
                    p < q && #[trigger] a.waits(p, i, s)));
                if exists|p: int, i: int| p < q + 1 && #[trigger] a.waits(p, i, s) {
                    let (p, i) = choose|p: int, i: int| p < q + 1 && #[trigger] a.waits(p, i, s);
                    assert(a.waits(p, i, s));
                    if p < q {
                        assert(before[s]);
                    }
                }
            }
            q += 1;
        }
    }

    /// End what is not alive any more.
    fn sweep(&mut self)
        requires
            old(self)@.sound(),
        ensures
            final(self)@ == old(self)@.sweep(),
            final(self).idle() == old(self).idle(),
    {
        let ghost a = self@;
        let ghost idle = self.idle();
        let mut sources: Vec<bool> = Vec::new();
        let count: usize = self.sources.len();
        let mut s: usize = 0;
        while s < count
            invariant
                s <= count,
                count == a.sources.len(),
                a == self@,
                sources.len() == s,
                forall|t: int| 0 <= t < s ==> #[trigger] sources[t] == a.sources[t].is_held(),
            decreases count - s,
        {
            let source = &self.sources[s];
            sources.push(source.pinned || !source.released);
            s += 1;
        }
        let mut cells: Vec<bool> = Vec::new();
        let total: usize = self.cells.len();
        let mut k: usize = 0;
        while k < total
            invariant
                k <= total,
                total == a.cells.len(),
                a == self@,
                cells.len() == k,
                forall|j: int| 0 <= j < k ==> #[trigger] cells[j] == !a.cells[j].released,
            decreases total - k,
        {
            cells.push(!self.cells[k].released);
            k += 1;
        }
        self.mark_waiting(&mut sources);
        proof {
            lemma_held_is_alive(a);
            assert forall|t: int| a.is_source(t) && #[trigger] sources@[t] implies a.alive(t) by {
                alive_is_held_or_rested_on(a, t);
            }
            assert forall|t: int| a.is_source(t) && (#[trigger] a.sources[t]).is_held() implies
                sources@[t] by {
                assert(sources[t]);
            }
            assert forall|j: int| a.is_cell(j) && !(#[trigger] a.cells[j]).released implies
                cells@[j] by {
                assert(cells[j] == !a.cells[j].released);
            }
        }
        let mut changed: bool = true;
        while changed
            invariant
                a == self@,
                a.sound(),
                a.marked(sources@, cells@),
                !changed ==> a.all_marked(sources@, cells@),
            decreases unmarked(sources@) + unmarked(cells@) + if changed {
                1int
            } else {
                0int
            },
        {
            changed = self.spread(&mut sources, &mut cells);
        }
        proof {
            lemma_all_marked(a, sources@, cells@);
        }
        let ghost b = a.sweep();
        s = 0;
        while s < count
            invariant
                s <= count,
                count == a.sources.len(),
                count == sources.len(),
                self.sources.len() == count,
                b == a.sweep(),
                forall|t: int| a.is_source(t) ==> #[trigger] sources[t] == a.alive(t),
                self@ == (NetworkView { sources: self@.sources, ..a }),
                forall|t: int|
                    0 <= t < count ==> #[trigger] self@.sources[t] == if t < s {
                        a.swept_source(t)
                    } else {
                        a.sources[t]
                    },
                self.idle() == idle,
            decreases count - s,
        {
            let ghost before = self@;
            let alive: bool = sources[s];
            self.sources[s].ended = !alive;
            if !alive {
                self.sources[s].callbacks = Vec::new();
            }
            assert(self@.sources[s as int] =~= a.swept_source(s as int)) by {
                assert(before.sources[s as int] == a.sources[s as int]);
                if !alive {
                    assert(self@.sources[s as int].callbacks =~= Seq::<Entry<T>>::empty());
                }
            }
            assert forall|t: int| 0 <= t < count && t != s implies #[trigger] self@.sources[t]
                == before.sources[t] by {}
            assert(self@ =~= NetworkView { sources: self@.sources, ..before });
            assert(self.idle() =~= idle);
            s += 1;
        }
        assert(self@.sources =~= b.sources);
        k = 0;
        while k < total
            invariant
                k <= total,
                total == a.cells.len(),
                total == cells.len(),
                self.cells.len() == total,
                b == a.sweep(),
                forall|j: int| a.is_cell(j) ==> #[trigger] cells[j] == a.alive_cell(j),
                self@ == (NetworkView { sources: b.sources, cells: self@.cells, ..a }),
                forall|j: int|
                    0 <= j < total ==> #[trigger] self@.cells[j] == if j < k {
                        a.swept_cell(j)
                    } else {
                        a.cells[j]
                    },
                self.idle() == idle,
            decreases total - k,
        {
            let ghost before = self@;
            let alive: bool = cells[k];
            self.cells[k].ended = !alive;
            if !alive {
                self.cells[k].content = Content::Undefined;
            }
            assert(before.cells[k as int] == a.cells[k as int]);
            assert(self@.cells[k as int] =~= a.swept_cell(k as int));
            assert forall|j: int| 0 <= j < total && j != k implies #[trigger] self@.cells[j]
                == before.cells[j] by {}
            assert(self@ =~= NetworkView { cells: self@.cells, ..before });
            assert(self.idle() =~= idle);
            k += 1;
        }
        assert(self@.cells =~= b.cells);
        assert(self@ =~= b);
    }

    /// Send an event into a source.
    pub(crate) fn send(&mut self, id: usize, v: Value<T>)
        requires
            old(self)@.sound(),
            old(self)@.copies_events(),
            old(self).idle() == old(self)@.ids(),
            old(self)@.is_source(id as int),
            old(self)@.sources[id as int].origin is Sink,
            v.fits(old(self)@.sources[id as int].shape),
            old(self)@.can_send(id as int, v),
        ensures
            old(self)@.sends(id as int, v, final(self)@),
            old(self)@.becomes(final(self)@),
            final(self).idle() == final(self)@.ids(),
            final(self)@.sound(),
    {
        let ghost start = self@;
        let ghost cause = v;
        proof {
            vstd::set_lib::lemma_int_range(0, self@.sources.len() as int);
            assert forall|all: Seq<Value<T>>| start.returned.is_prefix_of(all) implies !(
            #[trigger] start.fire(all, start.ids(), id as int, v, v)).overstepped by {
                assert(!start.sent(id as int, v, all).overstepped);
            }
        }
        self.fire(id, v, Ghost(cause));
        let ghost fired = self@;
        self.sweep();
        proof {
            lemma_sweep_sound(fired);
            lemma_becomes_transitive(start, fired, self@);
            assert forall|all: Seq<Value<T>>| self@.returned.is_prefix_of(all) implies self@
                == #[trigger] start.sent(id as int, cause, all) by {
                assert(fired == start.fire(all, start.ids(), id as int, cause, cause));
            }
        }
    }
}

/// Mark one more; say whether it was not marked before.
fn mark(marks: &mut Vec<bool>, i: usize) -> (changed: bool)
    requires
        i < old(marks).len(),
    ensures
        final(marks)@ == old(marks)@.update(i as int, true),
        changed == !old(marks)@[i as int],
        changed ==> unmarked(final(marks)@) < unmarked(old(marks)@),
        !changed ==> final(marks)@ == old(marks)@,
{
    let changed: bool = !marks[i];
    if changed {
        proof {
            lemma_mark(marks@, i as int);
        }
        marks[i] = true;
    }
    assert(marks@ =~= old(marks)@.update(i as int, true));
    changed
}

} // verus!
