//! Consistency: what streams, signals and listeners are to each other.
//!
//! Each callback has an effect at one place of its own: the history of the
//! source that it fires, one side of a merge, a cell, or a queue. In a
//! consistent network what is at that place is what the callback makes of all
//! the events that its source has fired since it was registered.
use crate::function::Binary;
use crate::model::{
    both, CellOrigin, ContentView, Entry, NetworkView, Origin, Reaction, SourceView, Turn,
};
use crate::sound::{
    lemma_can_be_fits, lemma_deliver_sound, lemma_hear_sound, lemma_react_sound,
    lemma_record_sound, lemma_same_can_be, lemma_same_sound,
};
use crate::value::Value;
use vstd::prelude::*;

verus! {

/// The last of the values, or `initial` if there are none.
pub open spec fn last_or<T>(initial: Value<T>, values: Seq<Value<T>>) -> Value<T> {
    if values.len() == 0 {
        initial
    } else {
        values.last()
    }
}

/// What an accumulator was before the update number `j`.
pub open spec fn before_update<T>(
    initial: Value<T>,
    updates: Seq<(Value<T>, Value<T>, Value<T>)>,
    j: int,
) -> Value<T> {
    if j <= 0 {
        initial
    } else {
        updates[j - 1].2
    }
}

/// The update number `j` is what `f` makes of the accumulator and of what is
/// heard.
pub open spec fn is_update<T>(
    f: Binary<T>,
    initial: Value<T>,
    updates: Seq<(Value<T>, Value<T>, Value<T>)>,
    heard: Seq<Value<T>>,
    j: int,
) -> bool {
    &&& updates[j].0 == before_update(initial, updates, j)
    &&& updates[j].1 == heard[j]
    &&& (f.promise)((updates[j].0, updates[j].1), updates[j].2)
}

/// `all` is made of `left` and `right`, each in its own order; `sides` says
/// which of them each comes from: true for the left.
pub open spec fn woven<X>(all: Seq<X>, sides: Seq<bool>, left: Seq<X>, right: Seq<X>) -> bool
    decreases all.len(),
{
    &&& sides.len() == all.len()
    &&& if all.len() == 0 {
        left.len() == 0 && right.len() == 0
    } else if sides.last() {
        left.len() > 0 && left.last() == all.last() && woven(
            all.drop_last(),
            sides.drop_last(),
            left.drop_last(),
            right,
        )
    } else {
        right.len() > 0 && right.last() == all.last() && woven(
            all.drop_last(),
            sides.drop_last(),
            left,
            right.drop_last(),
        )
    }
}

/// `w` is what `f` makes of the value of a signal and the event `v`, both of
/// which are recorded in `cause`.
pub open spec fn is_snapshot<T>(f: Binary<T>, cause: Value<T>, v: Value<T>, w: Value<T>) -> bool {
    cause == both(sampled(cause), v) && (f.promise)((sampled(cause), v), w)
}

/// The value of the signal that is recorded in the cause of a snapshot.
pub open spec fn sampled<T>(cause: Value<T>) -> Value<T> {
    match cause {
        Value::Pair(x, _) => *x,
        _ => cause,
    }
}

/// The event is the stream of the turn.
pub open spec fn hands_over<T>(v: Value<T>, turn: Turn) -> bool {
    v matches Value::Stream(_, new, _) && new as int == turn.stream
}

/// What the options hold.
pub open spec fn unwrapping<T>() -> spec_fn(Value<T>) -> Option<Value<T>> {
    |v: Value<T>| v.contained()
}

/// The place where a callback has its effect.
pub enum Place {
    Nowhere,
    History(int),
    Left(int),
    Right(int),
    Current(int),
    Queue(int),
    Cell(int),
}

/// Which callbacks of the sources that are firing have reacted: of the source
/// `s` with `(k, n)`, those before `k` have and those from `k` to `n` have not.
pub type Progress = Map<int, (int, int)>;

/// How many events a callback is behind.
pub open spec fn lag(progress: Progress, s: int, i: int) -> nat {
    if progress.dom().contains(s) && progress[s].0 <= i < progress[s].1 {
        1
    } else {
        0
    }
}

impl<T> NetworkView<T> {
    /// The place where a callback has its effect.
    pub open spec fn place(self, entry: Entry<T>) -> Place {
        if self.disappeared(entry) {
            Place::Nowhere
        } else {
            match entry.reaction {
                Reaction::Mapped { target, .. } => Place::History(target),
                Reaction::FilterSome { target } => Place::History(target),
                Reaction::Merge { left, target } => if left {
                    Place::Left(target)
                } else {
                    Place::Right(target)
                },
                Reaction::Switch { target } => Place::Current(target),
                Reaction::Switched { target, .. } => Place::History(target),
                Reaction::Snapshot { target, .. } => Place::History(target),
                Reaction::Events { queue } => Place::Queue(queue),
                Reaction::Hold { cell } => Place::Cell(cell),
                Reaction::ScanMut { cell, .. } => Place::Cell(cell),
            }
        }
    }

    /// A callback of the source `s` has disappeared, or its effect is that of
    /// `heard`.
    pub open spec fn holds(self, s: int, entry: Entry<T>, heard: Seq<Value<T>>) -> bool {
        self.disappeared(entry) || self.has_effect(s, entry, heard)
    }

    /// The effect of a callback of the source `s` is that of `heard`.
    pub open spec fn has_effect(self, s: int, entry: Entry<T>, heard: Seq<Value<T>>) -> bool {
        let since = entry.since;
        match entry.reaction {
            Reaction::Mapped { f, target } => {
                &&& self.sources[target].origin == Origin::Mapped { parent: s, since, f }
                &&& self.sources[target].history.len() == heard.len()
                &&& forall|j: int|
                    0 <= j < heard.len() ==> (f.promise)(
                        heard[j],
                        #[trigger] self.sources[target].history[j],
                    )
            },
            Reaction::FilterSome { target } => {
                &&& self.sources[target].origin == Origin::<T>::FilterSome { parent: s, since }
                &&& self.sources[target].history == heard.filter_map(unwrapping())
            },
            Reaction::Merge { left, target } => {
                match self.sources[target].origin {
                    Origin::Merge { left: l, left_since, right: r, right_since } => if left {
                        s == l && since == left_since && self.sources[target].left == heard
                    } else {
                        s == r && since == right_since && self.sources[target].right == heard
                    },
                    _ => false,
                }
            },
            Reaction::Switch { target } => {
                let source = self.sources[target];
                &&& source.origin == Origin::<T>::Switch { parent: s, since }
                &&& source.turns.len() == heard.len()
                &&& forall|j: int|
                    0 <= j < heard.len() ==> hands_over(heard[j], #[trigger] source.turns[j])
            },
            Reaction::Switched { target, token, from } => {
                let source = self.sources[target];
                &&& source.origin is Switch
                &&& source.terminate == Some(token)
                &&& source.turns.len() > 0
                &&& source.turns.last() == Turn { stream: s, from, since }
                &&& from <= source.history.len()
                &&& source.history.skip(from as int) == heard
            },
            Reaction::Snapshot { signal, f, target } => {
                let source = self.sources[target];
                &&& source.origin == Origin::Snapshot { parent: s, since, signal, f }
                &&& source.causes.len() == heard.len()
                &&& source.history.len() == heard.len()
                &&& forall|j: int|
                    0 <= j < heard.len() ==> is_snapshot(
                        f,
                        source.causes[j],
                        heard[j],
                        #[trigger] source.history[j],
                    )
            },
            Reaction::Events { queue } => {
                &&& self.queues[queue].parent == s
                &&& self.queues[queue].since == since
                &&& self.queues[queue].received == heard
            },
            Reaction::Hold { cell } => {
                match self.cells[cell].origin {
                    CellOrigin::Hold { parent, since: begin, initial } => {
                        &&& parent == s
                        &&& begin == since
                        &&& self.cells[cell].content == ContentView::Held(last_or(initial, heard))
                    },
                    _ => false,
                }
            },
            Reaction::ScanMut { cell, f } => {
                match self.cells[cell].origin {
                    CellOrigin::ScanMut { parent, since: begin, initial, f: g } => {
                        &&& parent == s
                        &&& begin == since
                        &&& f == g
                        &&& self.cells[cell].content == ContentView::Held(
                            before_update(initial, self.cells[cell].updates, heard.len() as int),
                        )
                        &&& self.cells[cell].updates.len() == heard.len()
                        &&& forall|j: int|
                            0 <= j < heard.len() ==> #[trigger] is_update(
                                f,
                                initial,
                                self.cells[cell].updates,
                                heard,
                                j,
                            )
                    },
                    _ => false,
                }
            },
        }
    }

    /// What a callback has heard that is `behind` events behind.
    pub open spec fn heard(self, s: int, entry: Entry<T>, behind: nat) -> Seq<Value<T>> {
        let history = self.sources[s].history;
        history.subrange(entry.since as int, history.len() - behind)
    }

    /// The callback `i` of the source `s` has had its effect.
    pub open spec fn up_to_date(self, progress: Progress, s: int, i: int) -> bool {
        let entry = self.sources[s].callbacks[i];
        let behind = lag(progress, s, i);
        &&& entry.since + behind <= self.sources[s].history.len()
        &&& self.holds(s, entry, self.heard(s, entry, behind))
    }

    /// No two callbacks have their effects at the same place.
    pub open spec fn apart(self, s: int, i: int, t: int, j: int) -> bool {
        let place = self.place(self.sources[s].callbacks[i]);
        s == t && i == j || place is Nowhere || place != self.place(self.sources[t].callbacks[j])
    }

    pub open spec fn is_callback(self, s: int, i: int) -> bool {
        self.is_source(s) && 0 <= i < self.sources[s].callbacks.len()
    }

    pub open spec fn exclusive(self) -> bool {
        forall|s: int, i: int, t: int, j: int|
            self.is_callback(s, i) && self.is_callback(t, j) ==> #[trigger] self.apart(s, i, t, j)
    }

    /// A callback that does this is registered with the source `s`.
    pub open spec fn has(self, s: int, reaction: Reaction<T>, since: nat) -> bool {
        self.is_source(s) && self.sources[s].callbacks.contains(Entry { reaction, since })
    }

    /// The cell that a cell stands for.
    pub open spec fn resolve(self, k: int) -> int {
        match self.cells[k].content {
            ContentView::Alias(j) => j,
            _ => k,
        }
    }

    /// The samples of a snapshot of the signal that holds the snapshot's own
    /// events: each is what the one before it became. And those of a snapshot
    /// of a constant signal: they all are its value.
    pub open spec fn own_samples(self, m: int) -> bool {
        let source = self.sources[m];
        match source.origin {
            Origin::Snapshot { signal, .. } => match self.cells[self.resolve(signal)].origin {
                CellOrigin::Hold { parent, since, initial } => parent == m && since == 0 ==> forall|
                    j: int,
                |
                    0 <= j < source.causes.len() ==> sampled(#[trigger] source.causes[j])
                        == last_or(initial, source.history.take(j)),
                CellOrigin::Constant => self.cells[self.resolve(signal)].content is Held ==> forall|
                    j: int,
                |
                    0 <= j < source.causes.len() ==> self.cells[self.resolve(signal)].content
                        == ContentView::Held(sampled(#[trigger] source.causes[j])),
                _ => true,
            },
            _ => true,
        }
    }

    /// What feeds a source that has not ended is registered where it comes
    /// from.
    pub open spec fn fed_source(self, m: int) -> bool {
        let source = self.sources[m];
        source.ended || match source.origin {
            Origin::Sink => true,
            Origin::Never => source.history.len() == 0,
            Origin::Mapped { parent, since, f } => self.has(
                parent,
                Reaction::Mapped { f, target: m },
                since,
            ),
            Origin::FilterSome { parent, since } => self.has(
                parent,
                Reaction::FilterSome { target: m },
                since,
            ),
            Origin::Merge { left, left_since, right, right_since } => {
                &&& self.has(left, Reaction::Merge { left: true, target: m }, left_since)
                &&& self.has(right, Reaction::Merge { left: false, target: m }, right_since)
                &&& woven(source.history, source.sides, source.left, source.right)
            },
            Origin::Switch { parent, since } => {
                &&& self.has(parent, Reaction::Switch { target: m }, since)
                &&& source.turns.len() == 0 ==> source.history.len() == 0 && source.terminate
                    is None
                &&& source.turns.len() > 0 ==> self.follows(m)
                &&& self.in_turn(m)
            },
            Origin::Snapshot { parent, since, signal, f } => {
                &&& self.has(parent, Reaction::Snapshot { signal, f, target: m }, since)
                &&& self.is_cell(signal)
                &&& self.own_samples(m)
            },
        }
    }

    /// The switch `m` has a live callback registered with the stream that it was
    /// handed last.
    pub open spec fn follows(self, m: int) -> bool {
        let turn = self.sources[m].turns.last();
        &&& self.sources[m].terminate matches Some(t) && self.tokens[t]
        &&& self.has(
            turn.stream,
            Reaction::Switched {
                target: m,
                token: self.sources[m].terminate->0,
                from: turn.from,
            },
            turn.since,
        )
    }

    /// The turn number `j` of the switch `m` begins within what has been fired.
    pub open spec fn begun_turn(self, m: int, j: int) -> bool {
        let turn = self.sources[m].turns[j];
        &&& self.is_source(turn.stream)
        &&& turn.since <= self.sources[turn.stream].history.len()
        &&& turn.from <= self.sources[m].history.len()
        &&& j == 0 ==> turn.from == 0
    }

    /// From its turn number `j` to the next the switch `m` has fired what the
    /// stream of that turn fired.
    pub open spec fn done_turn(self, m: int, j: int) -> bool {
        let turn = self.sources[m].turns[j];
        let until = self.sources[m].turns[j + 1].from;
        let stop = turn.since + until - turn.from;
        &&& turn.from <= until
        &&& stop <= self.sources[turn.stream].history.len()
        &&& self.sources[m].history.subrange(turn.from as int, until as int)
            == self.sources[turn.stream].history.subrange(turn.since as int, stop)
    }

    /// The switch `m` has fired what the streams that it was handed fired, each
    /// in its turn.
    pub open spec fn in_turn(self, m: int) -> bool {
        let turns = self.sources[m].turns;
        &&& forall|j: int| 0 <= j < turns.len() ==> #[trigger] self.begun_turn(m, j)
        &&& forall|j: int| 0 <= j < turns.len() - 1 ==> #[trigger] self.done_turn(m, j)
    }

    /// What feeds a cell that has not ended is registered where it comes from.
    pub open spec fn fed_cell(self, k: int) -> bool {
        self.cells[k].ended || match self.cells[k].origin {
            CellOrigin::Hold { parent, since, initial } => self.has(
                parent,
                Reaction::Hold { cell: k },
                since,
            ),
            CellOrigin::ScanMut { parent, since, initial, f } => self.has(
                parent,
                Reaction::ScanMut { cell: k, f },
                since,
            ),
            _ => true,
        }
    }

    /// What feeds an open queue is registered where it comes from; what waits
    /// in it came last.
    pub open spec fn fed_queue(self, q: int) -> bool {
        let queue = self.queues[q];
        let taken = queue.received.len() - queue.waiting.len();
        &&& queue.open ==> self.has(queue.parent, Reaction::Events { queue: q }, queue.since)
        &&& 0 <= taken
        &&& queue.waiting == queue.received.skip(taken)
        &&& !queue.open ==> queue.waiting.len() == 0
    }

    /// No two switches share a token.
    pub open spec fn own_tokens(self) -> bool {
        forall|m: int, n: int|
            self.is_source(m) && self.is_source(n) && m != n && (
            #[trigger] self.sources[m]).terminate is Some ==> self.sources[m].terminate != (
            #[trigger] self.sources[n]).terminate
    }

    /// Everything is connected as it was made.
    pub open spec fn connected(self) -> bool {
        &&& forall|m: int| self.is_source(m) ==> #[trigger] self.fed_source(m)
        &&& forall|k: int| self.is_cell(k) ==> #[trigger] self.fed_cell(k)
        &&& forall|q: int| self.is_queue(q) ==> #[trigger] self.fed_queue(q)
        &&& self.own_tokens()
    }

    pub open spec fn all_up_to_date(self, progress: Progress) -> bool {
        forall|s: int, i: int|
            self.is_callback(s, i) ==> #[trigger] self.up_to_date(progress, s, i)
    }

    /// Consistency while some sources are firing.
    pub open spec fn consistent_at(self, progress: Progress) -> bool {
        &&& self.all_up_to_date(progress)
        &&& self.exclusive()
        &&& self.connected()
    }

    /// Consistency while no source is firing.
    pub open spec fn consistent(self) -> bool {
        self.consistent_at(Map::empty())
    }
}

// ---- Sequences ----

proof fn lemma_heard_more<T>(
    f: spec_fn(Value<T>) -> Option<Value<T>>,
    heard: Seq<Value<T>>,
    v: Value<T>,
)
    ensures
        f(v) matches Some(w) ==> heard.push(v).filter_map(f) == heard.filter_map(f).push(w),
        f(v) is None ==> heard.push(v).filter_map(f) == heard.filter_map(f),
{
    assert(heard.push(v).drop_last() =~= heard);
    if let Some(w) = f(v) {
        assert(heard.filter_map(f) + seq![w] =~= heard.filter_map(f).push(w));
    }
}

proof fn lemma_woven_more<T>(
    all: Seq<Value<T>>,
    sides: Seq<bool>,
    left: Seq<Value<T>>,
    right: Seq<Value<T>>,
    v: Value<T>,
)
    requires
        woven(all, sides, left, right),
    ensures
        woven(all.push(v), sides.push(true), left.push(v), right),
        woven(all.push(v), sides.push(false), left, right.push(v)),
{
    assert(all.push(v).drop_last() =~= all);
    assert(sides.push(true).drop_last() =~= sides);
    assert(sides.push(false).drop_last() =~= sides);
    assert(left.push(v).drop_last() =~= left);
    assert(right.push(v).drop_last() =~= right);
}

/// What holds of every pair of a sequence holds of every pair that is kept.
proof fn lemma_filter_pairs<X>(s: Seq<X>, keep: spec_fn(X) -> bool, rel: spec_fn(X, X) -> bool)
    requires
        forall|i: int, j: int| 0 <= i < j < s.len() ==> #[trigger] rel(s[i], s[j]),
    ensures
        forall|i: int, j: int|
            0 <= i < j < s.filter(keep).len() ==> #[trigger] rel(
                s.filter(keep)[i],
                s.filter(keep)[j],
            ),
    decreases s.len(),
{
    reveal(Seq::filter);
    if s.len() > 0 {
        let rest = s.drop_last();
        assert forall|i: int, j: int| 0 <= i < j < rest.len() implies #[trigger] rel(
            rest[i],
            rest[j],
        ) by {
            assert(rel(s[i], s[j]));
        }
        lemma_filter_pairs(rest, keep, rel);
        let kept = s.filter(keep);
        assert forall|i: int, j: int| 0 <= i < j < kept.len() implies #[trigger] rel(
            kept[i],
            kept[j],
        ) by {
            if keep(s.last()) && j == kept.len() - 1 {
                assert(rest.filter(keep).contains(rest.filter(keep)[i]));
                rest.lemma_filter_contains_rev(keep, rest.filter(keep)[i]);
                let n = choose|n: int| 0 <= n < rest.len() && rest[n] == kept[i];
                assert(rel(s[n], s[s.len() - 1]));
            } else {
                assert(rel(rest.filter(keep)[i], rest.filter(keep)[j]));
            }
        }
    }
}

// ---- Reactions ----

/// What it takes to show that `b` is consistent after the callback `k` of the
/// source `id` has reacted, where `b` differs from `a` at the place of that
/// callback alone.
spec fn reacting<T>(
    a: NetworkView<T>,
    progress: Progress,
    idle: Set<int>,
    id: int,
    k: int,
    n: int,
    v: Value<T>,
) -> bool {
    &&& a.sound()
    &&& a.consistent_at(progress.insert(id, (k, n)))
    &&& a.is_source(id)
    &&& 0 <= k < n <= a.sources[id].callbacks.len()
    &&& a.sources[id].history.len() > 0
    &&& a.sources[id].history.last() == v
    &&& v.fits(a.sources[id].shape)
    &&& idle.finite()
    &&& !idle.contains(id)
    &&& forall|s: int| idle.contains(s) ==> !progress.dom().contains(s)
}

/// The callback that reacts hears one event more.
proof fn lemma_hears<T>(
    a: NetworkView<T>,
    progress: Progress,
    idle: Set<int>,
    id: int,
    k: int,
    n: int,
    v: Value<T>,
)
    requires
        reacting(a, progress, idle, id, k, n, v),
    ensures
        ({
            let entry = a.sources[id].callbacks[k];
            &&& entry.since + 1 <= a.sources[id].history.len()
            &&& a.heard(id, entry, 0) == a.heard(id, entry, 1).push(v)
            &&& a.holds(id, entry, a.heard(id, entry, 1))
            &&& a.sound_entry(id, entry)
        }),
{
    assert(a.is_callback(id, k));
    assert(a.up_to_date(progress.insert(id, (k, n)), id, k));
    let entry = a.sources[id].callbacks[k];
    assert(a.heard(id, entry, 0) =~= a.heard(id, entry, 1).push(v));
    assert(a.sound_source(id));
}

/// The effect of a callback stays the same while its place is not touched.
proof fn lemma_holds_elsewhere<T>(
    a: NetworkView<T>,
    b: NetworkView<T>,
    target: int,
    touched: Place,
    s: int,
    entry: Entry<T>,
    heard: Seq<Value<T>>,
)
    requires
        a.is_source(target),
        a.sound_entry(s, entry),
        b == a.with_source(target, b.sources[target]),
        b.sources[target].origin == a.sources[target].origin,
        b.sources[target].ended == a.sources[target].ended,
        b.sources[target].turns == a.sources[target].turns,
        b.sources[target].terminate == a.sources[target].terminate,
        touched != Place::Left(target) ==> b.sources[target].left == a.sources[target].left,
        touched != Place::Right(target) ==> b.sources[target].right == a.sources[target].right,
        touched is History ==> touched == Place::History(target),
        !(touched is History) ==> a.sources[target].origin is Merge,
        a.place(entry) is Nowhere || a.place(entry) != touched,
        a.holds(s, entry, heard),
    ensures
        b.holds(s, entry, heard),
{
    match entry.reaction {
        Reaction::Mapped { f, target: m } => {
            if m != target {
                assert(b.sources[m] == a.sources[m]);
            }
        },
        Reaction::FilterSome { target: m } => {
            if m != target {
                assert(b.sources[m] == a.sources[m]);
            }
        },
        Reaction::Merge { left, target: m } => {
            if m != target {
                assert(b.sources[m] == a.sources[m]);
            }
        },
        Reaction::Switch { target: m } => {
            if m != target {
                assert(b.sources[m] == a.sources[m]);
            }
        },
        Reaction::Switched { target: m, token, from } => {
            if m != target {
                assert(b.sources[m] == a.sources[m]);
            }
        },
        Reaction::Snapshot { signal, f, target: m } => {
            if m != target {
                assert(b.sources[m] == a.sources[m]);
            }
        },
        _ => {},
    }
}

/// The callback hands an event over to the source `target`, which is about to
/// deliver it.
proof fn lemma_hand_over<T>(
    a: NetworkView<T>,
    progress: Progress,
    idle: Set<int>,
    id: int,
    k: int,
    n: int,
    v: Value<T>,
    target: int,
    w: Value<T>,
    b: NetworkView<T>,
)
    requires
        reacting(a, progress, idle, id, k, n, v),
        idle.contains(target),
        a.is_source(target),
        b == a.with_source(target, b.sources[target]),
        b.sources[target].history == a.sources[target].history.push(w),
        b.sources[target].shape == a.sources[target].shape,
        b.sources[target].origin == a.sources[target].origin,
        b.sources[target].callbacks == a.sources[target].callbacks,
        b.sources[target].turns == a.sources[target].turns,
        b.sources[target].terminate == a.sources[target].terminate,
        b.sources[target].ended == a.sources[target].ended,
        ({
            let place = a.place(a.sources[id].callbacks[k]);
            &&& place == Place::History(target) || place == Place::Left(target) || place
                == Place::Right(target)
            &&& place != Place::Left(target) ==> b.sources[target].left == a.sources[target].left
            &&& place != Place::Right(target) ==> b.sources[target].right
                == a.sources[target].right
            &&& !(place is History) ==> a.sources[target].origin is Merge
            &&& place is History ==> !(a.sources[target].origin is Merge)
        }),
        b.holds(id, a.sources[id].callbacks[k], a.heard(id, a.sources[id].callbacks[k], 0)),
        b.fed_source(target),
    ensures
        b.consistent_at(
            progress.insert(id, (k + 1, n)).insert(
                target,
                (0, b.sources[target].callbacks.len() as int),
            ),
        ),
{
    let before = progress.insert(id, (k, n));
    let count = b.sources[target].callbacks.len() as int;
    let after = progress.insert(id, (k + 1, n)).insert(target, (0, count));
    assert(b.sources.len() == a.sources.len());
    assert forall|s: int, i: int| b.is_callback(s, i) implies #[trigger] b.up_to_date(
        after,
        s,
        i,
    ) by {
        assert(a.is_callback(s, i));
        assert(a.up_to_date(before, s, i));
        assert(a.apart(s, i, id, k));
        assert(a.apart(id, k, s, i));
        assert(a.sound_source(s));
        let entry = a.sources[s].callbacks[i];
        assert(b.sources[s].callbacks[i] == entry);
        let heard = a.heard(s, entry, lag(before, s, i));
        if s == id && i == k {
            lemma_hears(a, progress, idle, id, k, n, v);
            assert(lag(after, s, i) == 0);
            assert(b.heard(s, entry, 0) == a.heard(s, entry, 0));
        } else {
            let touched = a.place(a.sources[id].callbacks[k]);
            lemma_holds_elsewhere(a, b, target, touched, s, entry, heard);
            if s == target {
                assert(lag(before, s, i) == 0);
                assert(lag(after, s, i) == 1);
                assert(b.heard(s, entry, 1) =~= heard);
            } else {
                assert(lag(after, s, i) == lag(before, s, i));
                assert(b.heard(s, entry, lag(after, s, i)) == heard);
            }
        }
    }
    lemma_place_same(a, b);
    assert forall|s: int, i: int, t: int, j: int|
        b.is_callback(s, i) && b.is_callback(t, j) implies #[trigger] b.apart(s, i, t, j) by {
        assert(a.apart(s, i, t, j));
        assert(b.sources[s].callbacks[i] == a.sources[s].callbacks[i]);
        assert(b.sources[t].callbacks[j] == a.sources[t].callbacks[j]);
    }
    assert forall|m: int| b.is_source(m) implies #[trigger] b.fed_source(m) by {
        assert(a.fed_source(m));
        if m != target {
            lemma_pushed_more(a.sources[target].history, w);
            lemma_fed_elsewhere(a, b, target, m);
        }
    }
    assert forall|c: int| b.is_cell(c) implies #[trigger] b.fed_cell(c) by {
        assert(a.fed_cell(c));
    }
    assert forall|q: int| b.is_queue(q) implies #[trigger] b.fed_queue(q) by {
        assert(a.fed_queue(q));
    }
}

/// What a switch has fired in turn stays so while all histories grow.
pub proof fn lemma_in_turn_stays<T>(a: NetworkView<T>, b: NetworkView<T>, m: int)
    requires
        a.is_source(m),
        a.in_turn(m),
        b.sources.len() >= a.sources.len(),
        b.sources[m].turns == a.sources[m].turns,
        forall|s: int|
            a.is_source(s) ==> a.sources[s].history.is_prefix_of((#[trigger] b.sources[s]).history),
    ensures
        b.in_turn(m),
{
    let turns = a.sources[m].turns;
    assert(a.sources[m].history.is_prefix_of(b.sources[m].history));
    assert forall|j: int| 0 <= j < turns.len() implies #[trigger] b.begun_turn(m, j) by {
        assert(a.begun_turn(m, j));
        let stream = turns[j].stream;
        assert(a.sources[stream].history.is_prefix_of(b.sources[stream].history));
    }
    assert forall|j: int| 0 <= j < turns.len() - 1 implies #[trigger] b.done_turn(m, j) by {
        assert(a.begun_turn(m, j) && a.begun_turn(m, j + 1));
        assert(a.done_turn(m, j));
        let turn = turns[j];
        let until = turns[j + 1].from;
        let stop = turn.since + until - turn.from;
        let x = a.sources[m].history;
        let y = b.sources[m].history;
        let p = a.sources[turn.stream].history;
        let q = b.sources[turn.stream].history;
        assert(p.is_prefix_of(q));
        assert(y.subrange(turn.from as int, until as int) =~= x.subrange(
            turn.from as int,
            until as int,
        ));
        assert(q.subrange(turn.since as int, stop) =~= p.subrange(turn.since as int, stop));
    }
}

/// A source is fed as before if no callback has been lost and its own state is
/// unchanged.
proof fn lemma_fed_elsewhere<T>(a: NetworkView<T>, b: NetworkView<T>, target: int, m: int)
    requires
        a.is_source(target),
        a.is_source(m),
        m != target,
        b == a.with_source(target, b.sources[target]),
        b.sources[target].callbacks == a.sources[target].callbacks,
        a.sources[target].history.is_prefix_of(b.sources[target].history),
        a.fed_source(m),
    ensures
        b.fed_source(m),
{
    assert(b.sources[m] == a.sources[m]);
    assert(forall|s: int| a.is_source(s) ==> (#[trigger] b.sources[s]).callbacks
        == a.sources[s].callbacks);
    if a.sources[m].origin is Switch && !a.sources[m].ended {
        lemma_prefixes(a, b, target);
        lemma_in_turn_stays(a, b, m);
    }
}

/// Where one history has grown, all have.
proof fn lemma_prefixes<T>(a: NetworkView<T>, b: NetworkView<T>, target: int)
    requires
        a.is_source(target),
        b == a.with_source(target, b.sources[target]),
        a.sources[target].history.is_prefix_of(b.sources[target].history),
    ensures
        forall|s: int|
            a.is_source(s) ==> a.sources[s].history.is_prefix_of((#[trigger] b.sources[s]).history),
{
    assert forall|s: int| a.is_source(s) implies a.sources[s].history.is_prefix_of(
        (#[trigger] b.sources[s]).history,
    ) by {
        if s != target {
            let x = a.sources[s].history;
            assert(x =~= x.subrange(0, x.len() as int));
        }
    }
}

/// Callbacks have their effects where they had them while nothing ends.
pub proof fn lemma_place_same<T>(a: NetworkView<T>, b: NetworkView<T>)
    requires
        a.sound(),
        a.same_ends(b),
        b.tokens == a.tokens,
        forall|q: int| a.is_queue(q) ==> (#[trigger] b.queues[q]).open == a.queues[q].open,
    ensures
        forall|s: int, i: int|
            a.is_callback(s, i) ==> b.place(#[trigger] a.sources[s].callbacks[i]) == a.place(
                a.sources[s].callbacks[i],
            ),
{
    assert forall|s: int, i: int| a.is_callback(s, i) implies b.place(
        #[trigger] a.sources[s].callbacks[i],
    ) == a.place(a.sources[s].callbacks[i]) by {
        assert(a.sound_source(s));
        assert(a.sound_entry(s, a.sources[s].callbacks[i]));
    }
}

/// The callback has its effect already.
proof fn lemma_stays<T>(
    a: NetworkView<T>,
    progress: Progress,
    idle: Set<int>,
    id: int,
    k: int,
    n: int,
    v: Value<T>,
)
    requires
        reacting(a, progress, idle, id, k, n, v),
        a.holds(id, a.sources[id].callbacks[k], a.heard(id, a.sources[id].callbacks[k], 0)),
    ensures
        a.consistent_at(progress.insert(id, (k + 1, n))),
{
    let before = progress.insert(id, (k, n));
    let after = progress.insert(id, (k + 1, n));
    assert forall|s: int, i: int| a.is_callback(s, i) implies #[trigger] a.up_to_date(
        after,
        s,
        i,
    ) by {
        assert(a.up_to_date(before, s, i));
        if s == id && i == k {
            assert(lag(after, s, i) == 0);
        } else {
            assert(lag(after, s, i) == lag(before, s, i));
        }
    }
}

/// The callback puts the event into its queue.
proof fn lemma_queued<T>(
    a: NetworkView<T>,
    progress: Progress,
    idle: Set<int>,
    id: int,
    k: int,
    n: int,
    v: Value<T>,
)
    requires
        reacting(a, progress, idle, id, k, n, v),
        a.sources[id].callbacks[k].reaction is Events,
    ensures
        a.enqueue(a.sources[id].callbacks[k].reaction->queue, v).consistent_at(
            progress.insert(id, (k + 1, n)),
        ),
{
    let entry = a.sources[id].callbacks[k];
    let queue = entry.reaction->queue;
    let before = progress.insert(id, (k, n));
    let after = progress.insert(id, (k + 1, n));
    let b = a.enqueue(queue, v);
    lemma_hears(a, progress, idle, id, k, n, v);
    assert forall|s: int, i: int| b.is_callback(s, i) implies #[trigger] b.up_to_date(
        after,
        s,
        i,
    ) by {
        assert(a.is_callback(s, i));
        assert(a.up_to_date(before, s, i));
        assert(a.apart(id, k, s, i));
        let other = a.sources[s].callbacks[i];
        assert(a.sound_source(s));
        assert(a.sound_entry(s, other));
        if s == id && i == k {
            assert(lag(after, s, i) == 0);
            assert(b.heard(s, entry, 0) == a.heard(s, entry, 0));
        } else {
            assert(lag(after, s, i) == lag(before, s, i));
            assert(b.heard(s, other, lag(after, s, i)) == a.heard(s, other, lag(before, s, i)));
        }
    }
    lemma_place_same(a, b);
    assert forall|s: int, i: int, t: int, j: int|
        b.is_callback(s, i) && b.is_callback(t, j) implies #[trigger] b.apart(s, i, t, j) by {
        assert(a.apart(s, i, t, j));
        assert(b.sources[s].callbacks[i] == a.sources[s].callbacks[i]);
        assert(b.sources[t].callbacks[j] == a.sources[t].callbacks[j]);
    }
    assert forall|m: int| b.is_source(m) implies #[trigger] b.fed_source(m) by {
        assert(a.fed_source(m));
        lemma_fed_same(a, b, m);
    }
    assert forall|c: int| b.is_cell(c) implies #[trigger] b.fed_cell(c) by {
        assert(a.fed_cell(c));
    }
    assert forall|q: int| b.is_queue(q) implies #[trigger] b.fed_queue(q) by {
        assert(a.fed_queue(q));
        if q == queue && a.queues[q].open {
            let taken = a.queues[q].received.len() - a.queues[q].waiting.len();
            assert(b.queues[q].waiting =~= b.queues[q].received.skip(taken));
        }
    }
}

/// A source is fed as before if nothing about the sources has changed.
proof fn lemma_fed_same<T>(a: NetworkView<T>, b: NetworkView<T>, m: int)
    requires
        a.is_source(m),
        a.fed_source(m),
        b.sources == a.sources,
        b.tokens == a.tokens,
        a.sound(),
        a.same_cells(b),
        a.same_ends(b),
        forall|k: int|
            a.is_cell(k) && a.cells[k].origin is Constant ==> (#[trigger] b.cells[k]).content
                == a.cells[k].content,
    ensures
        b.fed_source(m),
{
    match a.sources[m].origin {
        Origin::Switch { parent, since } => {
            if !a.sources[m].ended {
                assert forall|s: int| a.is_source(s) implies a.sources[s].history.is_prefix_of(
                    (#[trigger] b.sources[s]).history,
                ) by {
                    let x = a.sources[s].history;
                    assert(x =~= x.subrange(0, x.len() as int));
                }
                lemma_in_turn_stays(a, b, m);
            }
        },
        Origin::Snapshot { parent, since, signal, f } => {
            if !a.sources[m].ended {
                let reaction = Reaction::Snapshot { signal, f, target: m };
                assert(a.has(parent, reaction, since));
                assert(a.sound_source(parent));
                assert(a.sound_entry(parent, Entry { reaction, since }));
                assert(a.sound_cell(signal));
                assert(b.cells[signal].content is Held == a.cells[signal].content is Held);
                assert(b.resolve(signal) == a.resolve(signal));
                assert(b.cells[a.resolve(signal)].origin == a.cells[a.resolve(signal)].origin);
            }
        },
        _ => {},
    }
}

/// The callback changes its cell.
proof fn lemma_stored<T>(
    a: NetworkView<T>,
    progress: Progress,
    idle: Set<int>,
    id: int,
    k: int,
    n: int,
    v: Value<T>,
    cell: int,
    b: NetworkView<T>,
)
    requires
        reacting(a, progress, idle, id, k, n, v),
        a.is_cell(cell),
        a.cells[cell].content is Held,
        a.place(a.sources[id].callbacks[k]) == Place::Cell(cell),
        b == (NetworkView { cells: a.cells.update(cell, b.cells[cell]), ..a }),
        b.cells[cell].shape == a.cells[cell].shape,
        b.cells[cell].origin == a.cells[cell].origin,
        !(a.cells[cell].origin is Constant),
        b.cells[cell].content is Held,
        b.cells[cell].released == a.cells[cell].released,
        b.cells[cell].ended == a.cells[cell].ended,
        b.holds(id, a.sources[id].callbacks[k], a.heard(id, a.sources[id].callbacks[k], 0)),
    ensures
        b.consistent_at(progress.insert(id, (k + 1, n))),
{
    let entry = a.sources[id].callbacks[k];
    let before = progress.insert(id, (k, n));
    let after = progress.insert(id, (k + 1, n));
    lemma_hears(a, progress, idle, id, k, n, v);
    assert(a.same_cells(b));
    assert forall|s: int, i: int| b.is_callback(s, i) implies #[trigger] b.up_to_date(
        after,
        s,
        i,
    ) by {
        assert(a.is_callback(s, i));
        assert(a.up_to_date(before, s, i));
        assert(a.apart(id, k, s, i));
        let other = a.sources[s].callbacks[i];
        assert(a.sound_source(s));
        assert(a.sound_entry(s, other));
        if s == id && i == k {
            assert(lag(after, s, i) == 0);
            assert(b.heard(s, entry, 0) == a.heard(s, entry, 0));
        } else {
            assert(lag(after, s, i) == lag(before, s, i));
            assert(b.heard(s, other, lag(after, s, i)) == a.heard(s, other, lag(before, s, i)));
        }
    }
    lemma_place_same(a, b);
    assert forall|s: int, i: int, t: int, j: int|
        b.is_callback(s, i) && b.is_callback(t, j) implies #[trigger] b.apart(s, i, t, j) by {
        assert(a.apart(s, i, t, j));
        assert(b.sources[s].callbacks[i] == a.sources[s].callbacks[i]);
        assert(b.sources[t].callbacks[j] == a.sources[t].callbacks[j]);
    }
    assert forall|m: int| b.is_source(m) implies #[trigger] b.fed_source(m) by {
        assert(a.fed_source(m));
        lemma_fed_same(a, b, m);
    }
    assert forall|c: int| b.is_cell(c) implies #[trigger] b.fed_cell(c) by {
        assert(a.fed_cell(c));
    }
    assert forall|q: int| b.is_queue(q) implies #[trigger] b.fed_queue(q) by {
        assert(a.fed_queue(q));
    }
}

/// The callbacks that have disappeared are not missed.
proof fn lemma_pruned<T>(a: NetworkView<T>, progress: Progress, id: int)
    requires
        a.sound(),
        a.consistent_at(progress),
        a.is_source(id),
        !progress.dom().contains(id),
    ensures
        a.prune(id).consistent_at(progress),
{
    let b = a.prune(id);
    let keep = |e: Entry<T>| !a.disappeared(e);
    let entries = a.sources[id].callbacks;
    let kept = entries.filter(keep);
    let fired = a.sources[id].history;
    assert(fired =~= fired.subrange(0, fired.len() as int));
    assert forall|i: int| 0 <= i < kept.len() implies exists|j: int|
        0 <= j < entries.len() && entries[j] == #[trigger] kept[i] by {
        assert(kept.contains(kept[i]));
        entries.lemma_filter_contains_rev(keep, kept[i]);
    }
    assert forall|s: int, i: int| b.is_callback(s, i) implies #[trigger] b.up_to_date(
        progress,
        s,
        i,
    ) by {
        assert(a.sound_source(s));
        if s == id {
            let j = choose|j: int| 0 <= j < entries.len() && entries[j] == kept[i];
            assert(a.is_callback(id, j));
            assert(a.up_to_date(progress, id, j));
            assert(b.heard(s, kept[i], 0) == a.heard(s, entries[j], 0));
            lemma_holds_same(a, b, s, entries[j], a.heard(s, entries[j], 0));
        } else {
            assert(a.is_callback(s, i));
            assert(a.up_to_date(progress, s, i));
            let entry = a.sources[s].callbacks[i];
            assert(b.sources[s] == a.sources[s]);
            lemma_holds_same(a, b, s, entry, a.heard(s, entry, lag(progress, s, i)));
        }
    }
    let rel = |x: Entry<T>, y: Entry<T>| a.place(x) is Nowhere || a.place(x) != a.place(y);
    assert forall|i: int, j: int| 0 <= i < j < entries.len() implies #[trigger] rel(
        entries[i],
        entries[j],
    ) by {
        assert(a.is_callback(id, i) && a.is_callback(id, j));
        assert(a.apart(id, i, id, j));
    }
    lemma_filter_pairs(entries, keep, rel);
    lemma_place_same(a, b);
    assert forall|s: int, i: int, t: int, j: int|
        b.is_callback(s, i) && b.is_callback(t, j) implies #[trigger] b.apart(s, i, t, j) by {
        let x = b.sources[s].callbacks[i];
        let y = b.sources[t].callbacks[j];
        if s == id && t == id {
            let i0 = choose|i0: int| 0 <= i0 < entries.len() && entries[i0] == kept[i];
            let j0 = choose|j0: int| 0 <= j0 < entries.len() && entries[j0] == kept[j];
            assert(a.is_callback(id, i0) && a.is_callback(id, j0));
            assert(b.place(entries[i0]) == a.place(entries[i0]));
            assert(b.place(entries[j0]) == a.place(entries[j0]));
            if i < j {
                assert(rel(kept[i], kept[j]));
            } else if j < i {
                assert(rel(kept[j], kept[i]));
            }
        } else {
            let i0 = if s == id {
                choose|i0: int| 0 <= i0 < entries.len() && entries[i0] == kept[i]
            } else {
                i
            };
            let j0 = if t == id {
                choose|j0: int| 0 <= j0 < entries.len() && entries[j0] == kept[j]
            } else {
                j
            };
            assert(a.is_callback(s, i0) && a.is_callback(t, j0));
            assert(a.apart(s, i0, t, j0));
            assert(a.sources[s].callbacks[i0] == x && a.sources[t].callbacks[j0] == y);
        }
    }
    assert forall|s: int, reaction: Reaction<T>, since: nat|
        #![trigger a.has(s, reaction, since)]
        a.has(s, reaction, since) && !a.disappeared(Entry { reaction, since }) implies b.has(
        s,
        reaction,
        since,
    ) by {
        if s == id {
            let entry = Entry { reaction, since };
            let j = choose|j: int| 0 <= j < entries.len() && entries[j] == entry;
            entries.lemma_filter_contains(keep, j);
        }
    }
    assert forall|m: int| b.is_source(m) implies #[trigger] b.fed_source(m) by {
        assert(a.fed_source(m));
        match a.sources[m].origin {
            Origin::Switch { parent, since } => {
                if !a.sources[m].ended {
                    assert(a.has(parent, Reaction::Switch { target: m }, since));
                    lemma_prefixes(a, b, id);
                    lemma_in_turn_stays(a, b, m);
                    assert(b.sources[m].turns == a.sources[m].turns);
                    assert(a.sources[m].turns.len() > 0 ==> b.follows(m));
                }
            },
            Origin::Snapshot { parent, since, signal, f } => {
                if !a.sources[m].ended {
                    assert(a.has(parent, Reaction::Snapshot { signal, f, target: m }, since));
                }
            },
            _ => {},
        }
    }
    assert forall|c: int| b.is_cell(c) implies #[trigger] b.fed_cell(c) by {
        assert(a.fed_cell(c));
    }
    assert forall|q: int| b.is_queue(q) implies #[trigger] b.fed_queue(q) by {
        assert(a.fed_queue(q));
    }
}

/// The effect of a callback does not depend on which callbacks there are.
proof fn lemma_holds_same<T>(
    a: NetworkView<T>,
    b: NetworkView<T>,
    s: int,
    entry: Entry<T>,
    heard: Seq<Value<T>>,
)
    requires
        a.holds(s, entry, heard),
        a.sound_entry(s, entry),
        b.sources.len() == a.sources.len(),
        forall|m: int|
            a.is_source(m) ==> b.sources[m] == (SourceView {
                callbacks: b.sources[m].callbacks,
                ..#[trigger] a.sources[m]
            }),
        b.cells == a.cells,
        b.queues == a.queues,
        b.tokens == a.tokens,
    ensures
        b.holds(s, entry, heard),
{
    match entry.reaction {
        Reaction::Mapped { f, target } => {
            assert(a.is_source(target));
        },
        Reaction::FilterSome { target } => {
            assert(a.is_source(target));
        },
        Reaction::Merge { left, target } => {
            assert(a.is_source(target));
        },
        Reaction::Switch { target } => {
            assert(a.is_source(target));
        },
        Reaction::Switched { target, token, from } => {
            assert(a.is_source(target));
        },
        Reaction::Snapshot { signal, f, target } => {
            assert(a.is_source(target));
            let x = b.sources[target];
            let y = a.sources[target];
            assert(x.history == y.history && x.causes == y.causes && x.origin == y.origin);
        },
        _ => {},
    }
}

/// The callback makes its switch follow another stream.
proof fn lemma_rewired<T>(
    a: NetworkView<T>,
    progress: Progress,
    idle: Set<int>,
    id: int,
    k: int,
    n: int,
    v: Value<T>,
    target: int,
)
    requires
        reacting(a, progress, idle, id, k, n, v),
        a.sources[id].callbacks[k].reaction == (Reaction::<T>::Switch { target }),
        !a.disappeared(a.sources[id].callbacks[k]),
        !a.rewire(idle, target, v).poisoned,
    ensures
        a.rewire(idle, target, v).consistent_at(progress.insert(id, (k + 1, n))),
{
    lemma_hears(a, progress, idle, id, k, n, v);
    let before = progress.insert(id, (k, n));
    let after = progress.insert(id, (k + 1, n));
    let b = a.rewire(idle, target, v);
    let new = v->Stream_1 as int;
    let token = a.tokens.len() as int;
    let from = a.sources[target].history.len();
    let added = Entry {
        reaction: Reaction::Switched { target, token, from },
        since: a.sources[new].history.len(),
    };
    assert(a.sound_source(target));
    assert(b.sources.len() == a.sources.len());
    let turn = Turn { stream: new, from, since: added.since };
    let turns = a.sources[target].turns;
    assert(b.sources[target].turns == turns.push(turn));
    assert(b.sources[target].terminate == Some(token));
    assert(b.sources[new].callbacks == a.sources[new].callbacks.push(added));
    assert forall|s: int| a.is_source(s) implies ({
        &&& (#[trigger] b.sources[s]).history == a.sources[s].history
        &&& b.sources[s].shape == a.sources[s].shape
        &&& b.sources[s].origin == a.sources[s].origin
        &&& b.sources[s].left == a.sources[s].left
        &&& b.sources[s].right == a.sources[s].right
        &&& b.sources[s].causes == a.sources[s].causes
        &&& b.sources[s].sides == a.sources[s].sides
        &&& b.sources[s].ended == a.sources[s].ended
        &&& s != target ==> b.sources[s].turns == a.sources[s].turns
        &&& s != target ==> b.sources[s].terminate == a.sources[s].terminate
        &&& s != new ==> b.sources[s].callbacks == a.sources[s].callbacks
    }) by {}
    // A token that is held was held before, or is the new one.
    assert forall|t: int| 0 <= t < a.tokens.len() implies (#[trigger] b.tokens[t] == (a.tokens[t]
        && a.sources[target].terminate != Some(t))) by {}
    assert(b.tokens[token]);
    assert forall|s: int, i: int| b.is_callback(s, i) implies #[trigger] b.up_to_date(
        after,
        s,
        i,
    ) by {
        if s == new && i == a.sources[new].callbacks.len() {
            assert(lag(after, s, i) == 0);
            assert(b.heard(s, added, 0) =~= Seq::empty());
            assert(b.sources[target].history.skip(from as int) =~= Seq::empty());
            let own = a.sources[id].callbacks[k];
            assert(a.holds(id, own, a.heard(id, own, 1)));
        } else {
            assert(a.is_callback(s, i));
            assert(a.up_to_date(before, s, i));
            assert(a.apart(id, k, s, i));
            assert(a.sound_source(s));
            let entry = a.sources[s].callbacks[i];
            assert(b.sources[s].callbacks[i] == entry);
            assert(a.sound_entry(s, entry));
            if s == id && i == k {
                assert(lag(after, s, i) == 0);
                assert(b.heard(s, entry, 0) == a.heard(s, entry, 0));
                let heard = a.heard(s, entry, 0);
                assert forall|j: int| 0 <= j < heard.len() implies hands_over(
                    heard[j],
                    #[trigger] b.sources[target].turns[j],
                ) by {
                    if j < turns.len() {
                        assert(b.sources[target].turns[j] == turns[j]);
                        assert(heard[j] == a.heard(id, entry, 1)[j]);
                    }
                }
            } else {
                assert(lag(after, s, i) == lag(before, s, i));
                let heard = a.heard(s, entry, lag(before, s, i));
                assert(b.heard(s, entry, lag(after, s, i)) == heard);
                lemma_holds_rewired(a, b, target, token, s, entry, heard);
            }
        }
    }
    assert forall|s: int, i: int, t: int, j: int|
        b.is_callback(s, i) && b.is_callback(t, j) implies #[trigger] b.apart(s, i, t, j) by {
        let x = b.sources[s].callbacks[i];
        let y = b.sources[t].callbacks[j];
        let x_added = s == new && i == a.sources[new].callbacks.len();
        let y_added = t == new && j == a.sources[new].callbacks.len();
        if !x_added {
            assert(a.is_callback(s, i) && a.sources[s].callbacks[i] == x);
            lemma_place_rewired(a, b, before, target, token, s, i);
        }
        if !y_added {
            assert(a.is_callback(t, j) && a.sources[t].callbacks[j] == y);
            lemma_place_rewired(a, b, before, target, token, t, j);
        }
        if !x_added && !y_added {
            assert(a.apart(s, i, t, j));
        }
    }
    assert forall|s: int, reaction: Reaction<T>, since: nat|
        #![trigger a.has(s, reaction, since)]
        a.has(s, reaction, since) implies b.has(s, reaction, since) by {
        let entry = Entry { reaction, since };
        let j = choose|j: int|
            0 <= j < a.sources[s].callbacks.len() && a.sources[s].callbacks[j] == entry;
        assert(b.sources[s].callbacks[j] == entry);
    }
    assert forall|m: int| b.is_source(m) implies #[trigger] b.fed_source(m) by {
        assert(a.fed_source(m));
        match a.sources[m].origin {
            Origin::Switch { parent, since } => {
                assert(a.sources[m].ended || a.has(parent, Reaction::Switch { target: m }, since));
                assert forall|s: int| a.is_source(s) implies a.sources[s].history.is_prefix_of(
                    (#[trigger] b.sources[s]).history,
                ) by {
                    let x = a.sources[s].history;
                    assert(x =~= x.subrange(0, x.len() as int));
                }
                if m == target {
                    assert(b.sources[new].callbacks.last() == added);
                    assert(b.sources[new].callbacks.contains(added));
                    assert(b.has(new, Reaction::Switched { target: m, token, from }, added.since));
                    if turns.len() > 0 {
                        lemma_turn_done(a, before, target);
                    }
                    lemma_next_turn(a, b, target, turn);
                } else if !a.sources[m].ended {
                    assert(b.sources[m].turns == a.sources[m].turns);
                    lemma_in_turn_stays(a, b, m);
                    if a.sources[m].turns.len() > 0 {
                        assert(a.follows(m));
                        assert(a.sound_source(m));
                        assert(a.sources[m].terminate != a.sources[target].terminate);
                        assert(b.tokens[a.sources[m].terminate->0]);
                    }
                }
            },
            Origin::Snapshot { parent, since, signal, f } => {
                assert(a.sources[m].ended || a.has(
                    parent,
                    Reaction::Snapshot { signal, f, target: m },
                    since,
                ));
            },
            _ => {},
        }
    }
    assert forall|c: int| b.is_cell(c) implies #[trigger] b.fed_cell(c) by {
        assert(a.fed_cell(c));
    }
    assert forall|q: int| b.is_queue(q) implies #[trigger] b.fed_queue(q) by {
        assert(a.fed_queue(q));
    }
    assert forall|m: int, o: int|
        b.is_source(m) && b.is_source(o) && m != o && (#[trigger] b.sources[m]).terminate
            is Some implies b.sources[m].terminate != (#[trigger] b.sources[o]).terminate by {
        assert(a.sound_source(m) && a.sound_source(o));
        assert(a.sources[m].terminate is Some && a.sources[o].terminate is Some
            ==> a.sources[m].terminate != a.sources[o].terminate);
    }
}

/// What a switch fired since it was handed the stream that it follows.
proof fn lemma_turn_done<T>(a: NetworkView<T>, progress: Progress, m: int)
    requires
        a.is_source(m),
        a.all_up_to_date(progress),
        a.sources[m].origin is Switch,
        !a.sources[m].ended,
        a.fed_source(m),
        a.sources[m].turns.len() > 0,
    ensures
        ({
            let turn = a.sources[m].turns.last();
            let count = a.sources[m].history.len() - turn.from;
            let fired = a.sources[turn.stream].history;
            &&& count >= 0
            &&& turn.since + count <= fired.len()
            &&& a.sources[m].history.skip(turn.from as int) == fired.subrange(
                turn.since as int,
                turn.since + count,
            )
        }),
{
    let turn = a.sources[m].turns.last();
    assert(a.follows(m));
    let token = a.sources[m].terminate->0;
    let entry = Entry {
        reaction: Reaction::<T>::Switched { target: m, token, from: turn.from },
        since: turn.since,
    };
    let callbacks = a.sources[turn.stream].callbacks;
    let i = choose|i: int| 0 <= i < callbacks.len() && callbacks[i] == entry;
    assert(a.is_callback(turn.stream, i));
    assert(a.up_to_date(progress, turn.stream, i));
}

/// The switch `m` is handed another stream.
proof fn lemma_next_turn<T>(a: NetworkView<T>, b: NetworkView<T>, m: int, turn: Turn)
    requires
        a.is_source(m),
        a.in_turn(m),
        b.sources.len() == a.sources.len(),
        b.sources[m].turns == a.sources[m].turns.push(turn),
        forall|s: int|
            a.is_source(s) ==> (#[trigger] b.sources[s]).history == a.sources[s].history,
        a.is_source(turn.stream),
        turn.since == a.sources[turn.stream].history.len(),
        turn.from == a.sources[m].history.len(),
        a.sources[m].turns.len() == 0 ==> turn.from == 0,
        a.sources[m].turns.len() > 0 ==> {
            let last = a.sources[m].turns.last();
            let count = a.sources[m].history.len() - last.from;
            let fired = a.sources[last.stream].history;
            &&& count >= 0
            &&& last.since + count <= fired.len()
            &&& a.sources[m].history.skip(last.from as int) == fired.subrange(
                last.since as int,
                last.since + count,
            )
        },
    ensures
        b.in_turn(m),
{
    let turns = a.sources[m].turns;
    let more = b.sources[m].turns;
    assert forall|j: int| 0 <= j < more.len() implies #[trigger] b.begun_turn(m, j) by {
        if j < turns.len() {
            assert(a.begun_turn(m, j));
            assert(more[j] == turns[j]);
        }
    }
    assert forall|j: int| 0 <= j < more.len() - 1 implies #[trigger] b.done_turn(m, j) by {
        assert(a.begun_turn(m, j));
        assert(more[j] == turns[j]);
        if j < turns.len() - 1 {
            assert(more[j + 1] == turns[j + 1]);
            assert(a.done_turn(m, j));
        } else {
            let x = a.sources[m].history;
            let from = turns[j].from as int;
            assert(x.skip(from) =~= x.subrange(from, x.len() as int));
        }
    }
}

/// The other callbacks do not notice that the switch `target` follows another
/// stream; the one that it followed so far is void.
proof fn lemma_holds_rewired<T>(
    a: NetworkView<T>,
    b: NetworkView<T>,
    target: int,
    token: int,
    s: int,
    entry: Entry<T>,
    heard: Seq<Value<T>>,
)
    requires
        a.is_source(target),
        a.sound_entry(s, entry),
        a.holds(s, entry, heard),
        a.place(entry) is Nowhere || a.place(entry) != Place::Current(target),
        b.sources.len() == a.sources.len(),
        b.cells == a.cells,
        b.queues == a.queues,
        forall|m: int|
            a.is_source(m) ==> {
                &&& (#[trigger] b.sources[m]).history == a.sources[m].history
                &&& b.sources[m].origin == a.sources[m].origin
                &&& b.sources[m].left == a.sources[m].left
                &&& b.sources[m].right == a.sources[m].right
                &&& b.sources[m].causes == a.sources[m].causes
                &&& b.sources[m].ended == a.sources[m].ended
                &&& m != target ==> b.sources[m].turns == a.sources[m].turns
                &&& m != target ==> b.sources[m].terminate == a.sources[m].terminate
            },
        forall|t: int|
            0 <= t < a.tokens.len() ==> (#[trigger] b.tokens[t] == (a.tokens[t]
                && a.sources[target].terminate != Some(t))),
    ensures
        b.holds(s, entry, heard),
{
    match entry.reaction {
        Reaction::Mapped { f, target: m } => {
            assert(b.sources[m].history == a.sources[m].history);
        },
        Reaction::FilterSome { target: m } => {
            assert(b.sources[m].history == a.sources[m].history);
        },
        Reaction::Merge { left, target: m } => {
            assert(b.sources[m].history == a.sources[m].history);
        },
        Reaction::Switch { target: m } => {
            assert(b.sources[m].history == a.sources[m].history);
        },
        Reaction::Switched { target: m, token: t, from } => {
            assert(b.sources[m].history == a.sources[m].history);
            assert(b.tokens[t] ==> a.tokens[t]);
        },
        Reaction::Snapshot { signal, f, target: m } => {
            assert(b.sources[m].history == a.sources[m].history);
        },
        _ => {},
    }
}

/// No callback that was there before has its effect on the history of the
/// switch `target` any more; the places of all others are as before.
proof fn lemma_place_rewired<T>(
    a: NetworkView<T>,
    b: NetworkView<T>,
    progress: Progress,
    target: int,
    token: int,
    s: int,
    i: int,
)
    requires
        a.is_source(target),
        a.sound(),
        a.all_up_to_date(progress),
        a.is_callback(s, i),
        a.sources[target].origin is Switch,
        b.queues == a.queues,
        b.cells == a.cells,
        forall|m: int|
            a.is_source(m) ==> (#[trigger] b.sources[m]).ended == a.sources[m].ended,
        forall|t: int|
            0 <= t < a.tokens.len() ==> (#[trigger] b.tokens[t] == (a.tokens[t]
                && a.sources[target].terminate != Some(t))),
    ensures
        ({
            let entry = a.sources[s].callbacks[i];
            &&& b.place(entry) is Nowhere || b.place(entry) == a.place(entry)
            &&& b.place(entry) != Place::History(target)
        }),
{
    let entry = a.sources[s].callbacks[i];
    assert(a.up_to_date(progress, s, i));
    assert(a.sound_source(s));
    assert(a.sound_entry(s, entry));
    if let Reaction::Switched { target: m, token: t, from } = entry.reaction {
        assert(b.tokens[t] ==> a.tokens[t]);
    }
}

// ---- Firing ----

/// Firing keeps a network consistent, unless it poisons it.
pub proof fn lemma_fire_consistent<T>(
    a: NetworkView<T>,
    all: Seq<Value<T>>,
    progress: Progress,
    idle: Set<int>,
    id: int,
    v: Value<T>,
    cause: Value<T>,
)
    requires
        a.sound(),
        a.is_source(id),
        v.fits(a.sources[id].shape),
        idle.finite(),
        forall|s: int| idle.contains(s) ==> !progress.dom().contains(s),
        !a.fire(all, idle, id, v, cause).poisoned,
        !a.fire(all, idle, id, v, cause).astray,
        !a.fire(all, idle, id, v, cause).overstepped,
        a.record(id, v, cause).consistent_at(
            progress.insert(id, (0, a.sources[id].callbacks.len() as int)),
        ),
    ensures
        a.fire(all, idle, id, v, cause).consistent_at(progress),
    decreases idle.len(), 0int, 0int,
{
    assert(idle.contains(id));
    let b = a.record(id, v, cause);
    let rest = idle.remove(id);
    let count = b.sources[id].callbacks.len();
    let c = b.deliver(all, rest, id, v, count);
    lemma_record_sound(a, id, v, cause);
    lemma_deliver_sound(b, all, rest, id, v, count);
    lemma_deliver_consistent(b, all, progress, rest, id, v, count, count as int);
    let done = progress.insert(id, (count as int, count as int));
    assert forall|s: int, i: int| c.is_callback(s, i) implies #[trigger] c.up_to_date(
        progress,
        s,
        i,
    ) by {
        assert(c.up_to_date(done, s, i));
        assert(lag(done, s, i) == lag(progress, s, i));
    }
    assert(c.consistent_at(progress));
    lemma_pruned(c, progress, id);
}

/// Delivering an event keeps a network consistent, unless it poisons it.
proof fn lemma_deliver_consistent<T>(
    a: NetworkView<T>,
    all: Seq<Value<T>>,
    progress: Progress,
    idle: Set<int>,
    id: int,
    v: Value<T>,
    count: nat,
    n: int,
)
    requires
        a.sound(),
        a.is_source(id),
        v.fits(a.sources[id].shape),
        idle.finite(),
        !idle.contains(id),
        forall|s: int| idle.contains(s) ==> !progress.dom().contains(s),
        count <= n <= a.sources[id].callbacks.len(),
        a.sources[id].history.len() > 0,
        a.sources[id].history.last() == v,
        !a.deliver(all, idle, id, v, count).poisoned,
        !a.deliver(all, idle, id, v, count).astray,
        !a.deliver(all, idle, id, v, count).overstepped,
        a.consistent_at(progress.insert(id, (0, n))),
    ensures
        a.deliver(all, idle, id, v, count).consistent_at(progress.insert(id, (count as int, n))),
    decreases idle.len(), 2int, count,
{
    if count > 0 {
        let less = (count - 1) as nat;
        let b = a.deliver(all, idle, id, v, less);
        lemma_deliver_sound(a, all, idle, id, v, less);
        assert(b.sound_source(id));
        assert(b.sources[id].history == a.sources[id].history);
        assert(a.sources[id].callbacks.is_prefix_of(b.sources[id].callbacks));
        let entry = b.sources[id].callbacks[less as int];
        assert(a.deliver(all, idle, id, v, count) == b.answer_to(all, idle, entry, v));
        if b.disappeared(entry) {
            lemma_deliver_consistent(a, all, progress, idle, id, v, less, n);
            lemma_stays(b, progress, idle, id, less as int, n, v);
        } else {
            lemma_react_sound(b, all, idle, id, entry, v);
            lemma_deliver_consistent(a, all, progress, idle, id, v, less, n);
            lemma_react_consistent(b, all, progress, idle, id, less as int, n, v);
        }
    }
}

/// A reaction keeps a network consistent, unless it poisons it.
proof fn lemma_react_consistent<T>(
    a: NetworkView<T>,
    all: Seq<Value<T>>,
    progress: Progress,
    idle: Set<int>,
    id: int,
    k: int,
    n: int,
    v: Value<T>,
)
    requires
        reacting(a, progress, idle, id, k, n, v),
        !a.react(all, idle, a.sources[id].callbacks[k].reaction, v).poisoned,
        !a.react(all, idle, a.sources[id].callbacks[k].reaction, v).astray,
        !a.react(all, idle, a.sources[id].callbacks[k].reaction, v).overstepped,
        !a.disappeared(a.sources[id].callbacks[k]),
    ensures
        a.react(all, idle, a.sources[id].callbacks[k].reaction, v).consistent_at(
            progress.insert(id, (k + 1, n)),
        ),
    decreases idle.len(), 1int, 0int,
{
    let entry = a.sources[id].callbacks[k];
    let heard = a.heard(id, entry, 1);
    let after = progress.insert(id, (k + 1, n));
    lemma_hears(a, progress, idle, id, k, n, v);
    match entry.reaction {
        Reaction::Mapped { f, target } => {
            let w = a.answer(all)->0;
            let c = a.take(w);
            let b = c.record(target, w, v);
            lemma_taken(a, c, progress, idle, id, k, n, v);
            assert(c.fed_source(target));
            assert(b.holds(id, entry, heard.push(v))) by {
                assert forall|j: int| 0 <= j < heard.push(v).len() implies (f.promise)(
                    heard.push(v)[j],
                    #[trigger] b.sources[target].history[j],
                ) by {
                    if j < heard.len() {
                        assert(b.sources[target].history[j] == a.sources[target].history[j]);
                    }
                }
            }
            lemma_hand_over(c, progress, idle, id, k, n, v, target, w, b);
            lemma_fire_consistent(c, all, after, idle, target, w, v);
        },
        Reaction::FilterSome { target } => {
            lemma_heard_more(unwrapping(), heard, v);
            match v.contained() {
                Some(w) => {
                    assert(a.fed_source(target));
                    lemma_hand_over(
                        a,
                        progress,
                        idle,
                        id,
                        k,
                        n,
                        v,
                        target,
                        w,
                        a.record(target, w, v),
                    );
                    lemma_fire_consistent(a, all, after, idle, target, w, v);
                },
                None => {
                    lemma_stays(a, progress, idle, id, k, n, v);
                },
            }
        },
        Reaction::Merge { left, target } => {
            let h = a.hear(target, left, v);
            let b = h.record(target, v, v);
            assert(a.fed_source(target));
            let source = a.sources[target];
            lemma_woven_more(source.history, source.sides, source.left, source.right, v);
            assert(b.sources =~= a.with_source(target, b.sources[target]).sources);
            assert(b.fed_source(target)) by {
                assert(forall|s: int| a.is_source(s) ==> (#[trigger] b.sources[s]).callbacks
                    == a.sources[s].callbacks);
            }
            lemma_hand_over(a, progress, idle, id, k, n, v, target, v, b);
            lemma_hear_sound(a, target, left, v);
            lemma_fire_consistent(h, all, after, idle, target, v, v);
        },
        Reaction::Switch { target } => {
            lemma_rewired(a, progress, idle, id, k, n, v, target);
        },
        Reaction::Switched { target, token, from } => {
            let b = a.record(target, v, v);
            assert(a.fed_source(target));
            assert(b.sources[target].history.skip(from as int) =~= heard.push(v));
            assert(b.fed_source(target)) by {
                lemma_pushed_more(a.sources[target].history, v);
                lemma_fed_switch(a, b, target);
            }
            lemma_hand_over(a, progress, idle, id, k, n, v, target, v, b);
            lemma_fire_consistent(a, all, after, idle, target, v, v);
        },
        Reaction::Snapshot { signal, f, target } => {
            let x = a.answer(all)->0;
            let w = a.take(x).answer(all)->0;
            let c = a.take(x).take(w);
            let b = c.record(target, w, both(x, v));
            lemma_can_be_fits(a, signal, x);
            assert(a.returned =~= c.returned.subrange(0, a.returned.len() as int));
            lemma_taken(a, c, progress, idle, id, k, n, v);
            assert(c.fed_source(target));
            lemma_same_can_be(a, c, signal, x);
            lemma_own_sample(c, progress, idle, id, k, n, v, target, x, w);
            assert(b.fed_source(target)) by {
                assert(forall|s: int| c.is_source(s) ==> (#[trigger] b.sources[s]).callbacks
                    == c.sources[s].callbacks);
            }
            lemma_hand_over(c, progress, idle, id, k, n, v, target, w, b);
            lemma_fire_consistent(c, all, after, idle, target, w, both(x, v));
        },
        Reaction::Events { queue } => {
            lemma_queued(a, progress, idle, id, k, n, v);
        },
        Reaction::Hold { cell } => {
            lemma_stored(a, progress, idle, id, k, n, v, cell, a.store(cell, v));
        },
        Reaction::ScanMut { cell, f } => {
            assert(a.sound_cell(cell));
            let initial = a.cells[cell].origin->ScanMut_initial;
            let x = a.cells[cell].content->Held_0;
            let w = a.answer(all)->0;
            let c = a.take(w);
            let b = c.update(cell, x, v, w);
            let more = heard.push(v);
            lemma_pushed_more(a.returned, w);
            lemma_taken(a, c, progress, idle, id, k, n, v);
            assert(b.holds(id, entry, more)) by {
                let updates = a.cells[cell].updates;
                assert forall|j: int| 0 <= j < more.len() implies #[trigger] is_update(
                    f,
                    initial,
                    b.cells[cell].updates,
                    more,
                    j,
                ) by {
                    if j < heard.len() {
                        assert(is_update(f, initial, updates, heard, j));
                    }
                }
            }
            lemma_stored(c, progress, idle, id, k, n, v, cell, b);
        },
    }
}

proof fn lemma_pushed_more<X>(x: Seq<X>, y: X)
    ensures
        x.is_prefix_of(x.push(y)),
{
    assert(x =~= x.push(y).subrange(0, x.len() as int));
}

/// What has been returned plays no part in consistency.
proof fn lemma_taken<T>(
    a: NetworkView<T>,
    c: NetworkView<T>,
    progress: Progress,
    idle: Set<int>,
    id: int,
    k: int,
    n: int,
    v: Value<T>,
)
    requires
        reacting(a, progress, idle, id, k, n, v),
        c == (NetworkView { returned: c.returned, ..a }),
        a.returned.is_prefix_of(c.returned),
    ensures
        reacting(c, progress, idle, id, k, n, v),
        forall|entry: Entry<T>, heard: Seq<Value<T>>|
            a.sound_entry(id, entry) && a.holds(id, entry, heard) ==> #[trigger] c.holds(
                id,
                entry,
                heard,
            ),
{
    let before = progress.insert(id, (k, n));
    lemma_same_sound(a, c, idle);
    assert forall|entry: Entry<T>, heard: Seq<Value<T>>|
        a.sound_entry(id, entry) && a.holds(id, entry, heard) implies #[trigger] c.holds(
        id,
        entry,
        heard,
    ) by {
        lemma_holds_same(a, c, id, entry, heard);
    }
    assert forall|s: int, i: int| c.is_callback(s, i) implies #[trigger] c.up_to_date(
        before,
        s,
        i,
    ) by {
        assert(a.up_to_date(before, s, i));
        let entry = a.sources[s].callbacks[i];
        assert(a.sound_source(s));
        lemma_holds_same(a, c, s, entry, a.heard(s, entry, lag(before, s, i)));
    }
    assert forall|s: int, i: int, t: int, j: int|
        c.is_callback(s, i) && c.is_callback(t, j) implies #[trigger] c.apart(s, i, t, j) by {
        assert(a.apart(s, i, t, j));
    }
    assert forall|m: int| c.is_source(m) implies #[trigger] c.fed_source(m) by {
        assert(a.fed_source(m));
        lemma_fed_same(a, c, m);
    }
    assert forall|q: int| c.is_queue(q) implies #[trigger] c.fed_queue(q) by {
        assert(a.fed_queue(q));
    }
    assert forall|d: int| c.is_cell(d) implies #[trigger] c.fed_cell(d) by {
        assert(a.fed_cell(d));
    }
}

/// A switch that fires is still fed as before.
proof fn lemma_fed_switch<T>(a: NetworkView<T>, b: NetworkView<T>, m: int)
    requires
        a.is_source(m),
        a.fed_source(m),
        a.sources[m].origin is Switch,
        a.sources[m].turns.len() > 0,
        b == a.with_source(m, b.sources[m]),
        b.sources[m].callbacks == a.sources[m].callbacks,
        b.sources[m].origin == a.sources[m].origin,
        b.sources[m].turns == a.sources[m].turns,
        b.sources[m].terminate == a.sources[m].terminate,
        b.sources[m].ended == a.sources[m].ended,
        a.sources[m].history.is_prefix_of(b.sources[m].history),
    ensures
        b.fed_source(m),
{
    assert(forall|s: int| a.is_source(s) ==> (#[trigger] b.sources[s]).callbacks
        == a.sources[s].callbacks);
    if !a.sources[m].ended {
        lemma_prefixes(a, b, m);
        lemma_in_turn_stays(a, b, m);
    }
}

/// A snapshot of the signal that holds its own events finds the last of them.
proof fn lemma_own_sample<T>(
    a: NetworkView<T>,
    progress: Progress,
    idle: Set<int>,
    id: int,
    k: int,
    n: int,
    v: Value<T>,
    m: int,
    x: Value<T>,
    w: Value<T>,
)
    requires
        reacting(a, progress, idle, id, k, n, v),
        idle.contains(m),
        a.is_source(m),
        a.sources[m].origin is Snapshot,
        !a.sources[m].ended,
        !a.cells[a.sources[m].origin->Snapshot_signal].ended,
        a.sources[m].causes.len() == a.sources[m].history.len(),
        a.can_be(a.sources[m].origin->Snapshot_signal, x),
    ensures
        a.record(m, w, both(x, v)).own_samples(m),
{
    let b = a.record(m, w, both(x, v));
    let signal = a.sources[m].origin->Snapshot_signal;
    let source = a.sources[m];
    assert(a.fed_source(m));
    assert(a.sound_cell(signal));
    let cell = a.resolve(signal);
    if a.cells[cell].origin is Constant && a.cells[cell].content is Held {
        assert(a.own_samples(m));
        assert(a.cells[cell].content == ContentView::Held(x));
        assert forall|j: int| 0 <= j < b.sources[m].causes.len() implies b.cells[cell].content
            == ContentView::Held(sampled(#[trigger] b.sources[m].causes[j])) by {
            if j < source.causes.len() {
                assert(b.sources[m].causes[j] == source.causes[j]);
            } else {
                assert(b.sources[m].causes[j] == both(x, v));
            }
        }
    }
    if let CellOrigin::Hold { parent, since, initial } = a.cells[cell].origin {
        if parent == m && since == 0 {
            assert(a.fed_cell(cell));
            let entry = Entry { reaction: Reaction::<T>::Hold { cell }, since: 0 };
            let i = choose|i: int|
                0 <= i < source.callbacks.len() && source.callbacks[i] == entry;
            assert(a.is_callback(m, i));
            let before = progress.insert(id, (k, n));
            assert(a.up_to_date(before, m, i));
            assert(lag(before, m, i) == 0);
            assert(a.heard(m, entry, 0) =~= source.history);
            assert(x == last_or(initial, source.history));
            assert forall|j: int| 0 <= j < b.sources[m].causes.len() implies sampled(
                #[trigger] b.sources[m].causes[j],
            ) == last_or(initial, b.sources[m].history.take(j)) by {
                if j < source.causes.len() {
                    assert(b.sources[m].causes[j] == source.causes[j]);
                    assert(b.sources[m].history.take(j) =~= source.history.take(j));
                } else {
                    assert(b.sources[m].history.take(j) =~= source.history);
                }
            }
        }
    }
}

/// An event that is sent keeps a network consistent, unless it poisons it.
pub proof fn lemma_sending_consistent<T>(
    a: NetworkView<T>,
    id: int,
    v: Value<T>,
    all: Seq<Value<T>>,
)
    requires
        a.sound(),
        a.consistent(),
        a.is_source(id),
        a.sources[id].origin is Sink,
        v.fits(a.sources[id].shape),
        !a.fire(all, a.ids(), id, v, v).poisoned,
        !a.fire(all, a.ids(), id, v, v).astray,
        !a.fire(all, a.ids(), id, v, v).overstepped,
    ensures
        a.fire(all, a.ids(), id, v, v).consistent(),
{
    vstd::set_lib::lemma_int_range(0, a.sources.len() as int);
    let b = a.record(id, v, v);
    let count = a.sources[id].callbacks.len() as int;
    let after = Map::<int, (int, int)>::empty().insert(id, (0, count));
    assert forall|s: int, i: int| b.is_callback(s, i) implies #[trigger] b.up_to_date(
        after,
        s,
        i,
    ) by {
        assert(a.is_callback(s, i));
        assert(a.up_to_date(Map::empty(), s, i));
        assert(a.sound_source(s));
        let entry = a.sources[s].callbacks[i];
        assert(a.sound_entry(s, entry));
        let heard = a.heard(s, entry, 0);
        assert(b.heard(s, entry, lag(after, s, i)) =~= heard);
        lemma_holds_beside_sink(a, b, id, s, entry, heard);
    }
    lemma_place_same(a, b);
    assert forall|s: int, i: int, t: int, j: int|
        b.is_callback(s, i) && b.is_callback(t, j) implies #[trigger] b.apart(s, i, t, j) by {
        assert(a.apart(s, i, t, j));
        assert(b.sources[s].callbacks[i] == a.sources[s].callbacks[i]);
        assert(b.sources[t].callbacks[j] == a.sources[t].callbacks[j]);
    }
    assert forall|m: int| b.is_source(m) implies #[trigger] b.fed_source(m) by {
        assert(a.fed_source(m));
        if m != id {
            lemma_pushed_more(a.sources[id].history, v);
            lemma_fed_elsewhere(a, b, id, m);
        }
    }
    assert forall|c: int| b.is_cell(c) implies #[trigger] b.fed_cell(c) by {
        assert(a.fed_cell(c));
    }
    assert forall|q: int| b.is_queue(q) implies #[trigger] b.fed_queue(q) by {
        assert(a.fed_queue(q));
    }
    lemma_fire_consistent(a, all, Map::empty(), a.ids(), id, v, v);
}

/// No callback has its effect on a sink.
proof fn lemma_holds_beside_sink<T>(
    a: NetworkView<T>,
    b: NetworkView<T>,
    id: int,
    s: int,
    entry: Entry<T>,
    heard: Seq<Value<T>>,
)
    requires
        a.is_source(id),
        a.sources[id].origin is Sink,
        a.sound_entry(s, entry),
        a.holds(s, entry, heard),
        b == a.with_source(id, b.sources[id]),
        b.sources[id].ended == a.sources[id].ended,
    ensures
        b.holds(s, entry, heard),
{
    match entry.reaction {
        Reaction::Mapped { f, target } => {
            assert(b.sources[target] == a.sources[target]);
        },
        Reaction::FilterSome { target } => {
            assert(b.sources[target] == a.sources[target]);
        },
        Reaction::Merge { left, target } => {
            assert(b.sources[target] == a.sources[target]);
        },
        Reaction::Switch { target } => {
            assert(b.sources[target] == a.sources[target]);
        },
        Reaction::Switched { target, token, from } => {
            assert(b.sources[target] == a.sources[target]);
        },
        Reaction::Snapshot { signal, f, target } => {
            assert(b.sources[target] == a.sources[target]);
        },
        _ => {},
    }
}

} // verus!
