//! What a network is and how events run through it, mathematically.
//!
//! A network is made of sources (the nodes of streams), cells (the states of
//! signals) and queues (the listeners that wait for events). A source knows
//! the callbacks that are registered with it; when it fires, they react one
//! after the other, in the order in which they were registered.
//!
//! What users' functions return is not determined by what they are applied to.
//! So what happens to a network is told with the results at hand: `all` is what
//! signals and functions give, in the order in which they are asked.
//!
//! A source or a cell is alive as long as somebody has a handle of it or
//! something rests on it that is alive. A copy of a stream that a cell holds, or
//! that waits in a queue, keeps it alive as well. What is not alive any more has
//! ended: it fires nothing, and the callbacks that would make it fire disappear.
use crate::function::{Binary, Unary};
use crate::value::{Shape, Value};
use vstd::prelude::*;
use vstd::set_lib::set_int_range;

verus! {

/// What a registered callback does with an event.
#[allow(inconsistent_fields)]
#[verifier::reject_recursive_types(T)]
pub enum Reaction<T> {
    /// Fire the image of the event.
    Mapped { f: Unary<T>, target: int },
    /// Fire what a `Some` holds; ignore `None`.
    FilterSome { target: int },
    /// Fire the event itself, as coming from one side of a merge.
    Merge { left: bool, target: int },
    /// The event is a stream: from now on `target` follows it.
    Switch { target: int },
    /// Fire the event itself, as long as the token is held. `from` is how much
    /// `target` had fired when it began to follow.
    Switched { target: int, token: int, from: nat },
    /// Fire the image of the signal's present value and the event.
    Snapshot { signal: int, f: Binary<T>, target: int },
    /// Put the event into a queue.
    Events { queue: int },
    /// Store the event in a cell.
    Hold { cell: int },
    /// Update a cell with the event.
    ScanMut { cell: int, f: Binary<T> },
}

/// A callback, and how much its source had fired when it was registered.
#[verifier::reject_recursive_types(T)]
pub struct Entry<T> {
    pub reaction: Reaction<T>,
    pub since: nat,
}

/// Where a source comes from. A `since` says how much the parent had fired
/// when the source was made.
#[allow(inconsistent_fields)]
#[verifier::reject_recursive_types(T)]
pub enum Origin<T> {
    Sink,
    Never,
    Mapped { parent: int, since: nat, f: Unary<T> },
    FilterSome { parent: int, since: nat },
    Merge { left: int, left_since: nat, right: int, right_since: nat },
    Switch { parent: int, since: nat },
    Snapshot { parent: int, since: nat, signal: int, f: Binary<T> },
}

/// From when on a switch fires what a stream fires: how much the switch and the
/// stream had fired by then.
pub struct Turn {
    pub stream: int,
    pub from: nat,
    pub since: nat,
}

/// A source of events.
#[verifier::ext_equal]
#[verifier::reject_recursive_types(T)]
pub struct SourceView<T> {
    pub shape: Shape,
    pub origin: Origin<T>,
    /// All that it has fired, oldest first.
    pub history: Seq<Value<T>>,
    /// What made it fire each of these: of a snapshot the value of the signal
    /// and the event, of all others the event.
    pub causes: Seq<Value<T>>,
    /// Of a merge: what came from the left and from the right, and which of
    /// them came when: true for the left.
    pub left: Seq<Value<T>>,
    pub right: Seq<Value<T>>,
    pub sides: Seq<bool>,
    /// Of a switch: the token of the stream that it follows.
    pub terminate: Option<int>,
    /// Of a switch: the streams that it has been handed, oldest first.
    pub turns: Seq<Turn>,
    /// The callbacks, in the order of their registration.
    pub callbacks: Seq<Entry<T>>,
    /// Somebody can send into it.
    pub pinned: bool,
    /// Nobody outside of the network has a handle of its stream any more.
    pub released: bool,
    /// It is not alive any more.
    pub ended: bool,
}

impl<T> SourceView<T> {
    /// Of a switch: the stream that it follows.
    pub open spec fn current(self) -> Option<int> {
        if self.turns.len() > 0 {
            Some(self.turns.last().stream)
        } else {
            None
        }
    }

    /// Somebody has a handle of it.
    pub open spec fn is_held(self) -> bool {
        self.pinned || !self.released
    }
}

/// Where a cell comes from.
#[verifier::reject_recursive_types(T)]
pub enum CellOrigin<T> {
    Constant,
    Cycle,
    Hold { parent: int, since: nat, initial: Value<T> },
    ScanMut { parent: int, since: nat, initial: Value<T>, f: Binary<T> },
    Combine,
}

/// What a cell contains.
#[verifier::reject_recursive_types(T)]
pub enum ContentView<T> {
    Undefined,
    Held(Value<T>),
    /// The same as another cell, which holds a value.
    Alias(int),
    /// The image of the values of two earlier cells.
    Combined { state: int, other: int, f: Binary<T> },
}

/// The state of a signal.
#[verifier::ext_equal]
#[verifier::reject_recursive_types(T)]
pub struct CellView<T> {
    pub shape: Shape,
    pub origin: CellOrigin<T>,
    pub content: ContentView<T>,
    /// The updates that it has been through: before, event and after.
    pub updates: Seq<(Value<T>, Value<T>, Value<T>)>,
    /// Nobody has a handle of it any more.
    pub released: bool,
    /// It is not alive any more.
    pub ended: bool,
}

/// A listener.
#[verifier::ext_equal]
#[verifier::reject_recursive_types(T)]
pub struct QueueView<T> {
    pub shape: Shape,
    pub parent: int,
    pub since: nat,
    /// All that it has been handed.
    pub received: Seq<Value<T>>,
    /// What of that has not been taken out yet.
    pub waiting: Seq<Value<T>>,
    pub open: bool,
}

/// A network.
#[verifier::ext_equal]
#[verifier::reject_recursive_types(T)]
pub struct NetworkView<T> {
    /// By this number its streams are told from those of other networks.
    pub number: u64,
    pub sources: Seq<SourceView<T>>,
    pub cells: Seq<CellView<T>>,
    pub queues: Seq<QueueView<T>>,
    /// Which tokens are held.
    pub tokens: Seq<bool>,
    /// A source was to fire, or was to be followed, while it was firing; or an
    /// undefined signal was sampled; or a switch was handed a stream that has
    /// ended or whose network has another number.
    pub poisoned: bool,
    /// The results of sampling signals and applying functions that were used,
    /// oldest first.
    pub returned: Seq<Value<T>>,
    /// The results at hand were not those of the signals and functions.
    pub astray: bool,
    /// A function was to be applied to what it cannot be applied to.
    pub overstepped: bool,
}

/// Two values as one.
pub open spec fn both<T>(x: Value<T>, v: Value<T>) -> Value<T> {
    Value::Pair(Box::new(x), Box::new(v))
}

impl<T> NetworkView<T> {
    pub open spec fn empty(number: u64) -> NetworkView<T> {
        NetworkView {
            number,
            sources: Seq::empty(),
            cells: Seq::empty(),
            queues: Seq::empty(),
            tokens: Seq::empty(),
            poisoned: false,
            returned: Seq::empty(),
            astray: false,
            overstepped: false,
        }
    }

    /// The numbers of all sources.
    pub open spec fn ids(self) -> Set<int> {
        set_int_range(0, self.sources.len() as int)
    }

    pub open spec fn is_source(self, id: int) -> bool {
        0 <= id < self.sources.len()
    }

    pub open spec fn is_cell(self, k: int) -> bool {
        0 <= k < self.cells.len()
    }

    pub open spec fn is_queue(self, q: int) -> bool {
        0 <= q < self.queues.len()
    }

    // ---- Small steps ----

    pub open spec fn poison(self) -> NetworkView<T> {
        NetworkView { poisoned: true, ..self }
    }

    pub open spec fn lose(self) -> NetworkView<T> {
        NetworkView { astray: true, ..self }
    }

    pub open spec fn overstep(self) -> NetworkView<T> {
        NetworkView { overstepped: true, ..self }
    }

    /// What is given next, if `all` is what is given in all.
    pub open spec fn answer(self, all: Seq<Value<T>>) -> Option<Value<T>> {
        if self.returned.len() < all.len() {
            Some(all[self.returned.len() as int])
        } else {
            None
        }
    }

    /// A signal or a function has given `w`.
    pub open spec fn take(self, w: Value<T>) -> NetworkView<T> {
        NetworkView { returned: self.returned.push(w), ..self }
    }

    pub open spec fn with_source(self, id: int, source: SourceView<T>) -> NetworkView<T> {
        NetworkView { sources: self.sources.update(id, source), ..self }
    }

    /// The source has fired `v`, because of `cause`.
    pub open spec fn record(self, id: int, v: Value<T>, cause: Value<T>) -> NetworkView<T> {
        let source = self.sources[id];
        self.with_source(
            id,
            SourceView {
                history: source.history.push(v),
                causes: source.causes.push(cause),
                ..source
            },
        )
    }

    /// One side of a merge has handed over `v`.
    pub open spec fn hear(self, id: int, left: bool, v: Value<T>) -> NetworkView<T> {
        let source = self.sources[id];
        self.with_source(
            id,
            if left {
                SourceView {
                    left: source.left.push(v),
                    sides: source.sides.push(true),
                    ..source
                }
            } else {
                SourceView {
                    right: source.right.push(v),
                    sides: source.sides.push(false),
                    ..source
                }
            },
        )
    }

    /// A callback has been registered with a source.
    pub open spec fn register(self, id: int, reaction: Reaction<T>) -> NetworkView<T> {
        let source = self.sources[id];
        let entry = Entry { reaction, since: source.history.len() };
        self.with_source(id, SourceView { callbacks: source.callbacks.push(entry), ..source })
    }

    /// An event has come to a queue. A closed one ignores it.
    pub open spec fn enqueue(self, q: int, v: Value<T>) -> NetworkView<T> {
        let queue = self.queues[q];
        if queue.open {
            let fuller = QueueView {
                received: queue.received.push(v),
                waiting: queue.waiting.push(v),
                ..queue
            };
            NetworkView { queues: self.queues.update(q, fuller), ..self }
        } else {
            self
        }
    }

    /// A cell has taken on a value.
    pub open spec fn store(self, k: int, v: Value<T>) -> NetworkView<T> {
        let cell = CellView { content: ContentView::Held(v), ..self.cells[k] };
        NetworkView { cells: self.cells.update(k, cell), ..self }
    }

    /// An event `v` has updated the cell from `x` to `w`.
    pub open spec fn update(self, k: int, x: Value<T>, v: Value<T>, w: Value<T>) -> NetworkView<T> {
        let cell = CellView {
            content: ContentView::Held(w),
            updates: self.cells[k].updates.push((x, v, w)),
            ..self.cells[k]
        };
        NetworkView { cells: self.cells.update(k, cell), ..self }
    }

    /// Whether sampling a cell can give `x`.
    pub open spec fn can_be(self, k: int, x: Value<T>) -> bool
        decreases k,
    {
        self.is_cell(k) && match self.cells[k].content {
            ContentView::Undefined => false,
            ContentView::Held(v) => x == v,
            ContentView::Alias(j) => self.cells[j].content == ContentView::Held(x),
            ContentView::Combined { state, other, f } => 0 <= state < k && 0 <= other < k
                && exists|a: Value<T>, b: Value<T>|
                {
                    &&& #[trigger] (f.promise)((a, b), x)
                    &&& self.can_be(state, a)
                    &&& self.can_be(other, b)
                },
        }
    }

    /// Whether the functions can be applied that sampling a cell applies.
    pub open spec fn is_safe(self, k: int) -> bool
        decreases k,
    {
        self.is_cell(k) ==> match self.cells[k].content {
            ContentView::Combined { state, other, f } => 0 <= state < k && 0 <= other < k ==> {
                &&& self.is_safe(state)
                &&& self.is_safe(other)
                &&& forall|a: Value<T>, b: Value<T>|
                    self.can_be(state, a) && self.can_be(other, b) ==> #[trigger] (f.domain)(
                        (a, b),
                    )
            },
            _ => true,
        }
    }

    /// Whether a cell has a value: whether no undefined cell is behind it.
    pub open spec fn defined(self, k: int) -> bool
        decreases k,
    {
        self.is_cell(k) && match self.cells[k].content {
            ContentView::Undefined => false,
            ContentView::Held(_) => true,
            ContentView::Alias(_) => true,
            ContentView::Combined { state, other, .. } => {
                &&& 0 <= state < k
                &&& 0 <= other < k
                &&& self.defined(state)
                &&& self.defined(other)
            },
        }
    }

    /// The tokens after the one of `id` is let go and a new one is made.
    pub open spec fn fresh_token(self, id: int) -> Seq<bool> {
        match self.sources[id].terminate {
            Some(t) => self.tokens.update(t, false).push(true),
            None => self.tokens.push(true),
        }
    }

    /// The switch `id` has been handed a stream, which it follows from now on.
    /// The sources in `idle` are those that are not firing.
    pub open spec fn rewire(self, idle: Set<int>, id: int, v: Value<T>) -> NetworkView<T> {
        match v {
            Value::Stream(number, new, _) => if number == self.number && self.is_source(new as int)
                && self.sources[new as int].shape == self.sources[id].shape
                && !self.sources[new as int].ended {
                let source = self.sources[id];
                let token = self.tokens.len() as int;
                let turn = Turn {
                    stream: new as int,
                    from: source.history.len(),
                    since: self.sources[new as int].history.len(),
                };
                let turned = NetworkView { tokens: self.fresh_token(id), ..self }.with_source(
                    id,
                    SourceView {
                        terminate: Some(token),
                        turns: source.turns.push(turn),
                        ..source
                    },
                ).register(
                    new as int,
                    Reaction::Switched { target: id, token, from: source.history.len() },
                );
                if idle.contains(new as int) {
                    turned
                } else {
                    turned.poison()
                }
            } else {
                self.poison()
            },
            _ => self.poison(),
        }
    }

    /// A callback that will never do anything again: what it would act on has
    /// ended, or nobody listens any more.
    pub open spec fn disappeared(self, entry: Entry<T>) -> bool {
        match entry.reaction {
            Reaction::Mapped { target, .. } => self.sources[target].ended,
            Reaction::FilterSome { target } => self.sources[target].ended,
            Reaction::Merge { target, .. } => self.sources[target].ended,
            Reaction::Switch { target } => self.sources[target].ended,
            Reaction::Switched { target, token, .. } => !self.tokens[token]
                || self.sources[target].ended,
            Reaction::Snapshot { target, .. } => self.sources[target].ended,
            Reaction::Events { queue } => !self.queues[queue].open,
            Reaction::Hold { cell } => self.cells[cell].ended,
            Reaction::ScanMut { cell, .. } => self.cells[cell].ended,
        }
    }

    /// The callbacks of a source that have disappeared are dropped.
    pub open spec fn prune(self, id: int) -> NetworkView<T> {
        let source = self.sources[id];
        let kept = source.callbacks.filter(|e: Entry<T>| !self.disappeared(e));
        self.with_source(id, SourceView { callbacks: kept, ..source })
    }

    // ---- Firing ----

    /// The source `id` fires `v`, because of `cause`. The sources in `idle` are
    /// those that are not firing; one that is firing cannot be made to fire.
    pub open spec fn fire(
        self,
        all: Seq<Value<T>>,
        idle: Set<int>,
        id: int,
        v: Value<T>,
        cause: Value<T>,
    ) -> NetworkView<T>
        decreases idle.len(), 0int, 0int,
    {
        if idle.finite() && idle.contains(id) {
            let fired = self.record(id, v, cause);
            let count = fired.sources[id].callbacks.len();
            fired.deliver(all, idle.remove(id), id, v, count).prune(id)
        } else {
            self.poison()
        }
    }

    /// The first `count` callbacks of the source `id` react to `v`.
    pub open spec fn deliver(
        self,
        all: Seq<Value<T>>,
        idle: Set<int>,
        id: int,
        v: Value<T>,
        count: nat,
    ) -> NetworkView<T>
        decreases idle.len(), 2int, count,
    {
        if count == 0 {
            self
        } else {
            let before = self.deliver(all, idle, id, v, (count - 1) as nat);
            before.answer_to(all, idle, before.sources[id].callbacks[count - 1], v)
        }
    }

    /// A callback reacts to `v`, unless it has disappeared.
    pub open spec fn answer_to(
        self,
        all: Seq<Value<T>>,
        idle: Set<int>,
        entry: Entry<T>,
        v: Value<T>,
    ) -> NetworkView<T>
        decreases idle.len(), 1int, 1int,
    {
        if self.disappeared(entry) {
            self
        } else {
            self.react(all, idle, entry.reaction, v)
        }
    }

    /// What a callback does with `v`.
    pub open spec fn react(
        self,
        all: Seq<Value<T>>,
        idle: Set<int>,
        reaction: Reaction<T>,
        v: Value<T>,
    ) -> NetworkView<T>
        decreases idle.len(), 1int, 0int,
    {
        match reaction {
            Reaction::Mapped { f, target } => if (f.domain)(v) {
                match self.answer(all) {
                    Some(w) => if (f.promise)(v, w) {
                        self.take(w).fire(all, idle, target, w, v)
                    } else {
                        self.lose()
                    },
                    None => self.lose(),
                }
            } else {
                self.overstep()
            },
            Reaction::FilterSome { target } => match v.contained() {
                Some(w) => self.fire(all, idle, target, w, v),
                None => self,
            },
            Reaction::Merge { left, target } => self.hear(target, left, v).fire(
                all,
                idle,
                target,
                v,
                v,
            ),
            Reaction::Switch { target } => self.rewire(idle, target, v),
            Reaction::Switched { target, .. } => self.fire(all, idle, target, v, v),
            Reaction::Snapshot { signal, f, target } => if !self.defined(signal) {
                self.poison()
            } else if !self.is_safe(signal) {
                self.overstep()
            } else {
                match self.answer(all) {
                    Some(x) => if !self.can_be(signal, x) {
                        self.lose()
                    } else if !(f.domain)((x, v)) {
                        self.overstep()
                    } else {
                        match self.take(x).answer(all) {
                            Some(w) => if (f.promise)((x, v), w) {
                                self.take(x).take(w).fire(all, idle, target, w, both(x, v))
                            } else {
                                self.lose()
                            },
                            None => self.lose(),
                        }
                    },
                    None => self.lose(),
                }
            },
            Reaction::Events { queue } => self.enqueue(queue, v),
            Reaction::Hold { cell } => self.store(cell, v),
            Reaction::ScanMut { cell, f } => match self.cells[cell].content {
                ContentView::Held(x) => if (f.domain)((x, v)) {
                    match self.answer(all) {
                        Some(w) => if (f.promise)((x, v), w) {
                            self.take(w).update(cell, x, v, w)
                        } else {
                            self.lose()
                        },
                        None => self.lose(),
                    }
                } else {
                    self.overstep()
                },
                _ => self,
            },
        }
    }

    /// `next` is what `fire` makes of the network with the results that were
    /// given, whatever else is given later.
    pub open spec fn fires(
        self,
        idle: Set<int>,
        id: int,
        v: Value<T>,
        cause: Value<T>,
        next: NetworkView<T>,
    ) -> bool {
        forall|all: Seq<Value<T>>|
            next.returned.is_prefix_of(all) ==> next == #[trigger] self.fire(
                all,
                idle,
                id,
                v,
                cause,
            )
    }

    /// `fires` for `deliver`.
    pub open spec fn delivers(
        self,
        idle: Set<int>,
        id: int,
        v: Value<T>,
        count: nat,
        next: NetworkView<T>,
    ) -> bool {
        forall|all: Seq<Value<T>>|
            next.returned.is_prefix_of(all) ==> next == #[trigger] self.deliver(
                all,
                idle,
                id,
                v,
                count,
            )
    }

    /// `fires` for `answer_to`.
    pub open spec fn reacts(
        self,
        idle: Set<int>,
        entry: Entry<T>,
        v: Value<T>,
        next: NetworkView<T>,
    ) -> bool {
        forall|all: Seq<Value<T>>|
            next.returned.is_prefix_of(all) ==> next == #[trigger] self.answer_to(
                all,
                idle,
                entry,
                v,
            )
    }

    /// No function is applied to what it cannot be applied to when the source
    /// `id` fires, whatever the functions return.
    pub open spec fn can_fire(self, idle: Set<int>, id: int, v: Value<T>, cause: Value<T>) -> bool {
        forall|all: Seq<Value<T>>|
            self.returned.is_prefix_of(all) ==> !(#[trigger] self.fire(
                all,
                idle,
                id,
                v,
                cause,
            )).overstepped
    }

    /// `can_fire` for `answer_to`.
    pub open spec fn can_react(self, idle: Set<int>, entry: Entry<T>, v: Value<T>) -> bool {
        forall|all: Seq<Value<T>>|
            self.returned.is_prefix_of(all) ==> !(#[trigger] self.answer_to(
                all,
                idle,
                entry,
                v,
            )).overstepped
    }

    /// What a network is after `v` has been sent into the source `id`.
    pub open spec fn sent(self, id: int, v: Value<T>, all: Seq<Value<T>>) -> NetworkView<T> {
        self.fire(all, self.ids(), id, v, v).sweep()
    }

    /// No function is applied to what it cannot be applied to when `v` is sent
    /// into the source `id`, whatever the functions return.
    pub open spec fn can_send(self, id: int, v: Value<T>) -> bool {
        forall|all: Seq<Value<T>>|
            self.returned.is_prefix_of(all) ==> !(#[trigger] self.sent(id, v, all)).overstepped
    }

    /// `can_send` for all of `vs`, one after the other.
    pub open spec fn can_feed(self, id: int, vs: Seq<Value<T>>) -> bool {
        forall|all: Seq<Value<T>>|
            self.returned.is_prefix_of(all) ==> !(#[trigger] self.fed(id, vs, all)).overstepped
    }

    /// What a network is after all of `vs` have been sent, one after the other.
    pub open spec fn fed(self, id: int, vs: Seq<Value<T>>, all: Seq<Value<T>>) -> NetworkView<T>
        decreases vs.len(),
    {
        if vs.len() == 0 {
            self
        } else {
            self.fed(id, vs.drop_last(), all).sent(id, vs.last(), all)
        }
    }

    /// `next` is what the network is after `v` has been sent into the source
    /// `id`, with the results that were given, whatever else is given later.
    pub open spec fn sends(self, id: int, v: Value<T>, next: NetworkView<T>) -> bool {
        &&& !next.astray
        &&& !next.overstepped
        &&& forall|all: Seq<Value<T>>|
            next.returned.is_prefix_of(all) ==> next == #[trigger] self.sent(id, v, all)
    }

    /// `next` is what the network is after all of `vs` have been sent, one after
    /// the other, with the results that were given.
    pub open spec fn feeds(self, id: int, vs: Seq<Value<T>>, next: NetworkView<T>) -> bool {
        &&& !next.astray
        &&& !next.overstepped
        &&& forall|all: Seq<Value<T>>|
            next.returned.is_prefix_of(all) ==> next == #[trigger] self.fed(id, vs, all)
    }

    // ---- Life and end ----

    /// A callback acts on something that is alive after `n` steps.
    pub open spec fn live_at(self, n: nat, entry: Entry<T>) -> bool
        decreases n, 1int,
    {
        match entry.reaction {
            Reaction::Mapped { target, .. } => self.alive_at(n, target),
            Reaction::FilterSome { target } => self.alive_at(n, target),
            Reaction::Merge { target, .. } => self.alive_at(n, target),
            Reaction::Switch { target } => self.alive_at(n, target),
            Reaction::Switched { target, token, .. } => self.tokens[token] && self.alive_at(
                n,
                target,
            ),
            Reaction::Snapshot { target, .. } => self.alive_at(n, target),
            Reaction::Events { queue } => self.queues[queue].open,
            Reaction::Hold { cell } => self.alive_cell_at(n, cell),
            Reaction::ScanMut { cell, .. } => self.alive_cell_at(n, cell),
        }
    }

    /// Somebody has a handle of a source, or of something that rests on it or
    /// holds it in at most `n` steps; or it waits for somebody in a queue.
    pub open spec fn alive_at(self, n: nat, s: int) -> bool
        decreases n, 0int,
    {
        ||| self.sources[s].is_held()
        ||| n > 0 && exists|i: int|
            0 <= i < self.sources[s].callbacks.len() && self.live_at(
                (n - 1) as nat,
                #[trigger] self.sources[s].callbacks[i],
            )
        ||| n > 0 && exists|k: int|
            #[trigger] self.holds_stream(k, s) && self.alive_cell_at((n - 1) as nat, k)
        ||| exists|q: int, i: int| #[trigger] self.waits(q, i, s)
    }

    /// `alive_at` for a cell.
    pub open spec fn alive_cell_at(self, n: nat, k: int) -> bool
        decreases n, 0int,
    {
        ||| !self.cells[k].released
        ||| n > 0 && exists|j: int|
            #[trigger] self.rests_on(j, k) && self.alive_cell_at((n - 1) as nat, j)
        ||| n > 0 && exists|s: int, i: int|
            #[trigger] self.samples(s, i, k) && self.live_at(
                (n - 1) as nat,
                self.sources[s].callbacks[i],
            )
    }

    /// The stream of the source `s`, which has not ended, is in `v`.
    pub open spec fn mentions(self, v: Value<T>, s: int) -> bool {
        v.names(self.number, s) && !self.sources[s].ended
    }

    /// The cell `k` holds the stream of the source `s`.
    pub open spec fn holds_stream(self, k: int, s: int) -> bool {
        &&& self.is_cell(k)
        &&& self.cells[k].content matches ContentView::Held(v) && self.mentions(v, s)
    }

    /// The stream of the source `s` is in the event number `i` that waits in the
    /// open queue `q`.
    pub open spec fn waits(self, q: int, i: int, s: int) -> bool {
        &&& self.is_queue(q)
        &&& self.queues[q].open
        &&& 0 <= i < self.queues[q].waiting.len()
        &&& self.mentions(self.queues[q].waiting[i], s)
    }

    /// The value of the cell `j` rests on that of the cell `k`.
    pub open spec fn rests_on(self, j: int, k: int) -> bool {
        self.is_cell(j) && match self.cells[j].content {
            ContentView::Alias(i) => i == k,
            ContentView::Combined { state, other, .. } => state == k || other == k,
            _ => false,
        }
    }

    /// The callback `i` of the source `s` samples the cell `k`.
    pub open spec fn samples(self, s: int, i: int, k: int) -> bool {
        &&& self.is_source(s)
        &&& 0 <= i < self.sources[s].callbacks.len()
        &&& self.sources[s].callbacks[i].reaction matches Reaction::Snapshot { signal, .. }
            && signal == k
    }

    /// A source is alive: somebody has a handle of it, or something that is
    /// alive rests on it or holds its stream.
    pub open spec fn alive(self, s: int) -> bool {
        exists|n: nat| self.alive_at(n, s)
    }

    /// A cell is alive.
    pub open spec fn alive_cell(self, k: int) -> bool {
        exists|n: nat| self.alive_cell_at(n, k)
    }

    /// A callback acts on something that is alive.
    pub open spec fn live(self, entry: Entry<T>) -> bool {
        exists|n: nat| self.live_at(n, entry)
    }

    /// A source, ended and without callbacks if it is not alive any more.
    pub open spec fn swept_source(self, s: int) -> SourceView<T> {
        if self.alive(s) {
            SourceView { ended: false, ..self.sources[s] }
        } else {
            SourceView { ended: true, callbacks: Seq::empty(), ..self.sources[s] }
        }
    }

    /// A cell, ended and empty if it is not alive any more.
    pub open spec fn swept_cell(self, k: int) -> CellView<T> {
        if self.alive_cell(k) {
            CellView { ended: false, ..self.cells[k] }
        } else {
            CellView { ended: true, content: ContentView::Undefined, ..self.cells[k] }
        }
    }

    /// What is not alive any more ends.
    pub open spec fn sweep(self) -> NetworkView<T> {
        NetworkView {
            sources: Seq::new(self.sources.len(), |s: int| self.swept_source(s)),
            cells: Seq::new(self.cells.len(), |k: int| self.swept_cell(k)),
            ..self
        }
    }

    /// Exactly what is not alive has ended.
    pub open spec fn swept(self) -> bool {
        &&& forall|s: int|
            self.is_source(s) ==> (#[trigger] self.sources[s]).ended == !self.alive(s)
        &&& forall|s: int|
            self.is_source(s) && (#[trigger] self.sources[s]).ended
                ==> self.sources[s].callbacks.len() == 0
        &&& forall|k: int|
            self.is_cell(k) ==> (#[trigger] self.cells[k]).ended == !self.alive_cell(k)
    }

    /// Nobody has a handle of the stream of a source any more.
    pub open spec fn let_go(self, id: int) -> NetworkView<T> {
        self.with_source(id, SourceView { released: true, ..self.sources[id] })
    }

    /// What a network is after the last handle of a stream is gone.
    pub open spec fn release(self, id: int) -> NetworkView<T> {
        self.let_go(id).sweep()
    }

    /// What a network is after the last handle of a sink is gone.
    pub open spec fn unpin(self, id: int) -> NetworkView<T> {
        self.with_source(id, SourceView { pinned: false, ..self.sources[id] }).sweep()
    }

    /// What a network is after the last handle of a signal is gone.
    pub open spec fn release_cell(self, k: int) -> NetworkView<T> {
        let cell = CellView { released: true, ..self.cells[k] };
        NetworkView { cells: self.cells.update(k, cell), ..self }.sweep()
    }

    /// A source, with a handle of its stream if that is in `v`.
    pub open spec fn retained_source(self, v: Value<T>, s: int) -> SourceView<T> {
        if self.mentions(v, s) {
            SourceView { released: false, ..self.sources[s] }
        } else {
            self.sources[s]
        }
    }

    /// What a network is after somebody has got `v` out of it, and with it a handle
    /// of every stream in it that has not ended.
    pub open spec fn retain(self, v: Value<T>) -> NetworkView<T> {
        NetworkView {
            sources: Seq::new(self.sources.len(), |s: int| self.retained_source(v, s)),
            ..self
        }
    }

    // ---- Building ----

    /// A new source that nothing feeds yet; its number is the number of the
    /// sources that were there before.
    pub open spec fn add_source(self, shape: Shape, origin: Origin<T>) -> NetworkView<T> {
        let source = SourceView {
            shape,
            origin,
            history: Seq::empty(),
            causes: Seq::empty(),
            left: Seq::empty(),
            right: Seq::empty(),
            sides: Seq::empty(),
            terminate: None,
            turns: Seq::empty(),
            callbacks: Seq::empty(),
            pinned: origin is Sink,
            released: false,
            ended: false,
        };
        NetworkView { sources: self.sources.push(source), ..self }
    }

    /// A new cell; its number is the number of the cells that were there
    /// before.
    pub open spec fn add_cell(
        self,
        shape: Shape,
        origin: CellOrigin<T>,
        content: ContentView<T>,
    ) -> NetworkView<T> {
        let cell = CellView {
            shape,
            origin,
            content,
            updates: Seq::empty(),
            released: false,
            ended: false,
        };
        NetworkView { cells: self.cells.push(cell), ..self }
    }

    /// How much a source has fired.
    pub open spec fn fired(self, id: int) -> nat {
        self.sources[id].history.len()
    }

    /// A source that fires the images of what `parent` fires.
    pub open spec fn map(self, parent: int, shape: Shape, f: Unary<T>) -> NetworkView<T> {
        self.add_source(shape, Origin::Mapped { parent, since: self.fired(parent), f }).register(
            parent,
            Reaction::Mapped { f, target: self.sources.len() as int },
        )
    }

    /// A source that fires what the options hold that `parent` fires.
    pub open spec fn filter_some(self, parent: int, shape: Shape) -> NetworkView<T> {
        self.add_source(shape, Origin::FilterSome { parent, since: self.fired(parent) }).register(
            parent,
            Reaction::FilterSome { target: self.sources.len() as int },
        )
    }

    /// A source that fires what the options hold that `f` makes of what `parent`
    /// fires.
    pub open spec fn filter_map(self, parent: int, shape: Shape, f: Unary<T>) -> NetworkView<T> {
        let options = self.sources.len() as int;
        self.map(parent, Shape::Optional(Box::new(shape)), f).filter_some(options, shape).release(
            options,
        )
    }

    /// A source that fires what `left` and `right` fire.
    pub open spec fn merge(self, left: int, right: int, shape: Shape) -> NetworkView<T> {
        let target = self.sources.len() as int;
        self.add_source(
            shape,
            Origin::Merge {
                left,
                left_since: self.fired(left),
                right,
                right_since: self.fired(right),
            },
        ).register(left, Reaction::Merge { left: true, target }).register(
            right,
            Reaction::Merge { left: false, target },
        )
    }

    /// A source that fires what the stream fires that `parent` fired last.
    pub open spec fn switch(self, parent: int, shape: Shape) -> NetworkView<T> {
        self.add_source(shape, Origin::Switch { parent, since: self.fired(parent) }).register(
            parent,
            Reaction::Switch { target: self.sources.len() as int },
        )
    }

    /// A source that fires the image of a signal and of each event of `parent`.
    pub open spec fn snapshot(
        self,
        signal: int,
        parent: int,
        shape: Shape,
        f: Binary<T>,
    ) -> NetworkView<T> {
        self.add_source(
            shape,
            Origin::Snapshot { parent, since: self.fired(parent), signal, f },
        ).register(parent, Reaction::Snapshot { signal, f, target: self.sources.len() as int })
    }

    /// A cell that holds the last event of `parent`.
    pub open spec fn hold(self, parent: int, initial: Value<T>) -> NetworkView<T> {
        self.add_cell(
            self.sources[parent].shape,
            CellOrigin::Hold { parent, since: self.fired(parent), initial },
            ContentView::Held(initial),
        ).register(parent, Reaction::Hold { cell: self.cells.len() as int })
    }

    /// A cell that each event of `parent` updates.
    pub open spec fn scan_mut(
        self,
        parent: int,
        shape: Shape,
        initial: Value<T>,
        f: Binary<T>,
    ) -> NetworkView<T> {
        self.add_cell(
            shape,
            CellOrigin::ScanMut { parent, since: self.fired(parent), initial, f },
            ContentView::Held(initial),
        ).register(parent, Reaction::ScanMut { cell: self.cells.len() as int, f })
    }

    /// An undefined cell.
    pub open spec fn cycle(self, shape: Shape) -> NetworkView<T> {
        self.add_cell(shape, CellOrigin::Cycle, ContentView::Undefined)
    }

    /// The undefined cell `k` is defined to be the cell `definition`, of which
    /// nobody has a handle from then on.
    pub open spec fn define(self, k: int, definition: int) -> NetworkView<T> {
        let cell = CellView { content: ContentView::Alias(definition), ..self.cells[k] };
        let behind = CellView { released: true, ..self.cells[definition] };
        NetworkView { cells: self.cells.update(k, cell).update(definition, behind), ..self }
    }

    /// A cell that accumulates the events of `parent`: the held results of a
    /// snapshot of itself.
    pub open spec fn scan(
        self,
        parent: int,
        shape: Shape,
        initial: Value<T>,
        f: Binary<T>,
    ) -> NetworkView<T> {
        self.scanning(parent, shape, initial, f).release(self.sources.len() as int)
    }

    /// `scan`, while there still is a handle of the stream of its results.
    pub open spec fn scanning(
        self,
        parent: int,
        shape: Shape,
        initial: Value<T>,
        f: Binary<T>,
    ) -> NetworkView<T> {
        let cycle = self.cells.len() as int;
        let results = self.sources.len() as int;
        self.cycle(shape).snapshot(cycle, parent, shape, f).hold(results, initial).define(
            cycle,
            cycle + 1,
        )
    }

    /// A cell whose value is computed from those of two cells.
    pub open spec fn combine(
        self,
        state: int,
        other: int,
        shape: Shape,
        f: Binary<T>,
    ) -> NetworkView<T> {
        self.add_cell(shape, CellOrigin::Combine, ContentView::Combined { state, other, f })
    }

    /// A queue for the events of `parent`.
    pub open spec fn listen(self, parent: int) -> NetworkView<T> {
        let queue = QueueView {
            shape: self.sources[parent].shape,
            parent,
            since: self.fired(parent),
            received: Seq::empty(),
            waiting: Seq::empty(),
            open: true,
        };
        NetworkView { queues: self.queues.push(queue), ..self }.register(
            parent,
            Reaction::Events { queue: self.queues.len() as int },
        )
    }

    /// The oldest event that waits in a queue is taken out, if there is one.
    /// Whoever gets it has handles of the streams in it.
    pub open spec fn take_next(self, q: int) -> NetworkView<T> {
        let queue = self.queues[q];
        if queue.waiting.len() > 0 {
            let shorter = QueueView { waiting: queue.waiting.drop_first(), ..queue };
            NetworkView { queues: self.queues.update(q, shorter), ..self }.retain(
                queue.waiting.first(),
            )
        } else {
            self
        }
    }

    /// A queue is shut: it gets no more events, and what waits is dropped.
    pub open spec fn shut(self, q: int) -> NetworkView<T> {
        let shut = QueueView { open: false, waiting: Seq::empty(), ..self.queues[q] };
        NetworkView { queues: self.queues.update(q, shut), ..self }
    }

    /// What a network is after a listener is gone.
    pub open spec fn close(self, q: int) -> NetworkView<T> {
        self.shut(q).sweep()
    }
}

} // verus!
