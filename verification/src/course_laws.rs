//! The laws of the course of a network: what stays whatever is sent, made and
//! released.
use crate::building::lemma_lets_go_valid;
use crate::life::{lemma_ended, lemma_sweep_sound};
use crate::model::{CellView, NetworkView, SourceView};
use crate::sound::lemma_reflexive;
use vstd::prelude::*;

verus! {

impl<T> NetworkView<T> {
    /// What is fired, and what is known of it, is never taken back.
    pub open spec fn source_leads_to(self, next: NetworkView<T>, s: int) -> bool {
        let before = self.sources[s];
        let after = next.sources[s];
        &&& after.shape == before.shape
        &&& after.origin == before.origin
        &&& before.history.is_prefix_of(after.history)
        &&& before.causes.is_prefix_of(after.causes)
        &&& before.sides.is_prefix_of(after.sides)
        &&& before.turns.is_prefix_of(after.turns)
        &&& before.ended ==> after.ended
    }

    /// What a cell is made of is never changed, and what has ended has. But for
    /// those that hold events it contains what it contained, as long as it goes on.
    pub open spec fn cell_leads_to(self, next: NetworkView<T>, k: int) -> bool {
        let before = self.cells[k];
        let after = next.cells[k];
        &&& after.shape == before.shape
        &&& after.origin == before.origin
        &&& before.ended ==> after.ended
        &&& !after.ended && !(before.content is Held) ==> after.content == before.content
        &&& !after.ended && before.content is Held ==> after.content is Held
        &&& !after.ended && before.origin is Constant ==> after.content == before.content
    }

    /// What has come to a queue is never taken back.
    pub open spec fn queue_leads_to(self, next: NetworkView<T>, q: int) -> bool {
        let before = self.queues[q];
        let after = next.queues[q];
        &&& after.shape == before.shape
        &&& after.parent == before.parent
        &&& after.since == before.since
        &&& before.received.is_prefix_of(after.received)
        &&& after.open ==> before.open
    }

    /// `next` comes after `self`, through whatever is sent, made and released.
    pub open spec fn leads_to(self, next: NetworkView<T>) -> bool {
        &&& next.number == self.number
        &&& self.sources.len() <= next.sources.len()
        &&& forall|s: int| self.is_source(s) ==> #[trigger] self.source_leads_to(next, s)
        &&& self.cells.len() <= next.cells.len()
        &&& forall|k: int| self.is_cell(k) ==> #[trigger] self.cell_leads_to(next, k)
        &&& self.queues.len() <= next.queues.len()
        &&& forall|q: int| self.is_queue(q) ==> #[trigger] self.queue_leads_to(next, q)
        &&& self.returned.is_prefix_of(next.returned)
    }

    /// `next` is as `self`, but for handles and listeners that are gone, and for what
    /// has ended because of that: nothing has been fired, and no function applied.
    pub open spec fn gives_up(self, next: NetworkView<T>) -> bool {
        &&& next == NetworkView {
            sources: next.sources,
            cells: next.cells,
            queues: next.queues,
            ..self
        }
        &&& next.sources.len() == self.sources.len()
        &&& forall|s: int|
            self.is_source(s) ==> {
                let source = #[trigger] next.sources[s];
                &&& source == SourceView {
                    callbacks: source.callbacks,
                    pinned: source.pinned,
                    released: source.released,
                    ended: source.ended,
                    ..self.sources[s]
                }
                &&& !source.ended ==> source.callbacks == self.sources[s].callbacks
                &&& self.sources[s].ended ==> source.ended
            }
        &&& next.cells.len() == self.cells.len()
        &&& forall|k: int|
            self.is_cell(k) ==> {
                let cell = #[trigger] next.cells[k];
                &&& cell == CellView {
                    content: cell.content,
                    released: cell.released,
                    ended: cell.ended,
                    ..self.cells[k]
                }
                &&& !cell.ended ==> cell.content == self.cells[k].content
                &&& self.cells[k].ended ==> cell.ended
            }
        &&& next.queues.len() == self.queues.len()
    }

    /// Whoever had a handle of a sink or a stream has it in `next`, and nobody else
    /// has, but for the source `s`.
    pub open spec fn same_streams_but(self, next: NetworkView<T>, s: int) -> bool {
        forall|t: int|
            self.is_source(t) && t != s ==> {
                &&& (#[trigger] next.sources[t]).pinned == self.sources[t].pinned
                &&& next.sources[t].released == self.sources[t].released
            }
    }

    /// Whoever had a handle of a signal has it in `next`, and nobody else has, but for
    /// the cell `k`.
    pub open spec fn same_signals_but(self, next: NetworkView<T>, k: int) -> bool {
        forall|j: int|
            self.is_cell(j) && j != k ==> (#[trigger] next.cells[j]).released
                == self.cells[j].released
    }

    /// All listeners are in `next` as they were, but for the queue `q`.
    pub open spec fn same_listeners_but(self, next: NetworkView<T>, q: int) -> bool {
        &&& next.queues.len() == self.queues.len()
        &&& forall|p: int|
            self.is_queue(p) && p != q ==> #[trigger] next.queues[p] == self.queues[p]
    }
}

/// What is given up ends what nothing else keeps alive, and changes nothing else.
pub proof fn giving_up_changes_nothing_else<T>(a: NetworkView<T>, b: NetworkView<T>)
    requires
        a.valid(),
        a.lets_go(b),
    ensures
        a.gives_up(b.sweep()),
        a.leads_to(b.sweep()),
        b.same_streams_but(b.sweep(), -1),
        b.same_signals_but(b.sweep(), -1),
        b.same_listeners_but(b.sweep(), -1),
{
    lemma_letting_go_leads_on(a, b);
    let c = b.sweep();
    assert forall|s: int| a.is_source(s) implies #[trigger] c.sources[s] == b.swept_source(s) by {}
    assert forall|k: int| a.is_cell(k) implies #[trigger] c.cells[k] == b.swept_cell(k) by {}
    assert forall|s: int| a.is_source(s) implies ({
        let source = #[trigger] c.sources[s];
        &&& source == SourceView {
            callbacks: source.callbacks,
            pinned: source.pinned,
            released: source.released,
            ended: source.ended,
            ..a.sources[s]
        }
        &&& !source.ended ==> source.callbacks == a.sources[s].callbacks
        &&& a.sources[s].ended ==> source.ended
    }) by {
        assert(a.source_leads_to(c, s));
        assert(b.sources[s].shape == a.sources[s].shape);
        assert(c.sources[s] == b.swept_source(s));
    }
    assert forall|k: int| a.is_cell(k) implies ({
        let cell = #[trigger] c.cells[k];
        &&& cell == CellView {
            content: cell.content,
            released: cell.released,
            ended: cell.ended,
            ..a.cells[k]
        }
        &&& !cell.ended ==> cell.content == a.cells[k].content
        &&& a.cells[k].ended ==> cell.ended
    }) by {
        assert(a.cell_leads_to(c, k));
        assert(b.cells[k].shape == a.cells[k].shape);
        assert(c.cells[k] == b.swept_cell(k));
    }
}

proof fn lemma_own_prefix<X>(x: Seq<X>)
    ensures
        x.is_prefix_of(x),
{
    assert(x =~= x.subrange(0, x.len() as int));
}

proof fn lemma_prefixes<X>(x: Seq<X>, y: Seq<X>, z: Seq<X>)
    requires
        x.is_prefix_of(y),
        y.is_prefix_of(z),
    ensures
        x.is_prefix_of(z),
{
    assert(x =~= z.subrange(0, x.len() as int));
}

/// What comes after what comes after a network comes after it.
pub proof fn leading_on_is_transitive<T>(a: NetworkView<T>, b: NetworkView<T>, c: NetworkView<T>)
    requires
        a.leads_to(b),
        b.leads_to(c),
    ensures
        a.leads_to(c),
{
    assert forall|s: int| a.is_source(s) implies #[trigger] a.source_leads_to(c, s) by {
        assert(a.source_leads_to(b, s));
        assert(b.source_leads_to(c, s));
        lemma_prefixes(a.sources[s].history, b.sources[s].history, c.sources[s].history);
        lemma_prefixes(a.sources[s].causes, b.sources[s].causes, c.sources[s].causes);
        lemma_prefixes(a.sources[s].sides, b.sources[s].sides, c.sources[s].sides);
        lemma_prefixes(a.sources[s].turns, b.sources[s].turns, c.sources[s].turns);
    }
    assert forall|k: int| a.is_cell(k) implies #[trigger] a.cell_leads_to(c, k) by {
        assert(a.cell_leads_to(b, k));
        assert(b.cell_leads_to(c, k));
    }
    assert forall|q: int| a.is_queue(q) implies #[trigger] a.queue_leads_to(c, q) by {
        assert(a.queue_leads_to(b, q));
        assert(b.queue_leads_to(c, q));
        lemma_prefixes(a.queues[q].received, b.queues[q].received, c.queues[q].received);
    }
    lemma_prefixes(a.returned, b.returned, c.returned);
}

/// What is sent leads on.
pub proof fn sending_leads_on<T>(network: NetworkView<T>, next: NetworkView<T>)
    requires
        network.becomes(next),
    ensures
        network.leads_to(next),
{
    assert forall|s: int| network.is_source(s) implies #[trigger] network.source_leads_to(
        next,
        s,
    ) by {
        assert(next.sources[s].shape == network.sources[s].shape);
    }
    assert forall|k: int| network.is_cell(k) implies #[trigger] network.cell_leads_to(
        next,
        k,
    ) by {
        assert(next.cells[k].shape == network.cells[k].shape);
    }
    assert forall|q: int| network.is_queue(q) implies #[trigger] network.queue_leads_to(
        next,
        q,
    ) by {
        assert(next.queues[q].shape == network.queues[q].shape);
    }
}

/// What is made leads on.
pub proof fn building_leads_on<T>(network: NetworkView<T>, next: NetworkView<T>)
    requires
        network.grows_to(next),
    ensures
        network.leads_to(next),
{
    assert forall|s: int| network.is_source(s) implies #[trigger] network.source_leads_to(
        next,
        s,
    ) by {
        let source = network.sources[s];
        assert(next.sources[s].shape == source.shape);
        lemma_own_prefix(source.history);
        lemma_own_prefix(source.causes);
        lemma_own_prefix(source.sides);
        lemma_own_prefix(source.turns);
    }
    assert forall|k: int| network.is_cell(k) implies #[trigger] network.cell_leads_to(
        next,
        k,
    ) by {
        assert(next.cells[k] == network.cells[k]);
    }
    assert forall|q: int| network.is_queue(q) implies #[trigger] network.queue_leads_to(
        next,
        q,
    ) by {
        assert(next.queues[q] == network.queues[q]);
        lemma_own_prefix(network.queues[q].received);
    }
    lemma_own_prefix(network.returned);
}

/// Letting go leads on.
proof fn lemma_letting_go_leads_on<T>(a: NetworkView<T>, b: NetworkView<T>)
    requires
        a.valid(),
        a.lets_go(b),
    ensures
        a.leads_to(b.sweep()),
{
    lemma_lets_go_valid(a, b);
    lemma_sweep_sound(b);
    let c = b.sweep();
    assert forall|s: int| a.is_source(s) implies #[trigger] a.source_leads_to(c, s) by {
        let source = a.sources[s];
        assert(b.sources[s].shape == source.shape);
        assert(c.sources[s] == b.swept_source(s));
        lemma_ended(b);
        lemma_own_prefix(source.history);
        lemma_own_prefix(source.causes);
        lemma_own_prefix(source.sides);
        lemma_own_prefix(source.turns);
    }
    assert forall|k: int| a.is_cell(k) implies #[trigger] a.cell_leads_to(c, k) by {
        assert(b.cells[k].shape == a.cells[k].shape);
        assert(c.cells[k] == b.swept_cell(k));
        lemma_ended(b);
    }
    assert forall|q: int| a.is_queue(q) implies #[trigger] a.queue_leads_to(c, q) by {
        assert(b.queues[q].shape == a.queues[q].shape);
        lemma_own_prefix(a.queues[q].received);
    }
    lemma_own_prefix(a.returned);
}

/// Releasing a stream, a sink or a signal, and closing a listener, leads on.
pub proof fn releasing_leads_on<T>(network: NetworkView<T>, n: int)
    requires
        network.valid(),
    ensures
        network.is_source(n) ==> network.leads_to(network.release(n)),
        network.is_source(n) ==> network.leads_to(network.unpin(n)),
        network.is_cell(n) ==> network.leads_to(network.release_cell(n)),
        network.is_queue(n) ==> network.leads_to(network.close(n)),
{
    let a = network;
    if a.is_source(n) {
        lemma_letting_go_leads_on(a, a.let_go(n));
        let free = SourceView { pinned: false, ..a.sources[n] };
        lemma_letting_go_leads_on(a, a.with_source(n, free));
    }
    if a.is_cell(n) {
        let cell = CellView { released: true, ..a.cells[n] };
        lemma_letting_go_leads_on(a, NetworkView { cells: a.cells.update(n, cell), ..a });
    }
    if a.is_queue(n) {
        lemma_letting_go_leads_on(a, a.shut(n));
    }
}

/// Handing out what a signal holds, or what waits for a listener, leads on.
pub proof fn handing_out_leads_on<T>(network: NetworkView<T>, next: NetworkView<T>)
    requires
        network.hands_out(next),
    ensures
        network.leads_to(next),
{
    lemma_reflexive(network, network.ids());
    sending_leads_on(network, network);
    assert forall|s: int| network.is_source(s) implies #[trigger] network.source_leads_to(
        next,
        s,
    ) by {
        assert(network.source_leads_to(network, s));
        assert(next.sources[s].shape == network.sources[s].shape);
    }
    assert forall|k: int| network.is_cell(k) implies #[trigger] network.cell_leads_to(
        next,
        k,
    ) by {
        assert(network.cell_leads_to(network, k));
    }
    assert forall|p: int| network.is_queue(p) implies #[trigger] network.queue_leads_to(
        next,
        p,
    ) by {
        assert(network.queue_leads_to(network, p));
        assert(next.queues[p].shape == network.queues[p].shape);
    }
}

} // verus!
