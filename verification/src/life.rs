//! What is alive and what has ended.
use crate::consistency::{lemma_in_turn_stays, Progress};
use crate::model::{ContentView, Entry, NetworkView, Origin, Reaction};
use crate::sound::lemma_reflexive;
use crate::value::Value;
use vstd::prelude::*;

verus! {

impl<T> NetworkView<T> {
    /// What a callback acts on is alive.
    pub open spec fn acts_on_something_alive(self, entry: Entry<T>) -> bool {
        match entry.reaction {
            Reaction::Mapped { target, .. } => self.alive(target),
            Reaction::FilterSome { target } => self.alive(target),
            Reaction::Merge { target, .. } => self.alive(target),
            Reaction::Switch { target } => self.alive(target),
            Reaction::Switched { target, token, .. } => self.tokens[token] && self.alive(target),
            Reaction::Snapshot { target, .. } => self.alive(target),
            Reaction::Events { queue } => self.queues[queue].open,
            Reaction::Hold { cell } => self.alive_cell(cell),
            Reaction::ScanMut { cell, .. } => self.alive_cell(cell),
        }
    }

    /// A callback that is live is registered with `next` too.
    pub open spec fn keeps_live(self, next: NetworkView<T>, s: int, i: int) -> bool {
        let entry = self.sources[s].callbacks[i];
        self.live(entry) ==> next.sources[s].callbacks.contains(entry)
    }

    /// Everything that keeps something alive is in `next` too.
    pub open spec fn upholds(self, next: NetworkView<T>) -> bool {
        &&& self.sources.len() <= next.sources.len()
        &&& forall|s: int|
            self.is_source(s) && (#[trigger] self.sources[s]).is_held() ==> next.alive(s)
        &&& forall|k: int|
            self.is_cell(k) && !(#[trigger] self.cells[k]).released ==> next.alive_cell(k)
        &&& forall|s: int, i: int|
            self.is_source(s) && 0 <= i < self.sources[s].callbacks.len()
                ==> #[trigger] self.keeps_live(next, s, i)
        &&& forall|t: int|
            0 <= t < self.tokens.len() && #[trigger] self.tokens[t] ==> next.tokens[t]
        &&& forall|q: int|
            self.is_queue(q) && (#[trigger] self.queues[q]).open ==> next.queues[q].open
        &&& forall|j: int, k: int|
            self.is_cell(k) && #[trigger] self.rests_on(j, k) && self.alive_cell(j)
                ==> next.rests_on(j, k)
        &&& forall|k: int, s: int|
            self.is_source(s) && #[trigger] self.holds_stream(k, s) && self.alive_cell(k)
                ==> next.holds_stream(k, s)
        &&& forall|q: int, i: int, s: int|
            self.is_source(s) && #[trigger] self.waits(q, i, s) ==> next.alive(s)
    }
}

/// What it means that a callback acts on something that is alive after `n`
/// steps.
proof fn lemma_live_at<T>(a: NetworkView<T>, n: nat, entry: Entry<T>)
    ensures
        a.live_at(n, entry) == match entry.reaction {
            Reaction::Mapped { target, .. } => a.alive_at(n, target),
            Reaction::FilterSome { target } => a.alive_at(n, target),
            Reaction::Merge { target, .. } => a.alive_at(n, target),
            Reaction::Switch { target } => a.alive_at(n, target),
            Reaction::Switched { target, token, .. } => a.tokens[token] && a.alive_at(n, target),
            Reaction::Snapshot { target, .. } => a.alive_at(n, target),
            Reaction::Events { queue } => a.queues[queue].open,
            Reaction::Hold { cell } => a.alive_cell_at(n, cell),
            Reaction::ScanMut { cell, .. } => a.alive_cell_at(n, cell),
        },
{
}

/// What is alive after some steps is so after more.
proof fn lemma_alive_later<T>(a: NetworkView<T>, n: nat, m: nat)
    requires
        n <= m,
    ensures
        forall|s: int| #[trigger] a.alive_at(n, s) ==> a.alive_at(m, s),
        forall|k: int| #[trigger] a.alive_cell_at(n, k) ==> a.alive_cell_at(m, k),
        forall|e: Entry<T>| #[trigger] a.live_at(n, e) ==> a.live_at(m, e),
    decreases n,
{
    if n > 0 {
        lemma_alive_later(a, (n - 1) as nat, (m - 1) as nat);
    }
    assert forall|s: int| #[trigger] a.alive_at(n, s) implies a.alive_at(m, s) by {
        if n > 0 && exists|i: int|
            0 <= i < a.sources[s].callbacks.len() && a.live_at(
                (n - 1) as nat,
                #[trigger] a.sources[s].callbacks[i],
            ) {
            let i = choose|i: int|
                0 <= i < a.sources[s].callbacks.len() && a.live_at(
                    (n - 1) as nat,
                    #[trigger] a.sources[s].callbacks[i],
                );
            assert(a.live_at((m - 1) as nat, a.sources[s].callbacks[i]));
        } else if n > 0 && exists|k: int|
            #[trigger] a.holds_stream(k, s) && a.alive_cell_at((n - 1) as nat, k) {
            let k = choose|k: int|
                #[trigger] a.holds_stream(k, s) && a.alive_cell_at((n - 1) as nat, k);
            assert(a.alive_cell_at((m - 1) as nat, k));
        }
    }
    assert forall|k: int| #[trigger] a.alive_cell_at(n, k) implies a.alive_cell_at(m, k) by {
        if a.cells[k].released {
            if exists|j: int|
                #[trigger] a.rests_on(j, k) && a.alive_cell_at((n - 1) as nat, j) {
                let j = choose|j: int|
                    #[trigger] a.rests_on(j, k) && a.alive_cell_at((n - 1) as nat, j);
                assert(a.alive_cell_at((m - 1) as nat, j));
            } else {
                let (s, i) = choose|s: int, i: int|
                    #[trigger] a.samples(s, i, k) && a.live_at(
                        (n - 1) as nat,
                        a.sources[s].callbacks[i],
                    );
                assert(a.live_at((m - 1) as nat, a.sources[s].callbacks[i]));
            }
        }
    }
    assert forall|e: Entry<T>| #[trigger] a.live_at(n, e) implies a.live_at(m, e) by {
        lemma_live_at(a, n, e);
        lemma_live_at(a, m, e);
    }
}

/// A callback is live if what it acts on is alive, and only then.
pub proof fn lemma_live<T>(a: NetworkView<T>, entry: Entry<T>)
    ensures
        a.live(entry) == a.acts_on_something_alive(entry),
{
    if a.live(entry) {
        let n = choose|n: nat| a.live_at(n, entry);
        lemma_live_at(a, n, entry);
    }
    if a.acts_on_something_alive(entry) {
        match entry.reaction {
            Reaction::Events { .. } => {
                lemma_live_at(a, 0, entry);
            },
            Reaction::Mapped { target, .. } => {
                let n = choose|n: nat| a.alive_at(n, target);
                lemma_live_at(a, n, entry);
            },
            Reaction::FilterSome { target } => {
                let n = choose|n: nat| a.alive_at(n, target);
                lemma_live_at(a, n, entry);
            },
            Reaction::Merge { target, .. } => {
                let n = choose|n: nat| a.alive_at(n, target);
                lemma_live_at(a, n, entry);
            },
            Reaction::Switch { target } => {
                let n = choose|n: nat| a.alive_at(n, target);
                lemma_live_at(a, n, entry);
            },
            Reaction::Switched { target, .. } => {
                let n = choose|n: nat| a.alive_at(n, target);
                lemma_live_at(a, n, entry);
            },
            Reaction::Snapshot { target, .. } => {
                let n = choose|n: nat| a.alive_at(n, target);
                lemma_live_at(a, n, entry);
            },
            Reaction::Hold { cell } => {
                let n = choose|n: nat| a.alive_cell_at(n, cell);
                lemma_live_at(a, n, entry);
            },
            Reaction::ScanMut { cell, .. } => {
                let n = choose|n: nat| a.alive_cell_at(n, cell);
                lemma_live_at(a, n, entry);
            },
        }
    }
}

/// A source is alive exactly if somebody has a handle of it or something alive
/// rests on it (a derived source, a switch that follows it, a cell or an open
/// queue), or its stream is held by a cell that is alive or waits in an open queue.
pub proof fn alive_is_held_or_rested_on<T>(network: NetworkView<T>, s: int)
    ensures
        network.alive(s) <==> {
            ||| network.sources[s].is_held()
            ||| exists|i: int|
                0 <= i < network.sources[s].callbacks.len() && network.live(
                    #[trigger] network.sources[s].callbacks[i],
                )
            ||| exists|k: int| #[trigger] network.holds_stream(k, s) && network.alive_cell(k)
            ||| exists|q: int, i: int| #[trigger] network.waits(q, i, s)
        },
{
    if network.alive(s) {
        let n = choose|n: nat| network.alive_at(n, s);
        if n > 0 && exists|i: int|
            0 <= i < network.sources[s].callbacks.len() && network.live_at(
                (n - 1) as nat,
                #[trigger] network.sources[s].callbacks[i],
            ) {
            let i = choose|i: int|
                0 <= i < network.sources[s].callbacks.len() && network.live_at(
                    (n - 1) as nat,
                    #[trigger] network.sources[s].callbacks[i],
                );
            assert(network.live(network.sources[s].callbacks[i]));
        } else if n > 0 && exists|k: int|
            #[trigger] network.holds_stream(k, s) && network.alive_cell_at((n - 1) as nat, k) {
            let k = choose|k: int|
                #[trigger] network.holds_stream(k, s) && network.alive_cell_at((n - 1) as nat, k);
            assert(network.alive_cell(k));
        }
    }
    if exists|k: int| #[trigger] network.holds_stream(k, s) && network.alive_cell(k) {
        let k = choose|k: int| #[trigger] network.holds_stream(k, s) && network.alive_cell(k);
        let n = choose|n: nat| network.alive_cell_at(n, k);
        assert(network.alive_at(n + 1, s));
    }
    if exists|q: int, i: int| #[trigger] network.waits(q, i, s) {
        assert(network.alive_at(0, s));
    }
    if network.sources[s].is_held() {
        assert(network.alive_at(0, s));
    }
    if exists|i: int|
        0 <= i < network.sources[s].callbacks.len() && network.live(
            #[trigger] network.sources[s].callbacks[i],
        ) {
        let i = choose|i: int|
            0 <= i < network.sources[s].callbacks.len() && network.live(
                #[trigger] network.sources[s].callbacks[i],
            );
        let entry = network.sources[s].callbacks[i];
        let n = choose|n: nat| network.live_at(n, entry);
        assert(network.alive_at(n + 1, s));
    }
}

/// A cell is alive exactly if somebody has a handle of it or something alive
/// rests on it: another cell, or the source of a snapshot.
pub proof fn alive_cell_is_held_or_rested_on<T>(network: NetworkView<T>, k: int)
    ensures
        network.alive_cell(k) <==> {
            ||| !network.cells[k].released
            ||| exists|j: int| #[trigger] network.rests_on(j, k) && network.alive_cell(j)
            ||| exists|s: int, i: int|
                #[trigger] network.samples(s, i, k) && network.live(
                    network.sources[s].callbacks[i],
                )
        },
{
    if network.alive_cell(k) {
        let n = choose|n: nat| network.alive_cell_at(n, k);
        if network.cells[k].released {
            if exists|j: int|
                #[trigger] network.rests_on(j, k) && network.alive_cell_at((n - 1) as nat, j) {
                let j = choose|j: int|
                    #[trigger] network.rests_on(j, k) && network.alive_cell_at((n - 1) as nat, j);
                assert(network.alive_cell(j));
            } else {
                let (s, i) = choose|s: int, i: int|
                    #[trigger] network.samples(s, i, k) && network.live_at(
                        (n - 1) as nat,
                        network.sources[s].callbacks[i],
                    );
                assert(network.live(network.sources[s].callbacks[i]));
            }
        }
    }
    if !network.cells[k].released {
        assert(network.alive_cell_at(0, k));
    }
    if exists|j: int| #[trigger] network.rests_on(j, k) && network.alive_cell(j) {
        let j = choose|j: int| #[trigger] network.rests_on(j, k) && network.alive_cell(j);
        let n = choose|n: nat| network.alive_cell_at(n, j);
        assert(network.alive_cell_at(n + 1, k));
    }
    if exists|s: int, i: int|
        #[trigger] network.samples(s, i, k) && network.live(network.sources[s].callbacks[i]) {
        let (s, i) = choose|s: int, i: int|
            #[trigger] network.samples(s, i, k) && network.live(network.sources[s].callbacks[i]);
        let entry = network.sources[s].callbacks[i];
        let n = choose|n: nat| network.live_at(n, entry);
        assert(network.live_at(n, entry));
        assert(network.alive_cell_at(n + 1, k));
    }
}

/// What has ended is not alive.
proof fn lemma_ended_at<T>(a: NetworkView<T>, n: nat)
    requires
        a.sound(),
    ensures
        forall|s: int| a.is_source(s) && #[trigger] a.alive_at(n, s) ==> !a.sources[s].ended,
        forall|k: int| a.is_cell(k) && #[trigger] a.alive_cell_at(n, k) ==> !a.cells[k].ended,
        forall|s: int, e: Entry<T>|
            #![trigger a.sound_entry(s, e), a.live_at(n, e)]
            a.sound_entry(s, e) && a.live_at(n, e) ==> !a.disappeared(e),
    decreases n,
{
    if n > 0 {
        lemma_ended_at(a, (n - 1) as nat);
    }
    assert forall|s: int| a.is_source(s) && #[trigger] a.alive_at(n, s) implies
        !a.sources[s].ended by {
        assert(a.sound_source(s));
        if a.sources[s].ended {
            let i = choose|i: int|
                0 <= i < a.sources[s].callbacks.len() && a.live_at(
                    (n - 1) as nat,
                    #[trigger] a.sources[s].callbacks[i],
                );
            assert(a.sound_entry(s, a.sources[s].callbacks[i]));
        }
    }
    assert forall|k: int| a.is_cell(k) && #[trigger] a.alive_cell_at(n, k) implies
        !a.cells[k].ended by {
        assert(a.sound_cell(k));
        if a.cells[k].released {
            if exists|j: int|
                #[trigger] a.rests_on(j, k) && a.alive_cell_at((n - 1) as nat, j) {
                let j = choose|j: int|
                    #[trigger] a.rests_on(j, k) && a.alive_cell_at((n - 1) as nat, j);
                assert(a.sound_cell(j));
            } else {
                let (s, i) = choose|s: int, i: int|
                    #[trigger] a.samples(s, i, k) && a.live_at(
                        (n - 1) as nat,
                        a.sources[s].callbacks[i],
                    );
                assert(a.sound_source(s));
                assert(a.sound_entry(s, a.sources[s].callbacks[i]));
            }
        }
    }
    assert forall|s: int, e: Entry<T>|
        #![trigger a.sound_entry(s, e), a.live_at(n, e)]
        a.sound_entry(s, e) && a.live_at(n, e) implies !a.disappeared(e) by {
        lemma_live_at(a, n, e);
    }
}

/// What has ended is not alive, and what has disappeared is not live.
pub proof fn lemma_ended<T>(a: NetworkView<T>)
    requires
        a.sound(),
    ensures
        forall|s: int| a.is_source(s) && #[trigger] a.alive(s) ==> !a.sources[s].ended,
        forall|k: int| a.is_cell(k) && #[trigger] a.alive_cell(k) ==> !a.cells[k].ended,
        forall|s: int, e: Entry<T>|
            #![trigger a.sound_entry(s, e), a.live(e)]
            a.sound_entry(s, e) && a.live(e) ==> !a.disappeared(e),
{
    assert forall|s: int| a.is_source(s) && #[trigger] a.alive(s) implies !a.sources[s].ended by {
        let n = choose|n: nat| a.alive_at(n, s);
        lemma_ended_at(a, n);
    }
    assert forall|k: int| a.is_cell(k) && #[trigger] a.alive_cell(k) implies
        !a.cells[k].ended by {
        let n = choose|n: nat| a.alive_cell_at(n, k);
        lemma_ended_at(a, n);
    }
    assert forall|s: int, e: Entry<T>|
        #![trigger a.sound_entry(s, e), a.live(e)]
        a.sound_entry(s, e) && a.live(e) implies !a.disappeared(e) by {
        let n = choose|n: nat| a.live_at(n, e);
        lemma_ended_at(a, n);
    }
}

/// In a network in which exactly what is not alive has ended, a callback has
/// disappeared if it is not live, and only then.
pub proof fn lemma_swept_live<T>(a: NetworkView<T>, s: int, entry: Entry<T>)
    requires
        a.swept(),
        a.sound_entry(s, entry),
    ensures
        a.disappeared(entry) == !a.live(entry),
{
    lemma_live(a, entry);
    match entry.reaction {
        Reaction::Hold { cell } => {
            assert(a.cells[cell].ended == !a.alive_cell(cell));
        },
        Reaction::ScanMut { cell, .. } => {
            assert(a.cells[cell].ended == !a.alive_cell(cell));
        },
        Reaction::Mapped { target, .. } => {
            assert(a.sources[target].ended == !a.alive(target));
        },
        Reaction::FilterSome { target } => {
            assert(a.sources[target].ended == !a.alive(target));
        },
        Reaction::Merge { target, .. } => {
            assert(a.sources[target].ended == !a.alive(target));
        },
        Reaction::Switch { target } => {
            assert(a.sources[target].ended == !a.alive(target));
        },
        Reaction::Switched { target, .. } => {
            assert(a.sources[target].ended == !a.alive(target));
        },
        Reaction::Snapshot { target, .. } => {
            assert(a.sources[target].ended == !a.alive(target));
        },
        Reaction::Events { queue } => {},
    }
}

/// What is alive stays so while all that keeps it alive does.
proof fn lemma_upholds_at<T>(a: NetworkView<T>, b: NetworkView<T>, n: nat)
    requires
        a.sound(),
        a.upholds(b),
    ensures
        forall|s: int| a.is_source(s) && #[trigger] a.alive_at(n, s) ==> b.alive(s),
        forall|k: int| a.is_cell(k) && #[trigger] a.alive_cell_at(n, k) ==> b.alive_cell(k),
        forall|s: int, e: Entry<T>|
            #![trigger a.sound_entry(s, e), a.live_at(n, e)]
            a.sound_entry(s, e) && a.live_at(n, e) ==> b.live(e),
    decreases n,
{
    if n > 0 {
        lemma_upholds_at(a, b, (n - 1) as nat);
    }
    assert forall|s: int| a.is_source(s) && #[trigger] a.alive_at(n, s) implies b.alive(s) by {
        if a.sources[s].is_held() {
        } else if exists|q: int, i: int| #[trigger] a.waits(q, i, s) {
            let (q, i) = choose|q: int, i: int| #[trigger] a.waits(q, i, s);
            assert(b.alive(s));
        } else if exists|k: int|
            #[trigger] a.holds_stream(k, s) && a.alive_cell_at((n - 1) as nat, k) {
            let k = choose|k: int|
                #[trigger] a.holds_stream(k, s) && a.alive_cell_at((n - 1) as nat, k);
            assert(a.alive_cell(k));
            assert(b.holds_stream(k, s));
            assert(b.alive_cell(k));
            alive_is_held_or_rested_on(b, s);
        } else {
            let i = choose|i: int|
                0 <= i < a.sources[s].callbacks.len() && a.live_at(
                    (n - 1) as nat,
                    #[trigger] a.sources[s].callbacks[i],
                );
            let entry = a.sources[s].callbacks[i];
            assert(a.sound_source(s));
            assert(a.sound_entry(s, entry));
            assert(a.live(entry));
            assert(a.keeps_live(b, s, i));
            let j = choose|j: int|
                0 <= j < b.sources[s].callbacks.len() && b.sources[s].callbacks[j] == entry;
            assert(b.live(b.sources[s].callbacks[j]));
            alive_is_held_or_rested_on(b, s);
        }
    }
    assert forall|k: int| a.is_cell(k) && #[trigger] a.alive_cell_at(n, k) implies
        b.alive_cell(k) by {
        if a.cells[k].released {
            if exists|j: int|
                #[trigger] a.rests_on(j, k) && a.alive_cell_at((n - 1) as nat, j) {
                let j = choose|j: int|
                    #[trigger] a.rests_on(j, k) && a.alive_cell_at((n - 1) as nat, j);
                assert(a.alive_cell(j));
                assert(b.rests_on(j, k));
                assert(b.alive_cell(j));
                alive_cell_is_held_or_rested_on(b, k);
            } else {
                let (s, i) = choose|s: int, i: int|
                    #[trigger] a.samples(s, i, k) && a.live_at(
                        (n - 1) as nat,
                        a.sources[s].callbacks[i],
                    );
                let entry = a.sources[s].callbacks[i];
                assert(a.sound_source(s));
                assert(a.sound_entry(s, entry));
                assert(a.live(entry));
                assert(a.keeps_live(b, s, i));
                let j = choose|j: int|
                    0 <= j < b.sources[s].callbacks.len() && b.sources[s].callbacks[j] == entry;
                assert(b.samples(s, j, k));
                assert(b.live(b.sources[s].callbacks[j]));
                alive_cell_is_held_or_rested_on(b, k);
            }
        }
    }
    assert forall|s: int, e: Entry<T>|
        #![trigger a.sound_entry(s, e), a.live_at(n, e)]
        a.sound_entry(s, e) && a.live_at(n, e) implies b.live(e) by {
        lemma_live_at(a, n, e);
        lemma_live(b, e);
    }
}

/// What is alive stays so while all that keeps it alive does.
pub proof fn lemma_upholds<T>(a: NetworkView<T>, b: NetworkView<T>)
    requires
        a.sound(),
        a.upholds(b),
    ensures
        forall|s: int| a.is_source(s) && #[trigger] a.alive(s) ==> b.alive(s),
        forall|k: int| a.is_cell(k) && #[trigger] a.alive_cell(k) ==> b.alive_cell(k),
{
    assert forall|s: int| a.is_source(s) && #[trigger] a.alive(s) implies b.alive(s) by {
        let n = choose|n: nat| a.alive_at(n, s);
        lemma_upholds_at(a, b, n);
    }
    assert forall|k: int| a.is_cell(k) && #[trigger] a.alive_cell(k) implies b.alive_cell(k) by {
        let n = choose|n: nat| a.alive_cell_at(n, k);
        lemma_upholds_at(a, b, n);
    }
}

/// What somebody has a handle of is alive.
pub proof fn lemma_held_is_alive<T>(a: NetworkView<T>)
    ensures
        forall|s: int| (#[trigger] a.sources[s]).is_held() ==> a.alive(s),
        forall|k: int| !(#[trigger] a.cells[k]).released ==> a.alive_cell(k),
{
    assert forall|s: int| (#[trigger] a.sources[s]).is_held() implies a.alive(s) by {
        assert(a.alive_at(0, s));
    }
    assert forall|k: int| !(#[trigger] a.cells[k]).released implies a.alive_cell(k) by {
        assert(a.alive_cell_at(0, k));
    }
}

/// Sweeping ends what is not alive, and nothing that is; all else stays.
pub proof fn lemma_sweep_sound<T>(a: NetworkView<T>)
    requires
        a.sound(),
    ensures
        a.sweep().sound(),
        a.becomes(a.sweep()),
        a.sweep().swept(),
        forall|s: int| a.is_source(s) ==> #[trigger] a.sweep().alive(s) == a.alive(s),
        forall|k: int| a.is_cell(k) ==> #[trigger] a.sweep().alive_cell(k) == a.alive_cell(k),
{
    let b = a.sweep();
    lemma_held_is_alive(a);
    lemma_held_is_alive(b);
    lemma_ended(a);
    assert forall|s: int| a.is_source(s) implies (#[trigger] b.sources[s]) == a.swept_source(
        s,
    ) by {}
    assert forall|s: int, i: int|
        a.is_source(s) && 0 <= i < a.sources[s].callbacks.len() implies
        #[trigger] a.keeps_live(b, s, i) by {
        if a.live(a.sources[s].callbacks[i]) {
            alive_is_held_or_rested_on(a, s);
            assert(b.sources[s].callbacks[i] == a.sources[s].callbacks[i]);
        }
    }
    assert forall|s: int| a.is_source(s) implies (#[trigger] b.sources[s]).is_held()
        == a.sources[s].is_held() by {}
    assert(a.upholds(b)) by {
        assert forall|s: int| a.is_source(s) && (#[trigger] a.sources[s]).is_held() implies
            b.alive(s) by {
            assert(b.sources[s].is_held());
        }
        assert forall|k: int| a.is_cell(k) && !(#[trigger] a.cells[k]).released implies
            b.alive_cell(k) by {
            assert(!b.cells[k].released);
        }
        assert forall|j: int, k: int|
            a.is_cell(k) && #[trigger] a.rests_on(j, k) && a.alive_cell(j) implies
            b.rests_on(j, k) by {
            assert(b.cells[j] == a.swept_cell(j));
        }
        assert forall|k: int, s: int|
            a.is_source(s) && #[trigger] a.holds_stream(k, s) && a.alive_cell(k) implies
            b.holds_stream(k, s) by {
            assert(b.cells[k] == a.swept_cell(k));
            alive_is_held_or_rested_on(a, s);
            assert(b.sources[s] == a.swept_source(s));
        }
        assert forall|q: int, i: int, s: int|
            a.is_source(s) && #[trigger] a.waits(q, i, s) implies b.alive(s) by {
            alive_is_held_or_rested_on(a, s);
            assert(b.sources[s] == a.swept_source(s));
            assert(b.waits(q, i, s));
            alive_is_held_or_rested_on(b, s);
        }
    }
    lemma_upholds(a, b);
    // The other way round.
    assert forall|s: int| b.is_source(s) implies #[trigger] b.sound_source(s) by {
        assert(a.sound_source(s));
        assert forall|i: int| 0 <= i < b.sources[s].callbacks.len() implies b.sound_entry(
            s,
            #[trigger] b.sources[s].callbacks[i],
        ) by {
            assert(a.alive(s));
            let entry = a.sources[s].callbacks[i];
            assert(b.sources[s].callbacks[i] == entry);
            assert(a.sound_entry(s, entry));
            match entry.reaction {
                Reaction::Snapshot { signal, f, target } => {
                    assert(b.sources[target] == a.swept_source(target));
                    assert(b.cells[signal] == a.swept_cell(signal));
                    if a.alive(target) {
                        lemma_live(a, entry);
                        assert(a.samples(s, i, signal));
                        alive_cell_is_held_or_rested_on(a, signal);
                    }
                },
                Reaction::Mapped { target, .. } => {
                    assert(b.sources[target] == a.swept_source(target));
                },
                Reaction::FilterSome { target } => {
                    assert(b.sources[target] == a.swept_source(target));
                },
                Reaction::Merge { target, .. } => {
                    assert(b.sources[target] == a.swept_source(target));
                },
                Reaction::Switch { target } => {
                    assert(b.sources[target] == a.swept_source(target));
                },
                Reaction::Switched { target, .. } => {
                    assert(b.sources[target] == a.swept_source(target));
                },
                Reaction::Hold { cell } => {
                    assert(b.cells[cell] == a.swept_cell(cell));
                },
                Reaction::ScanMut { cell, .. } => {
                    assert(b.cells[cell] == a.swept_cell(cell));
                },
                Reaction::Events { queue } => {},
            }
        }
    }
    assert forall|k: int| b.is_cell(k) implies #[trigger] b.sound_cell(k) by {
        assert(a.sound_cell(k));
        assert(b.cells[k] == a.swept_cell(k));
        match a.cells[k].content {
            ContentView::Alias(j) => {
                assert(b.cells[j] == a.swept_cell(j));
                if a.alive_cell(k) {
                    assert(a.rests_on(k, j));
                    alive_cell_is_held_or_rested_on(a, j);
                }
            },
            ContentView::Combined { state, other, f } => {
                assert(b.cells[state] == a.swept_cell(state));
                assert(b.cells[other] == a.swept_cell(other));
                if a.alive_cell(k) {
                    assert(a.rests_on(k, state));
                    assert(a.rests_on(k, other));
                    alive_cell_is_held_or_rested_on(a, state);
                    alive_cell_is_held_or_rested_on(a, other);
                }
            },
            _ => {},
        }
    }
    assert forall|q: int| b.is_queue(q) implies #[trigger] b.sound_queue(q) by {
        assert(a.sound_queue(q));
    }
    assert(b.upholds(a)) by {
        assert forall|s: int| b.is_source(s) && (#[trigger] b.sources[s]).is_held() implies
            a.alive(s) by {
            assert(a.sources[s].is_held());
        }
        assert forall|k: int| b.is_cell(k) && !(#[trigger] b.cells[k]).released implies
            a.alive_cell(k) by {
            assert(!a.cells[k].released);
        }
        assert forall|s: int, i: int|
            b.is_source(s) && 0 <= i < b.sources[s].callbacks.len() implies
            #[trigger] b.keeps_live(a, s, i) by {
            assert(a.sources[s].callbacks[i] == b.sources[s].callbacks[i]);
        }
        assert forall|j: int, k: int| b.is_cell(k) && #[trigger] b.rests_on(j, k) implies
            a.rests_on(j, k) by {
            assert(b.cells[j] == a.swept_cell(j));
        }
        assert forall|k: int, s: int|
            b.is_source(s) && #[trigger] b.holds_stream(k, s) && b.alive_cell(k) implies
            a.holds_stream(k, s) by {
            assert(b.cells[k] == a.swept_cell(k));
            assert(b.sources[s] == a.swept_source(s));
        }
        assert forall|q: int, i: int, s: int|
            b.is_source(s) && #[trigger] b.waits(q, i, s) implies a.alive(s) by {
            assert(b.sources[s] == a.swept_source(s));
        }
    }
    lemma_upholds(b, a);
    lemma_reflexive(a, a.ids());
    assert(a.becomes(b)) by {
        assert forall|s: int| a.is_source(s) implies {
            let source = #[trigger] b.sources[s];
            &&& a.sources[s].history.is_prefix_of(source.history)
            &&& a.sources[s].causes.is_prefix_of(source.causes)
            &&& a.sources[s].sides.is_prefix_of(source.sides)
            &&& a.sources[s].turns.is_prefix_of(source.turns)
        } by {
            assert(a.sources[s].history.is_prefix_of(a.sources[s].history));
        }
    }
}

/// Where exactly what is not alive has ended, there is nothing to sweep.
pub proof fn lemma_swept<T>(a: NetworkView<T>)
    requires
        a.sound(),
        a.swept(),
    ensures
        a.sweep() == a,
{
    assert forall|s: int| a.is_source(s) implies a.swept_source(s) == #[trigger] a.sources[s] by {
        if a.sources[s].ended {
            assert(a.sources[s].callbacks =~= Seq::empty());
        }
    }
    assert(a.sweep().sources =~= a.sources);
    assert forall|k: int| a.is_cell(k) implies a.swept_cell(k) == #[trigger] a.cells[k] by {
        assert(a.sound_cell(k));
    }
    assert(a.sweep().cells =~= a.cells);
}

/// Sweeping keeps a network consistent.
pub proof fn lemma_sweep_consistent<T>(a: NetworkView<T>)
    requires
        a.sound(),
        a.consistent(),
    ensures
        a.sweep().consistent(),
{
    let b = a.sweep();
    let none: Progress = Map::empty();
    lemma_sweep_sound(a);
    lemma_ended(a);
    assert forall|s: int| a.is_source(s) implies (#[trigger] b.sources[s]) == a.swept_source(
        s,
    ) by {}
    // What had disappeared has.
    assert forall|s: int, i: int| b.is_callback(s, i) implies ({
        let entry = #[trigger] b.sources[s].callbacks[i];
        &&& a.is_callback(s, i)
        &&& a.sources[s].callbacks[i] == entry
        &&& a.sound_entry(s, entry)
        &&& a.disappeared(entry) ==> b.disappeared(entry)
    }) by {
        assert(a.alive(s));
        assert(a.sound_source(s));
        let entry = a.sources[s].callbacks[i];
        assert(a.sound_entry(s, entry));
        lemma_swept_disappeared(a, s, entry);
    }
    assert forall|s: int, i: int| b.is_callback(s, i) implies #[trigger] b.up_to_date(
        none,
        s,
        i,
    ) by {
        let entry = b.sources[s].callbacks[i];
        assert(a.up_to_date(none, s, i));
        assert(b.heard(s, entry, 0) == a.heard(s, entry, 0));
        lemma_swept_effect(a, s, entry, a.heard(s, entry, 0));
    }
    assert forall|s: int, i: int, t: int, j: int|
        b.is_callback(s, i) && b.is_callback(t, j) implies #[trigger] b.apart(s, i, t, j) by {
        assert(a.apart(s, i, t, j));
        let x = b.sources[s].callbacks[i];
        let y = b.sources[t].callbacks[j];
        assert(a.sources[s].callbacks[i] == x && a.sources[t].callbacks[j] == y);
    }
    assert forall|s: int, reaction: Reaction<T>, since: nat|
        #![trigger a.has(s, reaction, since)]
        a.has(s, reaction, since) && a.acts_on_something_alive(
            Entry { reaction, since },
        ) implies b.has(s, reaction, since) by {
        let entry = Entry { reaction, since };
        let i = choose|i: int|
            0 <= i < a.sources[s].callbacks.len() && a.sources[s].callbacks[i] == entry;
        lemma_live(a, entry);
        assert(a.live(a.sources[s].callbacks[i]));
        alive_is_held_or_rested_on(a, s);
        assert(b.sources[s].callbacks == a.sources[s].callbacks);
    }
    assert forall|m: int| b.is_source(m) implies #[trigger] b.fed_source(m) by {
        assert(a.fed_source(m));
        if !b.sources[m].ended {
            assert(a.alive(m));
            match a.sources[m].origin {
                Origin::Switch { parent, since } => {
                    assert(a.has(parent, Reaction::Switch { target: m }, since));
                    assert forall|s: int| a.is_source(s) implies a.sources[s].history.is_prefix_of(
                        (#[trigger] b.sources[s]).history,
                    ) by {
                        let x = a.sources[s].history;
                        assert(x =~= x.subrange(0, x.len() as int));
                    }
                    lemma_in_turn_stays(a, b, m);
                    if a.sources[m].turns.len() > 0 {
                        assert(a.follows(m));
                        assert(b.follows(m));
                    }
                },
                Origin::Snapshot { parent, since, signal, f } => {
                    let entry = Entry {
                        reaction: Reaction::Snapshot { signal, f, target: m },
                        since,
                    };
                    assert(a.has(parent, entry.reaction, since));
                    let i = choose|i: int|
                        0 <= i < a.sources[parent].callbacks.len() && a.sources[parent].callbacks[i]
                            == entry;
                    lemma_live(a, entry);
                    assert(a.samples(parent, i, signal));
                    alive_cell_is_held_or_rested_on(a, signal);
                    assert(a.sound_cell(signal));
                    if a.resolve(signal) != signal {
                        assert(a.rests_on(signal, a.resolve(signal)));
                        alive_cell_is_held_or_rested_on(a, a.resolve(signal));
                    }
                    assert(b.cells[signal] == a.swept_cell(signal));
                    let cell = a.resolve(signal);
                    assert(b.cells[cell] == a.swept_cell(cell));
                    assert(b.own_samples(m));
                },
                _ => {},
            }
        }
    }
    assert forall|k: int| b.is_cell(k) implies #[trigger] b.fed_cell(k) by {
        assert(a.fed_cell(k));
        assert(b.cells[k] == a.swept_cell(k));
        if !b.cells[k].ended {
            assert(a.alive_cell(k));
        }
    }
    assert forall|q: int| b.is_queue(q) implies #[trigger] b.fed_queue(q) by {
        assert(a.fed_queue(q));
    }
    assert forall|m: int, n: int|
        b.is_source(m) && b.is_source(n) && m != n && (#[trigger] b.sources[m]).terminate
            is Some implies b.sources[m].terminate != (#[trigger] b.sources[n]).terminate by {
        assert(a.sources[m].terminate != a.sources[n].terminate);
    }
}

/// What had disappeared has done so after a sweep.
proof fn lemma_swept_disappeared<T>(a: NetworkView<T>, s: int, entry: Entry<T>)
    requires
        a.sound(),
        a.sound_entry(s, entry),
    ensures
        a.disappeared(entry) ==> a.sweep().disappeared(entry),
{
    let b = a.sweep();
    lemma_ended(a);
    match entry.reaction {
        Reaction::Mapped { target, .. } => {
            assert(b.sources[target] == a.swept_source(target));
        },
        Reaction::FilterSome { target } => {
            assert(b.sources[target] == a.swept_source(target));
        },
        Reaction::Merge { target, .. } => {
            assert(b.sources[target] == a.swept_source(target));
        },
        Reaction::Switch { target } => {
            assert(b.sources[target] == a.swept_source(target));
        },
        Reaction::Switched { target, .. } => {
            assert(b.sources[target] == a.swept_source(target));
        },
        Reaction::Snapshot { target, .. } => {
            assert(b.sources[target] == a.swept_source(target));
        },
        Reaction::Hold { cell } => {
            assert(b.cells[cell] == a.swept_cell(cell));
        },
        Reaction::ScanMut { cell, .. } => {
            assert(b.cells[cell] == a.swept_cell(cell));
        },
        Reaction::Events { .. } => {},
    }
}

/// The effect of a callback is as before a sweep.
proof fn lemma_swept_effect<T>(
    a: NetworkView<T>,
    s: int,
    entry: Entry<T>,
    heard: Seq<Value<T>>,
)
    requires
        a.sound(),
        a.sound_entry(s, entry),
        a.holds(s, entry, heard),
    ensures
        a.sweep().holds(s, entry, heard),
{
    let b = a.sweep();
    lemma_swept_disappeared(a, s, entry);
    match entry.reaction {
        Reaction::Mapped { target, .. } => {
            assert(b.sources[target] == a.swept_source(target));
        },
        Reaction::FilterSome { target } => {
            assert(b.sources[target] == a.swept_source(target));
        },
        Reaction::Merge { target, .. } => {
            assert(b.sources[target] == a.swept_source(target));
        },
        Reaction::Switch { target } => {
            assert(b.sources[target] == a.swept_source(target));
            assert(b.sources[target].turns == a.sources[target].turns);
        },
        Reaction::Switched { target, .. } => {
            assert(b.sources[target] == a.swept_source(target));
        },
        Reaction::Snapshot { target, .. } => {
            assert(b.sources[target] == a.swept_source(target));
            assert(b.sources[target].history == a.sources[target].history);
            assert(b.sources[target].causes == a.sources[target].causes);
        },
        Reaction::Hold { cell } => {
            assert(b.cells[cell] == a.swept_cell(cell));
        },
        Reaction::ScanMut { cell, .. } => {
            assert(b.cells[cell] == a.swept_cell(cell));
        },
        Reaction::Events { .. } => {},
    }
}

// ---- Marks ----

/// How many are not marked.
pub open spec fn unmarked(marks: Seq<bool>) -> nat
    decreases marks.len(),
{
    if marks.len() == 0 {
        0
    } else {
        unmarked(marks.drop_last()) + if marks.last() {
            0nat
        } else {
            1nat
        }
    }
}

/// Marking one that was not marked leaves fewer.
pub proof fn lemma_mark(marks: Seq<bool>, i: int)
    requires
        0 <= i < marks.len(),
        !marks[i],
    ensures
        unmarked(marks.update(i, true)) + 1 == unmarked(marks),
    decreases marks.len(),
{
    let more = marks.update(i, true);
    if i == marks.len() - 1 {
        assert(more.drop_last() =~= marks.drop_last());
    } else {
        assert(more.drop_last() =~= marks.drop_last().update(i, true));
        lemma_mark(marks.drop_last(), i);
    }
}

impl<T> NetworkView<T> {
    /// What a callback acts on is marked.
    pub open spec fn lit_by(self, sources: Seq<bool>, cells: Seq<bool>, entry: Entry<T>) -> bool {
        match entry.reaction {
            Reaction::Mapped { target, .. } => sources[target],
            Reaction::FilterSome { target } => sources[target],
            Reaction::Merge { target, .. } => sources[target],
            Reaction::Switch { target } => sources[target],
            Reaction::Switched { target, token, .. } => self.tokens[token] && sources[target],
            Reaction::Snapshot { target, .. } => sources[target],
            Reaction::Events { queue } => self.queues[queue].open,
            Reaction::Hold { cell } => cells[cell],
            Reaction::ScanMut { cell, .. } => cells[cell],
        }
    }

    /// The marks are those of sources and cells of this network that are alive,
    /// among them all of which somebody has a handle and all that wait for somebody.
    pub open spec fn marked(self, sources: Seq<bool>, cells: Seq<bool>) -> bool {
        &&& sources.len() == self.sources.len()
        &&& cells.len() == self.cells.len()
        &&& forall|s: int| self.is_source(s) && #[trigger] sources[s] ==> self.alive(s)
        &&& forall|k: int| self.is_cell(k) && #[trigger] cells[k] ==> self.alive_cell(k)
        &&& forall|s: int|
            self.is_source(s) && (#[trigger] self.sources[s]).is_held() ==> sources[s]
        &&& forall|k: int| self.is_cell(k) && !(#[trigger] self.cells[k]).released ==> cells[k]
        &&& forall|q: int, i: int, s: int|
            self.is_source(s) && #[trigger] self.waits(q, i, s) ==> sources[s]
    }

    /// The callback `i` of the source `s` adds no mark.
    pub open spec fn adds_none(
        self,
        sources: Seq<bool>,
        cells: Seq<bool>,
        s: int,
        i: int,
    ) -> bool {
        let entry = self.sources[s].callbacks[i];
        self.lit_by(sources, cells, entry) ==> {
            &&& sources[s]
            &&& entry.reaction matches Reaction::Snapshot { signal, .. } ==> cells[signal]
        }
    }

    /// What the cell `j` rests on, and the streams that it holds, are marked if it
    /// is.
    pub open spec fn rests_on_marked(
        self,
        sources: Seq<bool>,
        cells: Seq<bool>,
        j: int,
    ) -> bool {
        cells[j] ==> match self.cells[j].content {
            ContentView::Alias(k) => cells[k],
            ContentView::Combined { state, other, .. } => cells[state] && cells[other],
            ContentView::Held(v) => forall|s: int|
                self.is_source(s) && #[trigger] self.mentions(v, s) ==> sources[s],
            ContentView::Undefined => true,
        }
    }

    /// No mark is missing.
    pub open spec fn all_marked(self, sources: Seq<bool>, cells: Seq<bool>) -> bool {
        &&& forall|s: int, i: int|
            self.is_source(s) && 0 <= i < self.sources[s].callbacks.len()
                ==> #[trigger] self.adds_none(sources, cells, s, i)
        &&& forall|j: int|
            self.is_cell(j) ==> #[trigger] self.rests_on_marked(sources, cells, j)
    }
}

/// A callback that acts on something marked is live, and so is what it belongs
/// to.
pub proof fn lemma_lit<T>(
    a: NetworkView<T>,
    sources: Seq<bool>,
    cells: Seq<bool>,
    s: int,
    i: int,
)
    requires
        a.sound(),
        a.marked(sources, cells),
        a.is_source(s),
        0 <= i < a.sources[s].callbacks.len(),
        a.lit_by(sources, cells, a.sources[s].callbacks[i]),
    ensures
        a.alive(s),
        a.sources[s].callbacks[i].reaction matches Reaction::Snapshot { signal, .. } ==> a.is_cell(
            signal,
        ) && a.alive_cell(signal),
{
    let entry = a.sources[s].callbacks[i];
    assert(a.sound_source(s));
    assert(a.sound_entry(s, entry));
    lemma_live(a, entry);
    assert(a.live(a.sources[s].callbacks[i]));
    alive_is_held_or_rested_on(a, s);
    if let Reaction::Snapshot { signal, .. } = entry.reaction {
        assert(a.samples(s, i, signal));
        alive_cell_is_held_or_rested_on(a, signal);
    }
}

/// What a marked cell rests on is alive.
pub proof fn lemma_lit_cell<T>(a: NetworkView<T>, sources: Seq<bool>, cells: Seq<bool>, j: int)
    requires
        a.sound(),
        a.marked(sources, cells),
        a.is_cell(j),
        cells[j],
    ensures
        match a.cells[j].content {
            ContentView::Alias(k) => a.is_cell(k) && a.alive_cell(k),
            ContentView::Combined { state, other, .. } => a.is_cell(state) && a.is_cell(other)
                && a.alive_cell(state) && a.alive_cell(other),
            ContentView::Held(v) => forall|s: int|
                a.is_source(s) && #[trigger] a.mentions(v, s) ==> a.alive(s),
            ContentView::Undefined => true,
        },
{
    assert(a.sound_cell(j));
    match a.cells[j].content {
        ContentView::Alias(k) => {
            assert(a.rests_on(j, k));
            alive_cell_is_held_or_rested_on(a, k);
        },
        ContentView::Combined { state, other, .. } => {
            assert(a.rests_on(j, state) && a.rests_on(j, other));
            alive_cell_is_held_or_rested_on(a, state);
            alive_cell_is_held_or_rested_on(a, other);
        },
        ContentView::Held(v) => {
            assert forall|s: int| a.is_source(s) && #[trigger] a.mentions(v, s) implies a.alive(
                s,
            ) by {
                assert(a.holds_stream(j, s));
                alive_is_held_or_rested_on(a, s);
            }
        },
        ContentView::Undefined => {},
    }
}

/// If no mark is missing, exactly what is alive is marked.
pub proof fn lemma_all_marked<T>(a: NetworkView<T>, sources: Seq<bool>, cells: Seq<bool>)
    requires
        a.sound(),
        a.marked(sources, cells),
        a.all_marked(sources, cells),
    ensures
        forall|s: int| a.is_source(s) ==> #[trigger] sources[s] == a.alive(s),
        forall|k: int| a.is_cell(k) ==> #[trigger] cells[k] == a.alive_cell(k),
{
    assert forall|s: int| a.is_source(s) implies #[trigger] sources[s] == a.alive(s) by {
        if a.alive(s) {
            let n = choose|n: nat| a.alive_at(n, s);
            lemma_all_marked_at(a, sources, cells, n);
        }
    }
    assert forall|k: int| a.is_cell(k) implies #[trigger] cells[k] == a.alive_cell(k) by {
        if a.alive_cell(k) {
            let n = choose|n: nat| a.alive_cell_at(n, k);
            lemma_all_marked_at(a, sources, cells, n);
        }
    }
}

proof fn lemma_all_marked_at<T>(
    a: NetworkView<T>,
    sources: Seq<bool>,
    cells: Seq<bool>,
    n: nat,
)
    requires
        a.sound(),
        a.marked(sources, cells),
        a.all_marked(sources, cells),
    ensures
        forall|s: int| a.is_source(s) && #[trigger] a.alive_at(n, s) ==> sources[s],
        forall|k: int| a.is_cell(k) && #[trigger] a.alive_cell_at(n, k) ==> cells[k],
        forall|s: int, e: Entry<T>|
            #![trigger a.sound_entry(s, e), a.live_at(n, e)]
            a.sound_entry(s, e) && a.live_at(n, e) ==> a.lit_by(sources, cells, e),
    decreases n,
{
    if n > 0 {
        lemma_all_marked_at(a, sources, cells, (n - 1) as nat);
    }
    assert forall|s: int| a.is_source(s) && #[trigger] a.alive_at(n, s) implies sources[s] by {
        if a.sources[s].is_held() {
        } else if exists|q: int, i: int| #[trigger] a.waits(q, i, s) {
        } else if exists|k: int|
            #[trigger] a.holds_stream(k, s) && a.alive_cell_at((n - 1) as nat, k) {
            let k = choose|k: int|
                #[trigger] a.holds_stream(k, s) && a.alive_cell_at((n - 1) as nat, k);
            assert(a.rests_on_marked(sources, cells, k));
        } else {
            let i = choose|i: int|
                0 <= i < a.sources[s].callbacks.len() && a.live_at(
                    (n - 1) as nat,
                    #[trigger] a.sources[s].callbacks[i],
                );
            assert(a.sound_source(s));
            assert(a.sound_entry(s, a.sources[s].callbacks[i]));
            assert(a.adds_none(sources, cells, s, i));
        }
    }
    assert forall|k: int| a.is_cell(k) && #[trigger] a.alive_cell_at(n, k) implies cells[k] by {
        if a.cells[k].released {
            if exists|j: int|
                #[trigger] a.rests_on(j, k) && a.alive_cell_at((n - 1) as nat, j) {
                let j = choose|j: int|
                    #[trigger] a.rests_on(j, k) && a.alive_cell_at((n - 1) as nat, j);
                assert(a.rests_on_marked(sources, cells, j));
            } else {
                let (s, i) = choose|s: int, i: int|
                    #[trigger] a.samples(s, i, k) && a.live_at(
                        (n - 1) as nat,
                        a.sources[s].callbacks[i],
                    );
                assert(a.sound_source(s));
                assert(a.sound_entry(s, a.sources[s].callbacks[i]));
                assert(a.adds_none(sources, cells, s, i));
            }
        }
    }
    assert forall|s: int, e: Entry<T>|
        #![trigger a.sound_entry(s, e), a.live_at(n, e)]
        a.sound_entry(s, e) && a.live_at(n, e) implies a.lit_by(sources, cells, e) by {
        lemma_live_at(a, n, e);
    }
}

} // verus!
