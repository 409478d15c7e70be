//! What is copied in a network, and what is not.
//!
//! Every listener of a stream gets a copy of an event, and whoever samples a signal
//! gets a copy of its value. Accumulators need not be copied: a function that updates
//! one takes it and hands it back, and one that combines it with a signal reads it,
//! where it is if it is of one's own type.
use crate::life::lemma_sweep_sound;
use crate::model::{ContentView, NetworkView, Origin};
use crate::value::{Item, Shape};
use vstd::prelude::*;

verus! {

impl<T: Item> NetworkView<T> {
    /// Equal values can be made of those of a shape.
    pub open spec fn copies(self, shape: Shape) -> bool {
        shape.is_copied(T::is_copied())
    }

    /// What a source fires, and what it samples, can be copied.
    pub open spec fn copies_source(self, s: int) -> bool {
        let source = self.sources[s];
        &&& self.copies(source.shape)
        &&& source.origin matches Origin::Snapshot { signal, .. } ==> self.is_cell(signal)
            && self.copies(self.cells[signal].shape)
    }

    /// What a cell holds or is made of can be copied, but for accumulators.
    pub open spec fn copies_cell(self, k: int) -> bool {
        let cell = self.cells[k];
        &&& cell.origin is ScanMut ==> cell.content is Held || cell.content is Undefined
        &&& !(cell.origin is ScanMut) ==> self.copies(cell.shape)
        &&& cell.content matches ContentView::Combined { other, .. } ==> self.is_cell(other)
            && self.copies(self.cells[other].shape)
    }

    /// Whatever has to be copied can be copied.
    pub open spec fn copies_events(self) -> bool {
        &&& forall|s: int| self.is_source(s) ==> #[trigger] self.copies_source(s)
        &&& forall|k: int| self.is_cell(k) ==> #[trigger] self.copies_cell(k)
    }
}

/// Events change nothing about what can be copied.
pub proof fn lemma_becomes_copies<T: Item>(a: NetworkView<T>, b: NetworkView<T>)
    requires
        a.copies_events(),
        a.becomes(b),
    ensures
        b.copies_events(),
{
    assert forall|s: int| b.is_source(s) implies #[trigger] b.copies_source(s) by {
        assert(a.copies_source(s));
        assert(b.sources[s].shape == a.sources[s].shape);
        if let Origin::Snapshot { signal, .. } = a.sources[s].origin {
            assert(b.cells[signal].shape == a.cells[signal].shape);
        }
    }
    assert forall|k: int| b.is_cell(k) implies #[trigger] b.copies_cell(k) by {
        assert(a.copies_cell(k));
        assert(b.cells[k].shape == a.cells[k].shape);
        if let ContentView::Combined { other, .. } = a.cells[k].content {
            assert(b.cells[other].shape == a.cells[other].shape);
        }
    }
}

/// What is made changes nothing about what can be copied, if what is new can be.
pub proof fn lemma_grows_copies<T: Item>(a: NetworkView<T>, b: NetworkView<T>)
    requires
        a.copies_events(),
        a.grows_to(b),
        forall|s: int|
            a.sources.len() <= s < b.sources.len() ==> #[trigger] b.copies_source(s),
        forall|k: int| a.cells.len() <= k < b.cells.len() ==> #[trigger] b.copies_cell(k),
    ensures
        b.copies_events(),
{
    assert forall|s: int| b.is_source(s) implies #[trigger] b.copies_source(s) by {
        if a.is_source(s) {
            assert(a.copies_source(s));
            assert(b.sources[s].shape == a.sources[s].shape);
            if let Origin::Snapshot { signal, .. } = a.sources[s].origin {
                assert(b.cells[signal] == a.cells[signal]);
            }
        }
    }
    assert forall|k: int| b.is_cell(k) implies #[trigger] b.copies_cell(k) by {
        if a.is_cell(k) {
            assert(a.copies_cell(k));
            assert(b.cells[k] == a.cells[k]);
            if let ContentView::Combined { other, .. } = a.cells[k].content {
                assert(b.cells[other] == a.cells[other]);
            }
        }
    }
}

/// Nor does what is released.
pub proof fn lemma_lets_go_copies<T: Item>(a: NetworkView<T>, b: NetworkView<T>)
    requires
        a.copies_events(),
        a.lets_go(b),
        b.sound(),
    ensures
        b.sweep().copies_events(),
{
    assert forall|s: int| b.is_source(s) implies #[trigger] b.copies_source(s) by {
        assert(a.copies_source(s));
        assert(b.sources[s].shape == a.sources[s].shape);
        if let Origin::Snapshot { signal, .. } = a.sources[s].origin {
            assert(b.cells[signal].shape == a.cells[signal].shape);
        }
    }
    assert forall|k: int| b.is_cell(k) implies #[trigger] b.copies_cell(k) by {
        assert(a.copies_cell(k));
        assert(b.cells[k].shape == a.cells[k].shape);
        if let ContentView::Combined { other, .. } = a.cells[k].content {
            assert(b.cells[other].shape == a.cells[other].shape);
        }
    }
    lemma_sweep_sound(b);
    lemma_becomes_copies(b, b.sweep());
}

/// Nor does what is handed out.
pub proof fn lemma_hands_out_copies<T: Item>(a: NetworkView<T>, b: NetworkView<T>)
    requires
        a.copies_events(),
        a.hands_out(b),
    ensures
        b.copies_events(),
{
    assert forall|s: int| b.is_source(s) implies #[trigger] b.copies_source(s) by {
        assert(a.copies_source(s));
        assert(b.sources[s].shape == a.sources[s].shape);
    }
    assert forall|k: int| b.is_cell(k) implies #[trigger] b.copies_cell(k) by {
        assert(a.copies_cell(k));
    }
}

} // verus!
