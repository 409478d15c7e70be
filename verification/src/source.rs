//! The parts of a network: sources with their callbacks, cells and queues.
use crate::function::{Function, Reading};
use crate::model::{
    CellOrigin, CellView, ContentView, Entry, Origin, QueueView, Reaction, SourceView, Turn,
};
use crate::value::{Shape, Value};
use std::collections::VecDeque;
use vstd::prelude::*;

verus! {

/// What a source calls when it fires. See [`Reaction`] for what each does.
#[allow(inconsistent_fields)]
#[verifier::reject_recursive_types(T)]
pub enum Callback<T> {
    Mapped { f: Box<dyn Function<Value<T>, Value<T>>>, target: usize },
    FilterSome { target: usize },
    Merge { left: bool, target: usize },
    Switch { target: usize },
    Switched { target: usize, token: usize, from: Ghost<nat> },
    Snapshot {
        signal: usize,
        f: Box<dyn Function<(Value<T>, Value<T>), Value<T>>>,
        target: usize,
    },
    Events { queue: usize },
    Hold { cell: usize },
    ScanMut { cell: usize, f: Box<dyn Function<(Value<T>, Value<T>), Value<T>>> },
}

impl<T> View for Callback<T> {
    type V = Reaction<T>;

    open spec fn view(&self) -> Reaction<T> {
        match *self {
            Callback::Mapped { f, target } => Reaction::Mapped {
                f: f.operation(),
                target: target as int,
            },
            Callback::FilterSome { target } => Reaction::FilterSome { target: target as int },
            Callback::Merge { left, target } => Reaction::Merge { left, target: target as int },
            Callback::Switch { target } => Reaction::Switch { target: target as int },
            Callback::Switched { target, token, from } => Reaction::Switched {
                target: target as int,
                token: token as int,
                from: from@,
            },
            Callback::Snapshot { signal, f, target } => Reaction::Snapshot {
                signal: signal as int,
                f: f.operation(),
                target: target as int,
            },
            Callback::Events { queue } => Reaction::Events { queue: queue as int },
            Callback::Hold { cell } => Reaction::Hold { cell: cell as int },
            Callback::ScanMut { cell, f } => Reaction::ScanMut {
                cell: cell as int,
                f: f.operation(),
            },
        }
    }
}

/// A registered callback.
#[verifier::reject_recursive_types(T)]
pub struct Registration<T> {
    pub callback: Callback<T>,
    pub since: Ghost<nat>,
}

impl<T> View for Registration<T> {
    type V = Entry<T>;

    open spec fn view(&self) -> Entry<T> {
        Entry { reaction: self.callback@, since: self.since@ }
    }
}

/// What there is to say of a source, but is not needed to run it.
#[verifier::reject_recursive_types(T)]
pub struct Record<T> {
    pub origin: Origin<T>,
    pub history: Seq<Value<T>>,
    pub causes: Seq<Value<T>>,
    pub left: Seq<Value<T>>,
    pub right: Seq<Value<T>>,
    pub sides: Seq<bool>,
    pub turns: Seq<Turn>,
}

/// A source of events.
#[verifier::reject_recursive_types(T)]
pub struct Source<T> {
    pub shape: Shape,
    pub callbacks: Vec<Registration<T>>,
    /// Of a switch: the token of the callback through which it follows a
    /// stream.
    pub terminate: Option<usize>,
    pub firing: bool,
    /// Somebody can send into it.
    pub pinned: bool,
    /// Nobody has a handle of its stream any more.
    pub released: bool,
    /// It is not alive any more.
    pub ended: bool,
    pub record: Ghost<Record<T>>,
}

impl<T> View for Source<T> {
    type V = SourceView<T>;

    open spec fn view(&self) -> SourceView<T> {
        SourceView {
            shape: self.shape,
            origin: self.record@.origin,
            history: self.record@.history,
            causes: self.record@.causes,
            left: self.record@.left,
            right: self.record@.right,
            sides: self.record@.sides,
            turns: self.record@.turns,
            terminate: match self.terminate {
                Some(t) => Some(t as int),
                None => None,
            },
            callbacks: self.callbacks@.map_values(|r: Registration<T>| r@),
            pinned: self.pinned,
            released: self.released,
            ended: self.ended,
        }
    }
}

/// What a cell contains.
#[verifier::reject_recursive_types(T)]
pub enum Content<T> {
    Undefined,
    Held(Value<T>),
    Alias(usize),
    Combined {
        state: usize,
        other: usize,
        f: Box<dyn Reading<T>>,
    },
}

impl<T> View for Content<T> {
    type V = ContentView<T>;

    open spec fn view(&self) -> ContentView<T> {
        match *self {
            Content::Undefined => ContentView::Undefined,
            Content::Held(v) => ContentView::Held(v),
            Content::Alias(k) => ContentView::Alias(k as int),
            Content::Combined { state, other, f } => ContentView::Combined {
                state: state as int,
                other: other as int,
                f: f.operation(),
            },
        }
    }
}

/// The state of a signal.
#[verifier::reject_recursive_types(T)]
pub struct Cell<T> {
    pub shape: Shape,
    pub content: Content<T>,
    /// Nobody has a handle of it any more.
    pub released: bool,
    /// It is not alive any more.
    pub ended: bool,
    pub origin: Ghost<CellOrigin<T>>,
    pub updates: Ghost<Seq<(Value<T>, Value<T>, Value<T>)>>,
}

impl<T> View for Cell<T> {
    type V = CellView<T>;

    open spec fn view(&self) -> CellView<T> {
        CellView {
            shape: self.shape,
            origin: self.origin@,
            content: self.content@,
            updates: self.updates@,
            released: self.released,
            ended: self.ended,
        }
    }
}

/// The events that wait for a listener.
#[verifier::reject_recursive_types(T)]
pub struct Queue<T> {
    pub shape: Shape,
    pub waiting: VecDeque<Value<T>>,
    pub open: bool,
    pub parent: Ghost<int>,
    pub since: Ghost<nat>,
    pub received: Ghost<Seq<Value<T>>>,
}

impl<T> View for Queue<T> {
    type V = QueueView<T>;

    open spec fn view(&self) -> QueueView<T> {
        QueueView {
            shape: self.shape,
            parent: self.parent@,
            since: self.since@,
            received: self.received@,
            waiting: self.waiting@,
            open: self.open,
        }
    }
}

} // verus!
