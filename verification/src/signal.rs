//! Signals: values that vary over time.
use crate::building::{
    lemma_add_cell_valid, lemma_defined_grows, lemma_hold_valid, lemma_lets_go_valid,
    lemma_retain_nothing, lemma_retain_valid, lemma_same_defined, lemma_scan_mut_valid,
};
use crate::copies::{lemma_grows_copies, lemma_hands_out_copies};
use crate::course_laws::giving_up_changes_nothing_else;
use crate::cover::{
    covered_is_safe, lemma_grows_covered, lemma_hands_out_covered, lemma_lets_go_covered,
    lemma_mapped2_covers, lemma_mapped_on_covers,
};
use crate::function::{mapped2, mapped_on, total2, total_on, Combination, Mapping2};
use crate::life_laws::what_is_held_survives_releases;
use crate::made_laws::{
    a_constant_stays, accumulates_to, combine_goes_on, combines, hold_goes_on, latest,
    scan_mut_goes_on,
};
use crate::model::{CellOrigin, CellView, ContentView, NetworkView};
use crate::network::Network;
use crate::signal_laws::lemma_is_now;
use crate::sound::{lemma_can_be_fits, lemma_mapped2_takes, lemma_mapped_on_takes};
use crate::source::{Callback, Content};
use crate::stream::{self, Stream};
use crate::stream_laws::runs;
use crate::value::{Accumulator, Carried, Event, Item};
use core::marker::PhantomData;
use vstd::prelude::*;

verus! {

/// A value that varies over time.
///
/// A copy of a handle is a handle of the same signal. [`Signal::release`] is for
/// the last of them.
pub struct Signal<A> {
    number: u64,
    cell: usize,
    marker: PhantomData<A>,
}

impl<A> Clone for Signal<A> {
    /// Another handle of the same signal.
    fn clone(&self) -> (copy: Signal<A>)
        ensures
            copy == *self,
    {
        Signal { number: self.number, cell: self.cell, marker: PhantomData }
    }
}

/// Access a signal's cell.
pub fn cell<A>(signal: &Signal<A>) -> (id: usize)
    ensures
        id == signal.id(),
{
    signal.cell
}

impl<A> Signal<A> {
    /// The number of the signal's cell.
    pub closed spec fn id(&self) -> int {
        self.cell as int
    }

    /// The number of the signal's network.
    pub closed spec fn home(&self) -> u64 {
        self.number
    }

    /// The signal is one of the network; it may be undefined, or have ended.
    pub open spec fn known<T: Item>(&self, network: NetworkView<T>) -> bool where A: Event<T> {
        &&& self.home() == network.number
        &&& network.is_cell(self.id())
        &&& network.cells[self.id()].shape == A::shape()
    }

    /// The signal is one of the network and has not been released; it may be
    /// undefined.
    pub open spec fn usable<T: Item>(&self, network: NetworkView<T>) -> bool where A: Event<T> {
        self.known(network) && !network.cells[self.id()].released
    }

    /// The signal is one of the network, has a value and has not ended.
    pub open spec fn lives<T: Item>(&self, network: NetworkView<T>) -> bool where A: Event<T> {
        &&& self.known(network)
        &&& network.defined(self.id())
        &&& !network.cells[self.id()].ended
    }

    /// The signal is one of the network, has a value and has not been released.
    pub open spec fn within<T: Item>(&self, network: NetworkView<T>) -> bool where A: Event<T> {
        self.usable(network) && network.defined(self.id())
    }

    /// Sampling the signal can give `a`.
    pub open spec fn can_be<T: Item>(&self, network: NetworkView<T>, a: A) -> bool where
        A: Event<T>,
    {
        network.can_be(self.id(), a.encode())
    }

    /// The present value is `a` and nothing else.
    pub open spec fn is_now<T: Item>(&self, network: NetworkView<T>, a: A) -> bool where
        A: Event<T>,
    {
        forall|b: A| #[trigger] self.can_be(network, b) <==> b == a
    }

    /// A signal that never changes.
    pub fn new<T: Item>(network: &mut Network<T>, a: A) -> (signal: Signal<A>) where A: Event<T>
        requires
            old(network).wf(),
        ensures
            final(network).wf(),
            old(network)@.grows_to(final(network)@),
            final(network)@ == old(network)@.add_cell(
                A::shape(),
                CellOrigin::Constant,
                ContentView::Held(a.encode()),
            ),
            signal.id() == old(network)@.cells.len(),
            signal.within(final(network)@),
            signal.is_now(final(network)@, a),
            final(network)@.sources.len() == old(network)@.sources.len(),
            final(network)@.cells.len() == old(network)@.cells.len() + 1,
            final(network)@.queues.len() == old(network)@.queues.len(),
            forall|later: NetworkView<T>|
                #[trigger] final(network)@.leads_to(later) && runs(later) && signal.lives(later)
                    ==> signal.is_now(later, a),
            old(network)@.covered() ==> final(network)@.covered(),
    {
        let ghost start = network@;
        let ghost v = a.encode();
        proof {
            a.encoded();
            lemma_add_cell_valid(
                network@,
                A::shape(),
                CellOrigin::Constant,
                ContentView::Held(v),
            );
        }
        let cell: usize = network.add_cell(
            A::carried(),
            Content::Held(a.into_value()),
            Ghost(CellOrigin::Constant),
        );
        proof {
            lemma_is_now(network@, cell as int, a);
            A::copied();
            lemma_grows_copies(start, network@);
            if start.covered() {
                lemma_grows_covered(start, network@);
            }
        }
        let signal = Signal { number: network.number(), cell, marker: PhantomData };
        proof {
            let made = network@;
            assert forall|later: NetworkView<T>|
                #[trigger] made.leads_to(later) && runs(later) && signal.lives(
                    later,
                ) implies signal.is_now(later, a) by {
                a_constant_stays(made, later, a, signal);
            }
        }
        signal
    }

    /// The present value.
    ///
    /// If not every function in the network takes everything, those that the
    /// signal is combined with have to take the present values of its parts.
    /// Whoever gets the value has handles of the streams in it, to be released as
    /// any other; a value without streams leaves the network as it is.
    pub fn sample<T: Item>(&self, network: &mut Network<T>) -> (a: A) where A: Event<T>
        requires
            old(network).wf(),
            self.within(old(network)@),
            old(network)@.covered() || old(network)@.is_safe(self.id()),
        ensures
            self.can_be(old(network)@, a),
            final(network).wf(),
            final(network)@ == old(network)@.retain(a.encode()),
            old(network)@.hands_out(final(network)@),
            old(network)@.same_listeners_but(final(network)@, -1),
            forall|s: int|
                old(network)@.is_source(s) ==> (#[trigger] final(network)@.sources[s]).released == (
                old(network)@.sources[s].released && !(a.encode().names(old(network)@.number, s)
                    && !old(network)@.sources[s].ended)),
            old(network)@.covered() ==> final(network)@.covered(),
            self.within(final(network)@),
            A::shape().is_plain() ==> final(network)@ == old(network)@,
    {
        let ghost start = network@;
        proof {
            A::copied();
            if start.covered() {
                covered_is_safe(start, self.id());
            }
        }
        let v = network.sample(self.cell);
        proof {
            lemma_can_be_fits(start, self.id(), v);
            A::decoded(v);
            lemma_retain_valid(start, v);
            if A::shape().is_plain() {
                lemma_retain_nothing(start, v, A::shape());
            }
            lemma_same_defined(start, start.retain(v), self.id());
            lemma_hands_out_copies(start, start.retain(v));
            if start.covered() {
                lemma_hands_out_covered(start, start.retain(v));
            }
        }
        network.retain(&v);
        A::from_value(v).unwrap()
    }

    /// Give up the last handle of the signal. It goes on as long as something
    /// that is alive rests on it; if there is nothing, it ends.
    pub fn release<T: Item>(self, network: &mut Network<T>) where A: Event<T>
        requires
            old(network).wf(),
            self.usable(old(network)@),
        ensures
            final(network).wf(),
            final(network)@ == old(network)@.release_cell(self.id()),
            old(network)@.gives_up(final(network)@),
            old(network)@.keeps_what_is_held(final(network)@),
            old(network)@.leads_to(final(network)@),
            final(network)@.cells[self.id()].released,
            old(network)@.same_streams_but(final(network)@, -1),
            old(network)@.same_signals_but(final(network)@, self.id()),
            old(network)@.same_listeners_but(final(network)@, -1),
            old(network)@.covered() ==> final(network)@.covered(),
    {
        release_cell(network, self.cell);
    }
}

/// Give up the last handle of a cell.
fn release_cell<T: Item>(network: &mut Network<T>, k: usize)
    requires
        old(network).wf(),
        old(network)@.is_cell(k as int),
    ensures
        final(network).wf(),
        final(network)@ == old(network)@.release_cell(k as int),
        old(network)@.gives_up(final(network)@),
        old(network)@.keeps_what_is_held(final(network)@),
        old(network)@.leads_to(final(network)@),
        final(network)@.cells[k as int].released,
        old(network)@.same_streams_but(final(network)@, -1),
        old(network)@.same_signals_but(final(network)@, k as int),
        old(network)@.same_listeners_but(final(network)@, -1),
        old(network)@.covered() ==> final(network)@.covered(),
{
    let ghost start = network@;
    network.release_cell(k);
    proof {
        let cell = CellView { released: true, ..start.cells[k as int] };
        let free = NetworkView { cells: start.cells.update(k as int, cell), ..start };
        lemma_lets_go_valid(start, free);
        giving_up_changes_nothing_else(start, free);
        what_is_held_survives_releases(start, free);
        if start.covered() {
            lemma_lets_go_covered(start, free);
        }
    }
}

/// Hold the last event of a stream in a signal.
pub fn hold<T: Item, A: Event<T>>(
    network: &mut Network<T>,
    initial: A,
    stream: &Stream<A>,
) -> (signal: Signal<A>)
    requires
        old(network).wf(),
        stream.within(old(network)@),
    ensures
        final(network).wf(),
        old(network)@.grows_to(final(network)@),
        final(network)@ == old(network)@.hold(stream.id(), initial.encode()),
        signal.id() == old(network)@.cells.len(),
        signal.within(final(network)@),
        signal.is_now(final(network)@, initial),
        final(network)@.sources.len() == old(network)@.sources.len(),
        final(network)@.cells.len() == old(network)@.cells.len() + 1,
        final(network)@.queues.len() == old(network)@.queues.len(),
        final(network)@.cells[signal.id()].origin == (CellOrigin::Hold {
            parent: stream.id(),
            since: old(network)@.fired(stream.id()),
            initial: initial.encode(),
        }),
        forall|later: NetworkView<T>|
            #[trigger] final(network)@.leads_to(later) && runs(later) && signal.lives(later)
                ==> signal.is_now(
                later,
                latest(initial, stream.fired_since(old(network)@, later)),
            ),
        old(network)@.covered() ==> final(network)@.covered(),
{
    let ghost start = network@;
    let ghost first = initial.encode();
    proof {
        initial.encoded();
        lemma_hold_valid(start, stream.id(), first);
    }
    let ghost origin = CellOrigin::Hold {
        parent: stream.id(),
        since: start.fired(stream.id()),
        initial: first,
    };
    let cell: usize = network.add_cell(
        A::carried(),
        Content::Held(initial.into_value()),
        Ghost(origin),
    );
    network.register(stream::source(stream), Callback::Hold { cell });
    proof {
        lemma_is_now(network@, cell as int, initial);
        A::copied();
        lemma_grows_copies(start, network@);
        if start.covered() {
            lemma_grows_covered(start, network@);
        }
    }
    let signal = Signal { number: network.number(), cell, marker: PhantomData };
    proof {
        let made = network@;
        assert forall|later: NetworkView<T>|
            #[trigger] made.leads_to(later) && runs(later) && signal.lives(
                later,
            ) implies signal.is_now(
            later,
            latest(initial, stream.fired_since(start, later)),
        ) by {
            hold_goes_on(made, later, *stream, start.fired(stream.id()), initial, signal);
        }
    }
    signal
}

/// A signal that is defined later, possibly in terms of itself.
pub struct SignalCycle<A> {
    signal: Signal<A>,
}

impl<A> SignalCycle<A> {
    /// The number of the signal's cell.
    pub closed spec fn id(&self) -> int {
        self.signal.id()
    }

    /// The number of the signal's network.
    pub closed spec fn home(&self) -> u64 {
        self.signal.home()
    }

    /// The signal is one of the network and has not been released.
    pub open spec fn usable<T: Item>(&self, network: NetworkView<T>) -> bool where A: Event<T> {
        &&& self.home() == network.number
        &&& network.is_cell(self.id())
        &&& network.cells[self.id()].shape == A::shape()
        &&& !network.cells[self.id()].released
    }

    /// Make a signal that is not defined yet.
    pub(crate) fn new<T: Item>(network: &mut Network<T>) -> (cycle: SignalCycle<A>) where
        A: Event<T>,

        requires
            old(network).wf(),
        ensures
            final(network).wf(),
            old(network)@.grows_to(final(network)@),
            final(network)@ == old(network)@.cycle(A::shape()),
            cycle.id() == old(network)@.cells.len(),
            cycle.usable(final(network)@),
    {
        let ghost start = network@;
        proof {
            lemma_add_cell_valid(start, A::shape(), CellOrigin::Cycle, ContentView::Undefined);
        }
        let cell: usize = network.add_cell(
            A::carried(),
            Content::Undefined,
            Ghost(CellOrigin::Cycle),
        );
        proof {
            A::copied();
            lemma_grows_copies(start, network@);
        }
        SignalCycle { signal: Signal { number: network.number(), cell, marker: PhantomData } }
    }

    /// Make a snapshot of the signal, whenever a stream fires an event.
    pub(crate) fn snapshot<T: Item, B, C, F>(
        &self,
        network: &mut Network<T>,
        stream: &Stream<B>,
        f: F,
    ) -> (snapshots: Stream<C>) where
        A: Event<T>,
        B: Event<T>,
        C: Event<T>,
        F: Fn(A, B) -> C + Send + Sync + 'static,

        requires
            old(network).wf(),
            self.usable(old(network)@),
            stream.within(old(network)@),
        ensures
            final(network).wf(),
            old(network)@.grows_to(final(network)@),
            final(network)@ == old(network)@.snapshot(
                self.id(),
                stream.id(),
                C::shape(),
                mapped2::<T, A, B, C, F>(f),
            ),
            snapshots.id() == old(network)@.sources.len(),
            snapshots.within(final(network)@),
    {
        stream::snapshot(network, &self.signal, stream, f)
    }

    /// Define the signal to be the same as `definition`.
    pub(crate) fn define<T: Item>(
        self,
        network: &mut Network<T>,
        definition: Signal<A>,
    ) -> (signal: Signal<A>) where A: Event<T>
        requires
            old(network).wf(),
            self.usable(old(network)@),
            old(network)@.is_cell(definition.id()),
            self.id() != definition.id(),
            old(network)@.cells[self.id()].origin is Cycle,
            old(network)@.define(self.id(), definition.id()).valid(),
        ensures
            final(network).wf(),
            final(network)@ == old(network)@.define(self.id(), definition.id()),
            signal.id() == self.id(),
            signal.within(final(network)@),
    {
        let ghost start = network@;
        network.define(self.signal.cell, definition.cell);
        proof {
            assert forall|s: int|
                start.is_source(s) implies #[trigger] network@.copies_source(s) by {
                assert(start.copies_source(s));
            }
            assert forall|k: int| start.is_cell(k) implies #[trigger] network@.copies_cell(k) by {
                assert(start.copies_cell(k));
            }
        }
        self.signal
    }
}

/// A signal whose value is handed on from update to update.
pub struct SignalMut<A> {
    number: u64,
    cell: usize,
    marker: PhantomData<A>,
}

/// Accumulate the events of a stream in a value that no update copies.
pub fn scan_mut<T: Item, A, B, F>(
    network: &mut Network<T>,
    stream: &Stream<A>,
    initial: B,
    f: F,
) -> (signal: SignalMut<B>) where
    A: Event<T>,
    B: Accumulator<T>,
    F: Fn(B, A) -> B + Send + Sync + 'static,

    requires
        old(network).wf(),
        stream.within(old(network)@),
    ensures
        final(network).wf(),
        old(network)@.grows_to(final(network)@),
        final(network)@ == old(network)@.scan_mut(
            stream.id(),
            B::shape(),
            initial.encode(),
            mapped2::<T, B, A, B, F>(f),
        ),
        signal.id() == old(network)@.cells.len(),
        signal.within(final(network)@),
        signal.is_now(final(network)@, initial),
        final(network)@.sources.len() == old(network)@.sources.len(),
        final(network)@.cells.len() == old(network)@.cells.len() + 1,
        final(network)@.queues.len() == old(network)@.queues.len(),
        final(network)@.cells[signal.id()].origin == (CellOrigin::ScanMut {
            parent: stream.id(),
            since: old(network)@.fired(stream.id()),
            initial: initial.encode(),
            f: mapped2::<T, B, A, B, F>(f),
        }),
        forall|later: NetworkView<T>|
            #[trigger] final(network)@.leads_to(later) && runs(later) && signal.lives(later)
                ==> exists|b: B| #[trigger]
                accumulates_to::<A, B, F>(
                    f,
                    initial,
                    stream.fired_since(old(network)@, later),
                    b,
                ) && signal.is_now(later, b),
        old(network)@.covered() && total2::<B, A, B, F>(f) ==> final(network)@.covered(),
{
    let ghost start = network@;
    let ghost first = initial.encode();
    let ghost g = mapped2::<T, B, A, B, F>(f);
    proof {
        initial.encoded();
        lemma_mapped2_takes::<T, B, A, B, F>(f);
        lemma_scan_mut_valid(start, stream.id(), B::shape(), first, g);
    }
    let ghost origin = CellOrigin::ScanMut {
        parent: stream.id(),
        since: start.fired(stream.id()),
        initial: first,
        f: g,
    };
    let cell: usize = network.add_cell(
        B::carried(),
        Content::Held(initial.into_value()),
        Ghost(origin),
    );
    let kept = Box::new(Mapping2::<T, B, A, B, F>::new(f));
    network.register(stream::source(stream), Callback::ScanMut { cell, f: kept });
    proof {
        lemma_is_now(network@, cell as int, initial);
        lemma_grows_copies(start, network@);
        if start.covered() && total2::<B, A, B, F>(f) {
            lemma_mapped2_covers::<T, B, A, B, F>(f);
            lemma_grows_covered(start, network@);
        }
    }
    let signal = SignalMut { number: network.number(), cell, marker: PhantomData };
    proof {
        let made = network@;
        assert forall|later: NetworkView<T>|
            #[trigger] made.leads_to(later) && runs(later) && signal.lives(
                later,
            ) implies exists|b: B| #[trigger]
            accumulates_to::<A, B, F>(
                f,
                initial,
                stream.fired_since(start, later),
                b,
            ) && signal.is_now(later, b) by {
            let b = scan_mut_goes_on::<T, A, B, F>(
                made,
                later,
                *stream,
                start.fired(stream.id()),
                initial,
                f,
                signal,
            );
            assert(accumulates_to::<A, B, F>(
                f,
                initial,
                stream.fired_since(start, later),
                b,
            ));
        }
    }
    signal
}

impl<A> SignalMut<A> {
    /// The number of the signal's cell.
    pub closed spec fn id(&self) -> int {
        self.cell as int
    }

    /// The number of the signal's network.
    pub closed spec fn home(&self) -> u64 {
        self.number
    }

    /// The signal is one of the network, has a value and has not ended.
    pub open spec fn lives<T: Item>(&self, network: NetworkView<T>) -> bool where A: Carried<T> {
        &&& self.home() == network.number
        &&& network.is_cell(self.id())
        &&& network.cells[self.id()].shape == A::shape()
        &&& network.defined(self.id())
        &&& !network.cells[self.id()].ended
    }

    /// The signal is one of the network, has a value and has not been released.
    pub open spec fn within<T: Item>(&self, network: NetworkView<T>) -> bool where A: Carried<T> {
        &&& self.home() == network.number
        &&& network.is_cell(self.id())
        &&& network.cells[self.id()].shape == A::shape()
        &&& network.defined(self.id())
        &&& !network.cells[self.id()].released
    }

    /// Give up the handle of the signal. It goes on as long as something that is
    /// alive rests on it; if there is nothing, it ends.
    pub fn release<T: Item>(self, network: &mut Network<T>) where A: Carried<T>
        requires
            old(network).wf(),
            self.within(old(network)@),
        ensures
            final(network).wf(),
            final(network)@ == old(network)@.release_cell(self.id()),
            old(network)@.gives_up(final(network)@),
            old(network)@.keeps_what_is_held(final(network)@),
            old(network)@.leads_to(final(network)@),
            final(network)@.cells[self.id()].released,
            old(network)@.same_streams_but(final(network)@, -1),
            old(network)@.same_signals_but(final(network)@, self.id()),
            old(network)@.same_listeners_but(final(network)@, -1),
            old(network)@.covered() ==> final(network)@.covered(),
    {
        release_cell(network, self.cell);
    }

    /// Sampling the signal can give `a`.
    pub open spec fn can_be<T: Item>(&self, network: NetworkView<T>, a: A) -> bool where
        A: Carried<T>,
    {
        network.can_be(self.id(), a.encode())
    }

    /// The present value is `a` and nothing else.
    pub open spec fn is_now<T: Item>(&self, network: NetworkView<T>, a: A) -> bool where
        A: Carried<T>,
    {
        forall|b: A| #[trigger] self.can_be(network, b) <==> b == a
    }

    /// Combine the signal with another one using a function.
    pub fn combine<T: Item, B, C, F>(
        &self,
        network: &mut Network<T>,
        other: &Signal<B>,
        f: F,
    ) -> (signal: Signal<C>) where
        A: Accumulator<T>,
        B: Event<T>,
        C: Event<T>,
        F: Fn(&A, B) -> C + Send + Sync + 'static,

        requires
            old(network).wf(),
            self.within(old(network)@),
            other.within(old(network)@),
        ensures
            final(network).wf(),
            old(network)@.grows_to(final(network)@),
            final(network)@ == old(network)@.combine(
                self.id(),
                other.id(),
                C::shape(),
                mapped_on::<T, A, B, C, F>(f),
            ),
            signal.id() == old(network)@.cells.len(),
            signal.within(final(network)@),
            final(network)@.sources.len() == old(network)@.sources.len(),
            final(network)@.cells.len() == old(network)@.cells.len() + 1,
            final(network)@.queues.len() == old(network)@.queues.len(),
            forall|later: NetworkView<T>, c: C|
                #![trigger final(network)@.leads_to(later), signal.can_be(later, c)]
                final(network)@.leads_to(later) && runs(later) && signal.lives(later)
                    ==> combines::<T, A, B, C, F>(later, *self, *other, f, signal, c),
            old(network)@.covered() && total_on::<A, B, C, F>(f) ==> final(network)@.covered(),
    {
        let ghost start = network@;
        let ghost g = mapped_on::<T, A, B, C, F>(f);
        proof {
            lemma_mapped_on_takes::<T, A, B, C, F>(f);
            lemma_add_cell_valid(
                start,
                C::shape(),
                CellOrigin::Combine,
                ContentView::Combined { state: self.id(), other: other.id(), f: g },
            );
        }
        let kept = Box::new(Combination::<T, A, B, C, F>::new(f));
        let cell: usize = network.add_cell(
            C::carried(),
            Content::Combined { state: self.cell, other: other.cell, f: kept },
            Ghost(CellOrigin::Combine),
        );
        proof {
            lemma_defined_grows(start, network@, self.id());
            lemma_defined_grows(start, network@, other.id());
            B::copied();
            C::copied();
            lemma_grows_copies(start, network@);
            if start.covered() && total_on::<A, B, C, F>(f) {
                lemma_mapped_on_covers::<T, A, B, C, F>(f);
                lemma_grows_covered(start, network@);
            }
        }
        let signal = Signal { number: network.number(), cell, marker: PhantomData };
        proof {
            let made = network@;
            assert forall|later: NetworkView<T>, c: C|
                #![trigger made.leads_to(later), signal.can_be(later, c)]
                made.leads_to(later) && runs(later) && signal.lives(later) implies
                combines::<T, A, B, C, F>(later, *self, *other, f, signal, c) by {
                combine_goes_on::<T, A, B, C, F>(made, later, *self, *other, f, signal, c);
            }
        }
        signal
    }
}

} // verus!
