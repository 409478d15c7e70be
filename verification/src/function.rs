//! The functions that users hand to the combinators, in the form in which a
//! network keeps them.
use crate::value::{Accumulator, Carried, Event, Item, Lent, Value};
use core::marker::PhantomData;
use vstd::prelude::*;

verus! {

/// What there is to say of a kept function: what it can be applied to, and what
/// is promised of an argument and the result. A function need not return the
/// same whenever it is applied to the same.
#[verifier::reject_recursive_types(X)]
#[verifier::reject_recursive_types(Y)]
pub struct Operation<X, Y> {
    pub domain: spec_fn(X) -> bool,
    pub promise: spec_fn(X, Y) -> bool,
}

/// A kept function of one value.
pub type Unary<T> = Operation<Value<T>, Value<T>>;

/// A kept function of two values.
pub type Binary<T> = Operation<(Value<T>, Value<T>), Value<T>>;

/// A function kept in a network.
pub trait Function<X, Y>: Send + Sync {
    /// What it is applied to and what is promised.
    spec fn operation(&self) -> Operation<X, Y>;

    /// Apply the function.
    fn call(&self, x: X) -> (y: Y)
        requires
            (self.operation().domain)(x),
        ensures
            (self.operation().promise)(x, y),
    ;
}

/// `f` can be applied to everything.
pub open spec fn total<A, B, F: Fn(A) -> B>(f: F) -> bool {
    forall|a: A| f.requires((a,))
}

/// `total` for a function of two arguments.
pub open spec fn total2<A, B, C, F: Fn(A, B) -> C>(f: F) -> bool {
    forall|a: A, b: B| f.requires((a, b))
}

/// `w` is the form in which an event of type `A` travels.
pub open spec fn is_event<T: Item, A: Carried<T>>(w: Value<T>) -> bool {
    A::decode(w) is Some && A::decode(w)->0.encode() == w
}

/// `f` on the form in which events travel.
pub open spec fn mapped<T: Item, A: Carried<T>, B: Carried<T>, F: Fn(A) -> B>(f: F) -> Unary<T> {
    Operation {
        domain: |v: Value<T>| A::decode(v) is Some && f.requires((A::decode(v)->0,)),
        promise: |v: Value<T>, w: Value<T>|
            A::decode(v) is Some && is_event::<T, B>(w) && f.ensures(
                (A::decode(v)->0,),
                B::decode(w)->0,
            ),
    }
}

/// `f` of two arguments on the form in which events travel.
pub open spec fn mapped2<
    T: Item,
    A: Carried<T>,
    B: Carried<T>,
    C: Carried<T>,
    F: Fn(A, B) -> C,
>(f: F) -> Binary<T> {
    Operation {
        domain: |p: (Value<T>, Value<T>)|
            A::decode(p.0) is Some && B::decode(p.1) is Some && f.requires(
                (A::decode(p.0)->0, B::decode(p.1)->0),
            ),
        promise: |p: (Value<T>, Value<T>), w: Value<T>|
            A::decode(p.0) is Some && B::decode(p.1) is Some && is_event::<T, C>(w)
                && f.ensures((A::decode(p.0)->0, B::decode(p.1)->0), C::decode(w)->0),
    }
}

/// A function of events as a function of values.
#[verifier::reject_recursive_types(T)]
#[verifier::reject_recursive_types(A)]
#[verifier::reject_recursive_types(B)]
pub struct Mapping<T, A, B, F: Fn(A) -> B> {
    f: F,
    marker: PhantomData<(T, A, B)>,
}

impl<T: Item, A: Carried<T>, B: Carried<T>, F: Fn(A) -> B + Send + Sync> Mapping<T, A, B, F> {
    /// Keep `f`.
    pub fn new(f: F) -> (mapping: Mapping<T, A, B, F>)
        ensures
            mapping.operation() == mapped::<T, A, B, F>(f),
    {
        Mapping { f, marker: PhantomData }
    }
}

impl<T: Item, A: Carried<T>, B: Carried<T>, F: Fn(A) -> B + Send + Sync> Function<
    Value<T>,
    Value<T>,
> for Mapping<T, A, B, F> {
    closed spec fn operation(&self) -> Unary<T> {
        mapped::<T, A, B, F>(self.f)
    }

    fn call(&self, x: Value<T>) -> (y: Value<T>) {
        let a = A::from_value(x).unwrap();
        let b = (self.f)(a);
        proof {
            b.encoded();
        }
        b.into_value()
    }
}

/// A function of two events as a function of values.
#[verifier::reject_recursive_types(T)]
#[verifier::reject_recursive_types(A)]
#[verifier::reject_recursive_types(B)]
#[verifier::reject_recursive_types(C)]
pub struct Mapping2<T, A, B, C, F: Fn(A, B) -> C> {
    f: F,
    marker: PhantomData<(T, A, B, C)>,
}

impl<
    T: Item,
    A: Carried<T>,
    B: Carried<T>,
    C: Carried<T>,
    F: Fn(A, B) -> C + Send + Sync,
> Mapping2<T, A, B, C, F> {
    /// Keep `f`.
    pub fn new(f: F) -> (mapping: Mapping2<T, A, B, C, F>)
        ensures
            mapping.operation() == mapped2::<T, A, B, C, F>(f),
    {
        Mapping2 { f, marker: PhantomData }
    }
}

impl<
    T: Item,
    A: Carried<T>,
    B: Carried<T>,
    C: Carried<T>,
    F: Fn(A, B) -> C + Send + Sync,
> Function<(Value<T>, Value<T>), Value<T>> for Mapping2<T, A, B, C, F> {
    closed spec fn operation(&self) -> Binary<T> {
        mapped2::<T, A, B, C, F>(self.f)
    }

    fn call(&self, x: (Value<T>, Value<T>)) -> (y: Value<T>) {
        let a = A::from_value(x.0).unwrap();
        let b = B::from_value(x.1).unwrap();
        let c = (self.f)(a, b);
        proof {
            c.encoded();
        }
        c.into_value()
    }
}

/// `total` for a predicate.
pub open spec fn total_test<A, F: Fn(&A) -> bool>(f: F) -> bool {
    forall|a: &A| f.requires((a,))
}

/// The event if it is chosen.
pub open spec fn chosen<A>(a: A, yes: bool) -> Option<A> {
    if yes {
        Some(a)
    } else {
        None
    }
}

/// The function that takes what `f` accepts to itself and the rest to nothing.
pub open spec fn selected<T: Item, A: Event<T>, F: Fn(&A) -> bool>(f: F) -> Unary<T> {
    Operation {
        domain: |v: Value<T>| A::decode(v) is Some && f.requires((&A::decode(v)->0,)),
        promise: |v: Value<T>, w: Value<T>|
            A::decode(v) is Some && exists|b: bool|
                #![trigger f.ensures((&A::decode(v)->0,), b)]
                f.ensures((&A::decode(v)->0,), b) && w == <Option<A> as Carried<T>>::encode(
                    chosen(A::decode(v)->0, b),
                ),
    }
}

/// A predicate on events as a function of values.
#[verifier::reject_recursive_types(T)]
#[verifier::reject_recursive_types(A)]
pub struct Selection<T, A, F: Fn(&A) -> bool> {
    f: F,
    marker: PhantomData<(T, A)>,
}

impl<T: Item, A: Event<T>, F: Fn(&A) -> bool + Send + Sync> Selection<T, A, F> {
    /// Keep `f`.
    pub fn new(f: F) -> (selection: Selection<T, A, F>)
        ensures
            selection.operation() == selected::<T, A, F>(f),
    {
        Selection { f, marker: PhantomData }
    }
}

impl<T: Item, A: Event<T>, F: Fn(&A) -> bool + Send + Sync> Function<
    Value<T>,
    Value<T>,
> for Selection<T, A, F> {
    closed spec fn operation(&self) -> Unary<T> {
        selected::<T, A, F>(self.f)
    }

    fn call(&self, x: Value<T>) -> (y: Value<T>) {
        let a = A::from_value(x).unwrap();
        let yes: bool = (self.f)(&a);
        let ghost event = a;
        let choice: Option<A> = if yes {
            Some(a)
        } else {
            None
        };
        assert(choice == chosen(event, yes));
        assert(self.f.ensures((&event,), yes));
        choice.into_value()
    }
}

/// `total` for a function that borrows its first argument.
pub open spec fn total_on<A, B, C, F: Fn(&A, B) -> C>(f: F) -> bool {
    forall|a: &A, b: B| f.requires((a, b))
}

/// `f` that borrows its first argument, on the form in which events travel.
pub open spec fn mapped_on<
    T: Item,
    A: Carried<T>,
    B: Carried<T>,
    C: Carried<T>,
    F: Fn(&A, B) -> C,
>(f: F) -> Binary<T> {
    Operation {
        domain: |p: (Value<T>, Value<T>)|
            p.0.fits(A::shape()) && B::decode(p.1) is Some && f.requires(
                (&A::decode(p.0)->0, B::decode(p.1)->0),
            ),
        promise: |p: (Value<T>, Value<T>), w: Value<T>|
            A::decode(p.0) is Some && B::decode(p.1) is Some && is_event::<T, C>(w)
                && f.ensures((&A::decode(p.0)->0, B::decode(p.1)->0), C::decode(w)->0),
    }
}

/// A function kept in a network that does not take the first of its arguments, but
/// reads it where it is.
pub trait Reading<T>: Send + Sync {
    /// What it is applied to and what is promised.
    spec fn operation(&self) -> Binary<T>;

    /// Apply the function.
    fn read(&self, x: &Value<T>, y: Value<T>) -> (z: Value<T>)
        requires
            (self.operation().domain)((*x, y)),
        ensures
            (self.operation().promise)((*x, y), z),
    ;
}

/// A function that borrows its first argument as a function of values.
#[verifier::reject_recursive_types(T)]
#[verifier::reject_recursive_types(A)]
#[verifier::reject_recursive_types(B)]
#[verifier::reject_recursive_types(C)]
pub struct Combination<T, A, B, C, F: Fn(&A, B) -> C> {
    f: F,
    marker: PhantomData<(T, A, B, C)>,
}

impl<
    T: Item,
    A: Accumulator<T>,
    B: Carried<T>,
    C: Carried<T>,
    F: Fn(&A, B) -> C + Send + Sync,
> Combination<T, A, B, C, F> {
    /// Keep `f`.
    pub fn new(f: F) -> (combination: Combination<T, A, B, C, F>)
        ensures
            combination.operation() == mapped_on::<T, A, B, C, F>(f),
    {
        Combination { f, marker: PhantomData }
    }
}

impl<
    T: Item,
    A: Accumulator<T>,
    B: Carried<T>,
    C: Carried<T>,
    F: Fn(&A, B) -> C + Send + Sync,
> Reading<T> for Combination<T, A, B, C, F> {
    closed spec fn operation(&self) -> Binary<T> {
        mapped_on::<T, A, B, C, F>(self.f)
    }

    fn read(&self, x: &Value<T>, y: Value<T>) -> (z: Value<T>) {
        let b = B::from_value(y).unwrap();
        let c = match A::lend(x) {
            Lent::Own(a) => (self.f)(&a, b),
            Lent::Ref(a) => (self.f)(a, b),
        };
        proof {
            c.encoded();
        }
        c.into_value()
    }
}

} // verus!
