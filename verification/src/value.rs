//! The values that travel through a network, and the types that can be
//! carried by one.
use vstd::prelude::*;

verus! {

/// A type of one's own that a network is to carry, besides those that every
/// network carries.
///
/// Every listener of a stream gets a value of its own, so a value that is fired must
/// be something of which an equal one can be made ([`Copied`]). A value that is only
/// accumulated need not be. The network does not look into a value: a stream in it
/// is a handle outside of the network.
pub trait Item: Sized + Send + Sync + 'static {
    /// Equal values can be made of all values.
    spec fn is_copied() -> bool;

    /// Make a second, equal value, if that can be done.
    fn duplicate(&self) -> (copy: Option<Self>)
        ensures
            Self::is_copied() ==> copy == Some(*self),
    ;
}

/// A type of one's own whose values can be fired as events.
pub trait Copied: Item {
    /// Equal values can be made of all values.
    proof fn copied()
        ensures
            Self::is_copied(),
    ;
}

/// For networks that carry no type of one's own.
pub struct Plain;

impl Item for Plain {
    open spec fn is_copied() -> bool {
        true
    }

    fn duplicate(&self) -> (copy: Option<Plain>) {
        Some(Plain)
    }
}

impl Copied for Plain {
    proof fn copied() {
    }
}

/// The shape of the events that a source, a cell or a queue carries.
pub enum Shape {
    Unit,
    Bool,
    Char,
    U8,
    U16,
    U32,
    U64,
    U128,
    Usize,
    I8,
    I16,
    I32,
    I64,
    I128,
    Isize,
    Text,
    Item,
    Optional(Box<Shape>),
    Pair(Box<Shape>, Box<Shape>),
    Fallible(Box<Shape>, Box<Shape>),
    Stream(Box<Shape>),
}

impl Shape {
    /// Whether two shapes are the same.
    pub fn same(&self, other: &Shape) -> (equal: bool)
        ensures
            equal == (*self == *other),
        decreases *self,
    {
        match (self, other) {
            (Shape::Unit, Shape::Unit) => true,
            (Shape::Bool, Shape::Bool) => true,
            (Shape::Char, Shape::Char) => true,
            (Shape::U8, Shape::U8) => true,
            (Shape::U16, Shape::U16) => true,
            (Shape::U32, Shape::U32) => true,
            (Shape::U64, Shape::U64) => true,
            (Shape::U128, Shape::U128) => true,
            (Shape::Usize, Shape::Usize) => true,
            (Shape::I8, Shape::I8) => true,
            (Shape::I16, Shape::I16) => true,
            (Shape::I32, Shape::I32) => true,
            (Shape::I64, Shape::I64) => true,
            (Shape::I128, Shape::I128) => true,
            (Shape::Isize, Shape::Isize) => true,
            (Shape::Text, Shape::Text) => true,
            (Shape::Item, Shape::Item) => true,
            (Shape::Optional(a), Shape::Optional(b)) => a.same(b),
            (Shape::Pair(a, b), Shape::Pair(c, d)) => a.same(c) && b.same(d),
            (Shape::Fallible(a, b), Shape::Fallible(c, d)) => a.same(c) && b.same(d),
            (Shape::Stream(a), Shape::Stream(b)) => a.same(b),
            _ => false,
        }
    }

    /// Equal values can be made of values of this shape, if `own` says whether they
    /// can be made of those of one's own type.
    pub open spec fn is_copied(self, own: bool) -> bool
        decreases self,
    {
        match self {
            Shape::Item => own,
            Shape::Optional(a) => a.is_copied(own),
            Shape::Pair(a, b) => a.is_copied(own) && b.is_copied(own),
            Shape::Fallible(a, b) => a.is_copied(own) && b.is_copied(own),
            _ => true,
        }
    }

    /// There are no streams in values of this shape.
    pub open spec fn is_plain(self) -> bool
        decreases self,
    {
        match self {
            Shape::Optional(a) => a.is_plain(),
            Shape::Pair(a, b) => a.is_plain() && b.is_plain(),
            Shape::Fallible(a, b) => a.is_plain() && b.is_plain(),
            Shape::Stream(_) => false,
            _ => true,
        }
    }

    /// Make a second, equal shape.
    pub fn duplicate(&self) -> (copy: Shape)
        ensures
            copy == *self,
        decreases *self,
    {
        match self {
            Shape::Unit => Shape::Unit,
            Shape::Bool => Shape::Bool,
            Shape::Char => Shape::Char,
            Shape::U8 => Shape::U8,
            Shape::U16 => Shape::U16,
            Shape::U32 => Shape::U32,
            Shape::U64 => Shape::U64,
            Shape::U128 => Shape::U128,
            Shape::Usize => Shape::Usize,
            Shape::I8 => Shape::I8,
            Shape::I16 => Shape::I16,
            Shape::I32 => Shape::I32,
            Shape::I64 => Shape::I64,
            Shape::I128 => Shape::I128,
            Shape::Isize => Shape::Isize,
            Shape::Text => Shape::Text,
            Shape::Item => Shape::Item,
            Shape::Optional(a) => Shape::Optional(Box::new(a.duplicate())),
            Shape::Pair(a, b) => Shape::Pair(Box::new(a.duplicate()), Box::new(b.duplicate())),
            Shape::Fallible(a, b) => {
                Shape::Fallible(Box::new(a.duplicate()), Box::new(b.duplicate()))
            },
            Shape::Stream(a) => Shape::Stream(Box::new(a.duplicate())),
        }
    }
}

/// A value on its way through a network that carries `T`.
pub enum Value<T> {
    Unit,
    Bool(bool),
    Char(char),
    U8(u8),
    U16(u16),
    U32(u32),
    U64(u64),
    U128(u128),
    Usize(usize),
    I8(i8),
    I16(i16),
    I32(i32),
    I64(i64),
    I128(i128),
    Isize(isize),
    Text(String),
    Item(T),
    Nothing,
    Just(Box<Value<T>>),
    Pair(Box<Value<T>>, Box<Value<T>>),
    Success(Box<Value<T>>),
    Failure(Box<Value<T>>),
    /// A stream, by the numbers of its network and its source and the shape of
    /// its events.
    Stream(u64, usize, Shape),
}

impl<T> Value<T> {
    /// Whether the value has the given shape.
    pub open spec fn fits(self, shape: Shape) -> bool
        decreases self,
    {
        match self {
            Value::Unit => shape is Unit,
            Value::Bool(_) => shape is Bool,
            Value::Char(_) => shape is Char,
            Value::U8(_) => shape is U8,
            Value::U16(_) => shape is U16,
            Value::U32(_) => shape is U32,
            Value::U64(_) => shape is U64,
            Value::U128(_) => shape is U128,
            Value::Usize(_) => shape is Usize,
            Value::I8(_) => shape is I8,
            Value::I16(_) => shape is I16,
            Value::I32(_) => shape is I32,
            Value::I64(_) => shape is I64,
            Value::I128(_) => shape is I128,
            Value::Isize(_) => shape is Isize,
            Value::Text(_) => shape is Text,
            Value::Item(_) => shape is Item,
            Value::Nothing => shape is Optional,
            Value::Just(inner) => match shape {
                Shape::Optional(s) => inner.fits(*s),
                _ => false,
            },
            Value::Pair(a, b) => match shape {
                Shape::Pair(s, t) => a.fits(*s) && b.fits(*t),
                _ => false,
            },
            Value::Success(a) => match shape {
                Shape::Fallible(s, _) => a.fits(*s),
                _ => false,
            },
            Value::Failure(a) => match shape {
                Shape::Fallible(_, t) => a.fits(*t),
                _ => false,
            },
            Value::Stream(_, _, carried) => shape == Shape::Stream(Box::new(carried)),
        }
    }

    /// The stream of the source `id` of the network with the given number is this
    /// value, or a part of it.
    pub open spec fn names(self, number: u64, id: int) -> bool
        decreases self,
    {
        match self {
            Value::Just(a) => a.names(number, id),
            Value::Pair(a, b) => a.names(number, id) || b.names(number, id),
            Value::Success(a) => a.names(number, id),
            Value::Failure(a) => a.names(number, id),
            Value::Stream(n, s, _) => n == number && s == id,
            _ => false,
        }
    }

    /// No stream is in a value of a plain shape.
    pub proof fn lemma_plain(self, shape: Shape, number: u64, id: int)
        requires
            self.fits(shape),
            shape.is_plain(),
        ensures
            !self.names(number, id),
        decreases self,
    {
        match (self, shape) {
            (Value::Just(a), Shape::Optional(s)) => a.lemma_plain(*s, number, id),
            (Value::Pair(a, b), Shape::Pair(s, t)) => {
                a.lemma_plain(*s, number, id);
                b.lemma_plain(*t, number, id);
            },
            (Value::Success(a), Shape::Fallible(s, _)) => a.lemma_plain(*s, number, id),
            (Value::Failure(a), Shape::Fallible(_, t)) => a.lemma_plain(*t, number, id),
            _ => {},
        }
    }

    /// An equal value can be made, if `own` says whether that can be done of values of
    /// one's own type.
    pub open spec fn is_copied(self, own: bool) -> bool
        decreases self,
    {
        match self {
            Value::Item(_) => own,
            Value::Just(a) => a.is_copied(own),
            Value::Pair(a, b) => a.is_copied(own) && b.is_copied(own),
            Value::Success(a) => a.is_copied(own),
            Value::Failure(a) => a.is_copied(own),
            _ => true,
        }
    }

    /// A value can be copied if its shape says so.
    pub proof fn lemma_copied(self, shape: Shape, own: bool)
        requires
            self.fits(shape),
            shape.is_copied(own),
        ensures
            self.is_copied(own),
        decreases self,
    {
        match (self, shape) {
            (Value::Just(a), Shape::Optional(s)) => a.lemma_copied(*s, own),
            (Value::Pair(a, b), Shape::Pair(s, t)) => {
                a.lemma_copied(*s, own);
                b.lemma_copied(*t, own);
            },
            (Value::Success(a), Shape::Fallible(s, _)) => a.lemma_copied(*s, own),
            (Value::Failure(a), Shape::Fallible(_, t)) => a.lemma_copied(*t, own),
            _ => {},
        }
    }

    /// What a `Some` holds, and nothing of any other value.
    pub open spec fn contained(self) -> Option<Value<T>> {
        match self {
            Value::Just(inner) => Some(*inner),
            _ => None,
        }
    }
}

impl<T: Item> Value<T> {
    /// Make a second, equal value.
    pub fn duplicate(&self) -> (copy: Value<T>)
        requires
            self.is_copied(T::is_copied()),
        ensures
            copy == *self,
        decreases *self,
    {
        match self {
            Value::Unit => Value::Unit,
            Value::Bool(a) => Value::Bool(*a),
            Value::Char(a) => Value::Char(*a),
            Value::U8(a) => Value::U8(*a),
            Value::U16(a) => Value::U16(*a),
            Value::U32(a) => Value::U32(*a),
            Value::U64(a) => Value::U64(*a),
            Value::U128(a) => Value::U128(*a),
            Value::Usize(a) => Value::Usize(*a),
            Value::I8(a) => Value::I8(*a),
            Value::I16(a) => Value::I16(*a),
            Value::I32(a) => Value::I32(*a),
            Value::I64(a) => Value::I64(*a),
            Value::I128(a) => Value::I128(*a),
            Value::Isize(a) => Value::Isize(*a),
            Value::Text(a) => Value::Text(a.clone()),
            Value::Item(a) => Value::Item(a.duplicate().unwrap()),
            Value::Nothing => Value::Nothing,
            Value::Just(a) => Value::Just(Box::new(a.duplicate())),
            Value::Pair(a, b) => Value::Pair(Box::new(a.duplicate()), Box::new(b.duplicate())),
            Value::Success(a) => Value::Success(Box::new(a.duplicate())),
            Value::Failure(a) => Value::Failure(Box::new(a.duplicate())),
            Value::Stream(number, id, shape) => Value::Stream(*number, *id, shape.duplicate()),
        }
    }
}

/// A value that is lent: one of its own, or a reference to one.
pub enum Lent<'a, A> {
    Own(A),
    Ref(&'a A),
}

impl<'a, A> Lent<'a, A> {
    /// What is lent.
    pub open spec fn value(self) -> A {
        match self {
            Lent::Own(a) => a,
            Lent::Ref(a) => *a,
        }
    }
}

/// A type whose values a network that carries `T` can hold: `T` itself, unit,
/// booleans, characters, numbers and texts, and options, results, pairs and streams
/// of events.
pub trait Carried<T: Item>: Sized + Send + Sync + 'static {
    /// The shape that all values of this type have.
    spec fn shape() -> Shape;

    /// The form in which an event travels.
    spec fn encode(self) -> Value<T>;

    /// The event that travels as `value`, if there is one.
    spec fn decode(value: Value<T>) -> Option<Self>;

    /// An event has the shape of its type and can be read back.
    proof fn encoded(self)
        ensures
            self.encode().fits(Self::shape()),
            Self::decode(self.encode()) == Some(self),
    ;

    /// Every value of the right shape is some event.
    proof fn decoded(value: Value<T>)
        requires
            value.fits(Self::shape()),
        ensures
            Self::decode(value) is Some,
            Self::decode(value)->0.encode() == value,
    ;

    /// The shape that all values of this type have.
    fn carried() -> (shape: Shape)
        ensures
            shape == Self::shape(),
    ;

    /// Turn an event into the form in which it travels.
    fn into_value(self) -> (value: Value<T>)
        ensures
            value == self.encode(),
    ;

    /// Read an event back.
    fn from_value(value: Value<T>) -> (event: Option<Self>)
        ensures
            event == Self::decode(value),
    ;
}

/// A type whose values can be accumulated in a network that carries `T`: `T` itself
/// and every type of events.
pub trait Accumulator<T: Item>: Carried<T> {
    /// Read a value: of one's own type where it is, of any other a copy.
    fn lend<'a>(value: &'a Value<T>) -> (lent: Lent<'a, Self>)
        requires
            value.fits(Self::shape()),
        ensures
            Self::decode(*value) == Some(lent.value()),
    ;
}

/// A type whose values can be fired as events in a network that carries `T`: `T`
/// itself if it is [`Copied`], unit, booleans, characters, numbers and texts, and
/// options, results, pairs and streams of such types.
pub trait Event<T: Item>: Carried<T> {
    /// Equal values can be made of all values.
    proof fn copied()
        ensures
            Self::shape().is_copied(T::is_copied()),
    ;
}

/// Read an event by a copy of it.
pub fn lend_copy<'a, T: Item, A: Event<T>>(value: &'a Value<T>) -> (lent: Lent<'a, A>)
    requires
        value.fits(A::shape()),
    ensures
        A::decode(*value) == Some(lent.value()),
{
    proof {
        A::copied();
        value.lemma_copied(A::shape(), T::is_copied());
        A::decoded(*value);
    }
    Lent::Own(A::from_value(value.duplicate()).unwrap())
}

impl<T: Item> Carried<T> for T {
    open spec fn shape() -> Shape {
        Shape::Item
    }

    open spec fn encode(self) -> Value<T> {
        Value::Item(self)
    }

    open spec fn decode(value: Value<T>) -> Option<T> {
        match value {
            Value::Item(a) => Some(a),
            _ => None,
        }
    }

    proof fn encoded(self) {
    }

    proof fn decoded(value: Value<T>) {
    }

    fn carried() -> (shape: Shape) {
        Shape::Item
    }

    fn into_value(self) -> (value: Value<T>) {
        Value::Item(self)
    }

    fn from_value(value: Value<T>) -> (event: Option<T>) {
        match value {
            Value::Item(a) => Some(a),
            _ => None,
        }
    }
}

impl<T: Item> Accumulator<T> for T {
    fn lend<'a>(value: &'a Value<T>) -> (lent: Lent<'a, T>) {
        if let Value::Item(a) = value {
            return Lent::Ref(a);
        }
        Lent::Own(vstd::pervasive::unreached())
    }
}

impl<T: Copied> Event<T> for T {
    proof fn copied() {
        <T as Copied>::copied();
    }
}

impl<T: Item> Carried<T> for () {
    open spec fn shape() -> Shape {
        Shape::Unit
    }

    open spec fn encode(self) -> Value<T> {
        Value::Unit
    }

    open spec fn decode(value: Value<T>) -> Option<()> {
        match value {
            Value::Unit => Some(()),
            _ => None,
        }
    }

    proof fn encoded(self) {
    }

    proof fn decoded(value: Value<T>) {
    }

    fn carried() -> (shape: Shape) {
        Shape::Unit
    }

    fn into_value(self) -> (value: Value<T>) {
        Value::Unit
    }

    fn from_value(value: Value<T>) -> (event: Option<()>) {
        match value {
            Value::Unit => Some(()),
            _ => None,
        }
    }
}

impl<T: Item> Accumulator<T> for () {
    fn lend<'a>(value: &'a Value<T>) -> (lent: Lent<'a, ()>) {
        lend_copy(value)
    }
}

impl<T: Item> Event<T> for () {
    proof fn copied() {
    }
}

impl<T: Item, A: Event<T>> Carried<T> for Option<A> {
    open spec fn shape() -> Shape {
        Shape::Optional(Box::new(A::shape()))
    }

    open spec fn encode(self) -> Value<T> {
        match self {
            None => Value::Nothing,
            Some(a) => Value::Just(Box::new(a.encode())),
        }
    }

    open spec fn decode(value: Value<T>) -> Option<Option<A>> {
        match value {
            Value::Nothing => Some(None),
            Value::Just(inner) => match A::decode(*inner) {
                Some(a) => Some(Some(a)),
                None => None,
            },
            _ => None,
        }
    }

    proof fn encoded(self) {
        if let Some(a) = self {
            a.encoded();
        }
    }

    proof fn decoded(value: Value<T>) {
        if let Value::Just(inner) = value {
            A::decoded(*inner);
        }
    }

    fn carried() -> (shape: Shape) {
        Shape::Optional(Box::new(A::carried()))
    }

    fn into_value(self) -> (value: Value<T>) {
        match self {
            None => Value::Nothing,
            Some(a) => Value::Just(Box::new(a.into_value())),
        }
    }

    fn from_value(value: Value<T>) -> (event: Option<Option<A>>) {
        match value {
            Value::Nothing => Some(None),
            Value::Just(inner) => match A::from_value(*inner) {
                Some(a) => Some(Some(a)),
                None => None,
            },
            _ => None,
        }
    }
}

impl<T: Item, A: Event<T>> Accumulator<T> for Option<A> {
    fn lend<'a>(value: &'a Value<T>) -> (lent: Lent<'a, Option<A>>) {
        lend_copy(value)
    }
}

impl<T: Item, A: Event<T>> Event<T> for Option<A> {
    proof fn copied() {
        A::copied();
    }
}

impl<T: Item, A: Event<T>, B: Event<T>> Carried<T> for (A, B) {
    open spec fn shape() -> Shape {
        Shape::Pair(Box::new(A::shape()), Box::new(B::shape()))
    }

    open spec fn encode(self) -> Value<T> {
        Value::Pair(Box::new(self.0.encode()), Box::new(self.1.encode()))
    }

    open spec fn decode(value: Value<T>) -> Option<(A, B)> {
        match value {
            Value::Pair(x, y) => match (A::decode(*x), B::decode(*y)) {
                (Some(a), Some(b)) => Some((a, b)),
                _ => None,
            },
            _ => None,
        }
    }

    proof fn encoded(self) {
        self.0.encoded();
        self.1.encoded();
    }

    proof fn decoded(value: Value<T>) {
        if let Value::Pair(x, y) = value {
            A::decoded(*x);
            B::decoded(*y);
        }
    }

    fn carried() -> (shape: Shape) {
        Shape::Pair(Box::new(A::carried()), Box::new(B::carried()))
    }

    fn into_value(self) -> (value: Value<T>) {
        Value::Pair(Box::new(self.0.into_value()), Box::new(self.1.into_value()))
    }

    fn from_value(value: Value<T>) -> (event: Option<(A, B)>) {
        match value {
            Value::Pair(x, y) => match (A::from_value(*x), B::from_value(*y)) {
                (Some(a), Some(b)) => Some((a, b)),
                _ => None,
            },
            _ => None,
        }
    }
}

impl<T: Item, A: Event<T>, B: Event<T>> Accumulator<T> for (A, B) {
    fn lend<'a>(value: &'a Value<T>) -> (lent: Lent<'a, (A, B)>) {
        lend_copy(value)
    }
}

impl<T: Item, A: Event<T>, B: Event<T>> Event<T> for (A, B) {
    proof fn copied() {
        A::copied();
        B::copied();
    }
}

impl<T: Item, A: Event<T>, B: Event<T>> Carried<T> for Result<A, B> {
    open spec fn shape() -> Shape {
        Shape::Fallible(Box::new(A::shape()), Box::new(B::shape()))
    }

    open spec fn encode(self) -> Value<T> {
        match self {
            Ok(a) => Value::Success(Box::new(a.encode())),
            Err(b) => Value::Failure(Box::new(b.encode())),
        }
    }

    open spec fn decode(value: Value<T>) -> Option<Result<A, B>> {
        match value {
            Value::Success(x) => match A::decode(*x) {
                Some(a) => Some(Ok(a)),
                None => None,
            },
            Value::Failure(y) => match B::decode(*y) {
                Some(b) => Some(Err(b)),
                None => None,
            },
            _ => None,
        }
    }

    proof fn encoded(self) {
        match self {
            Ok(a) => a.encoded(),
            Err(b) => b.encoded(),
        }
    }

    proof fn decoded(value: Value<T>) {
        match value {
            Value::Success(x) => A::decoded(*x),
            Value::Failure(y) => B::decoded(*y),
            _ => {},
        }
    }

    fn carried() -> (shape: Shape) {
        Shape::Fallible(Box::new(A::carried()), Box::new(B::carried()))
    }

    fn into_value(self) -> (value: Value<T>) {
        match self {
            Ok(a) => Value::Success(Box::new(a.into_value())),
            Err(b) => Value::Failure(Box::new(b.into_value())),
        }
    }

    fn from_value(value: Value<T>) -> (event: Option<Result<A, B>>) {
        match value {
            Value::Success(x) => match A::from_value(*x) {
                Some(a) => Some(Ok(a)),
                None => None,
            },
            Value::Failure(y) => match B::from_value(*y) {
                Some(b) => Some(Err(b)),
                None => None,
            },
            _ => None,
        }
    }
}

impl<T: Item, A: Event<T>, B: Event<T>> Accumulator<T> for Result<A, B> {
    fn lend<'a>(value: &'a Value<T>) -> (lent: Lent<'a, Result<A, B>>) {
        lend_copy(value)
    }
}

impl<T: Item, A: Event<T>, B: Event<T>> Event<T> for Result<A, B> {
    proof fn copied() {
        A::copied();
        B::copied();
    }
}

} // verus!
