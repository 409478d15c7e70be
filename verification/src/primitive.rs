//! Numbers, characters and texts as events.
use crate::value::{lend_copy, Accumulator, Carried, Event, Item, Lent, Shape, Value};
use vstd::prelude::*;

verus! {

impl<T: Item> Carried<T> for bool {
    open spec fn shape() -> Shape {
        Shape::Bool
    }

    open spec fn encode(self) -> Value<T> {
        Value::Bool(self)
    }

    open spec fn decode(value: Value<T>) -> Option<bool> {
        match value {
            Value::Bool(a) => Some(a),
            _ => None,
        }
    }

    proof fn encoded(self) {
    }

    proof fn decoded(value: Value<T>) {
    }

    fn carried() -> (shape: Shape) {
        Shape::Bool
    }

    fn into_value(self) -> (value: Value<T>) {
        Value::Bool(self)
    }

    fn from_value(value: Value<T>) -> (event: Option<bool>) {
        match value {
            Value::Bool(a) => Some(a),
            _ => None,
        }
    }
}

impl<T: Item> Accumulator<T> for bool {
    fn lend<'a>(value: &'a Value<T>) -> (lent: Lent<'a, bool>) {
        lend_copy(value)
    }
}

impl<T: Item> Event<T> for bool {
    proof fn copied() {
    }
}

impl<T: Item> Carried<T> for char {
    open spec fn shape() -> Shape {
        Shape::Char
    }

    open spec fn encode(self) -> Value<T> {
        Value::Char(self)
    }

    open spec fn decode(value: Value<T>) -> Option<char> {
        match value {
            Value::Char(a) => Some(a),
            _ => None,
        }
    }

    proof fn encoded(self) {
    }

    proof fn decoded(value: Value<T>) {
    }

    fn carried() -> (shape: Shape) {
        Shape::Char
    }

    fn into_value(self) -> (value: Value<T>) {
        Value::Char(self)
    }

    fn from_value(value: Value<T>) -> (event: Option<char>) {
        match value {
            Value::Char(a) => Some(a),
            _ => None,
        }
    }
}

impl<T: Item> Accumulator<T> for char {
    fn lend<'a>(value: &'a Value<T>) -> (lent: Lent<'a, char>) {
        lend_copy(value)
    }
}

impl<T: Item> Event<T> for char {
    proof fn copied() {
    }
}

impl<T: Item> Carried<T> for u8 {
    open spec fn shape() -> Shape {
        Shape::U8
    }

    open spec fn encode(self) -> Value<T> {
        Value::U8(self)
    }

    open spec fn decode(value: Value<T>) -> Option<u8> {
        match value {
            Value::U8(a) => Some(a),
            _ => None,
        }
    }

    proof fn encoded(self) {
    }

    proof fn decoded(value: Value<T>) {
    }

    fn carried() -> (shape: Shape) {
        Shape::U8
    }

    fn into_value(self) -> (value: Value<T>) {
        Value::U8(self)
    }

    fn from_value(value: Value<T>) -> (event: Option<u8>) {
        match value {
            Value::U8(a) => Some(a),
            _ => None,
        }
    }
}

impl<T: Item> Accumulator<T> for u8 {
    fn lend<'a>(value: &'a Value<T>) -> (lent: Lent<'a, u8>) {
        lend_copy(value)
    }
}

impl<T: Item> Event<T> for u8 {
    proof fn copied() {
    }
}

impl<T: Item> Carried<T> for u16 {
    open spec fn shape() -> Shape {
        Shape::U16
    }

    open spec fn encode(self) -> Value<T> {
        Value::U16(self)
    }

    open spec fn decode(value: Value<T>) -> Option<u16> {
        match value {
            Value::U16(a) => Some(a),
            _ => None,
        }
    }

    proof fn encoded(self) {
    }

    proof fn decoded(value: Value<T>) {
    }

    fn carried() -> (shape: Shape) {
        Shape::U16
    }

    fn into_value(self) -> (value: Value<T>) {
        Value::U16(self)
    }

    fn from_value(value: Value<T>) -> (event: Option<u16>) {
        match value {
            Value::U16(a) => Some(a),
            _ => None,
        }
    }
}

impl<T: Item> Accumulator<T> for u16 {
    fn lend<'a>(value: &'a Value<T>) -> (lent: Lent<'a, u16>) {
        lend_copy(value)
    }
}

impl<T: Item> Event<T> for u16 {
    proof fn copied() {
    }
}

impl<T: Item> Carried<T> for u32 {
    open spec fn shape() -> Shape {
        Shape::U32
    }

    open spec fn encode(self) -> Value<T> {
        Value::U32(self)
    }

    open spec fn decode(value: Value<T>) -> Option<u32> {
        match value {
            Value::U32(a) => Some(a),
            _ => None,
        }
    }

    proof fn encoded(self) {
    }

    proof fn decoded(value: Value<T>) {
    }

    fn carried() -> (shape: Shape) {
        Shape::U32
    }

    fn into_value(self) -> (value: Value<T>) {
        Value::U32(self)
    }

    fn from_value(value: Value<T>) -> (event: Option<u32>) {
        match value {
            Value::U32(a) => Some(a),
            _ => None,
        }
    }
}

impl<T: Item> Accumulator<T> for u32 {
    fn lend<'a>(value: &'a Value<T>) -> (lent: Lent<'a, u32>) {
        lend_copy(value)
    }
}

impl<T: Item> Event<T> for u32 {
    proof fn copied() {
    }
}

impl<T: Item> Carried<T> for u64 {
    open spec fn shape() -> Shape {
        Shape::U64
    }

    open spec fn encode(self) -> Value<T> {
        Value::U64(self)
    }

    open spec fn decode(value: Value<T>) -> Option<u64> {
        match value {
            Value::U64(a) => Some(a),
            _ => None,
        }
    }

    proof fn encoded(self) {
    }

    proof fn decoded(value: Value<T>) {
    }

    fn carried() -> (shape: Shape) {
        Shape::U64
    }

    fn into_value(self) -> (value: Value<T>) {
        Value::U64(self)
    }

    fn from_value(value: Value<T>) -> (event: Option<u64>) {
        match value {
            Value::U64(a) => Some(a),
            _ => None,
        }
    }
}

impl<T: Item> Accumulator<T> for u64 {
    fn lend<'a>(value: &'a Value<T>) -> (lent: Lent<'a, u64>) {
        lend_copy(value)
    }
}

impl<T: Item> Event<T> for u64 {
    proof fn copied() {
    }
}

impl<T: Item> Carried<T> for u128 {
    open spec fn shape() -> Shape {
        Shape::U128
    }

    open spec fn encode(self) -> Value<T> {
        Value::U128(self)
    }

    open spec fn decode(value: Value<T>) -> Option<u128> {
        match value {
            Value::U128(a) => Some(a),
            _ => None,
        }
    }

    proof fn encoded(self) {
    }

    proof fn decoded(value: Value<T>) {
    }

    fn carried() -> (shape: Shape) {
        Shape::U128
    }

    fn into_value(self) -> (value: Value<T>) {
        Value::U128(self)
    }

    fn from_value(value: Value<T>) -> (event: Option<u128>) {
        match value {
            Value::U128(a) => Some(a),
            _ => None,
        }
    }
}

impl<T: Item> Accumulator<T> for u128 {
    fn lend<'a>(value: &'a Value<T>) -> (lent: Lent<'a, u128>) {
        lend_copy(value)
    }
}

impl<T: Item> Event<T> for u128 {
    proof fn copied() {
    }
}

impl<T: Item> Carried<T> for usize {
    open spec fn shape() -> Shape {
        Shape::Usize
    }

    open spec fn encode(self) -> Value<T> {
        Value::Usize(self)
    }

    open spec fn decode(value: Value<T>) -> Option<usize> {
        match value {
            Value::Usize(a) => Some(a),
            _ => None,
        }
    }

    proof fn encoded(self) {
    }

    proof fn decoded(value: Value<T>) {
    }

    fn carried() -> (shape: Shape) {
        Shape::Usize
    }

    fn into_value(self) -> (value: Value<T>) {
        Value::Usize(self)
    }

    fn from_value(value: Value<T>) -> (event: Option<usize>) {
        match value {
            Value::Usize(a) => Some(a),
            _ => None,
        }
    }
}

impl<T: Item> Accumulator<T> for usize {
    fn lend<'a>(value: &'a Value<T>) -> (lent: Lent<'a, usize>) {
        lend_copy(value)
    }
}

impl<T: Item> Event<T> for usize {
    proof fn copied() {
    }
}

impl<T: Item> Carried<T> for i8 {
    open spec fn shape() -> Shape {
        Shape::I8
    }

    open spec fn encode(self) -> Value<T> {
        Value::I8(self)
    }

    open spec fn decode(value: Value<T>) -> Option<i8> {
        match value {
            Value::I8(a) => Some(a),
            _ => None,
        }
    }

    proof fn encoded(self) {
    }

    proof fn decoded(value: Value<T>) {
    }

    fn carried() -> (shape: Shape) {
        Shape::I8
    }

    fn into_value(self) -> (value: Value<T>) {
        Value::I8(self)
    }

    fn from_value(value: Value<T>) -> (event: Option<i8>) {
        match value {
            Value::I8(a) => Some(a),
            _ => None,
        }
    }
}

impl<T: Item> Accumulator<T> for i8 {
    fn lend<'a>(value: &'a Value<T>) -> (lent: Lent<'a, i8>) {
        lend_copy(value)
    }
}

impl<T: Item> Event<T> for i8 {
    proof fn copied() {
    }
}

impl<T: Item> Carried<T> for i16 {
    open spec fn shape() -> Shape {
        Shape::I16
    }

    open spec fn encode(self) -> Value<T> {
        Value::I16(self)
    }

    open spec fn decode(value: Value<T>) -> Option<i16> {
        match value {
            Value::I16(a) => Some(a),
            _ => None,
        }
    }

    proof fn encoded(self) {
    }

    proof fn decoded(value: Value<T>) {
    }

    fn carried() -> (shape: Shape) {
        Shape::I16
    }

    fn into_value(self) -> (value: Value<T>) {
        Value::I16(self)
    }

    fn from_value(value: Value<T>) -> (event: Option<i16>) {
        match value {
            Value::I16(a) => Some(a),
            _ => None,
        }
    }
}

impl<T: Item> Accumulator<T> for i16 {
    fn lend<'a>(value: &'a Value<T>) -> (lent: Lent<'a, i16>) {
        lend_copy(value)
    }
}

impl<T: Item> Event<T> for i16 {
    proof fn copied() {
    }
}

impl<T: Item> Carried<T> for i32 {
    open spec fn shape() -> Shape {
        Shape::I32
    }

    open spec fn encode(self) -> Value<T> {
        Value::I32(self)
    }

    open spec fn decode(value: Value<T>) -> Option<i32> {
        match value {
            Value::I32(a) => Some(a),
            _ => None,
        }
    }

    proof fn encoded(self) {
    }

    proof fn decoded(value: Value<T>) {
    }

    fn carried() -> (shape: Shape) {
        Shape::I32
    }

    fn into_value(self) -> (value: Value<T>) {
        Value::I32(self)
    }

    fn from_value(value: Value<T>) -> (event: Option<i32>) {
        match value {
            Value::I32(a) => Some(a),
            _ => None,
        }
    }
}

impl<T: Item> Accumulator<T> for i32 {
    fn lend<'a>(value: &'a Value<T>) -> (lent: Lent<'a, i32>) {
        lend_copy(value)
    }
}

impl<T: Item> Event<T> for i32 {
    proof fn copied() {
    }
}

impl<T: Item> Carried<T> for i64 {
    open spec fn shape() -> Shape {
        Shape::I64
    }

    open spec fn encode(self) -> Value<T> {
        Value::I64(self)
    }

    open spec fn decode(value: Value<T>) -> Option<i64> {
        match value {
            Value::I64(a) => Some(a),
            _ => None,
        }
    }

    proof fn encoded(self) {
    }

    proof fn decoded(value: Value<T>) {
    }

    fn carried() -> (shape: Shape) {
        Shape::I64
    }

    fn into_value(self) -> (value: Value<T>) {
        Value::I64(self)
    }

    fn from_value(value: Value<T>) -> (event: Option<i64>) {
        match value {
            Value::I64(a) => Some(a),
            _ => None,
        }
    }
}

impl<T: Item> Accumulator<T> for i64 {
    fn lend<'a>(value: &'a Value<T>) -> (lent: Lent<'a, i64>) {
        lend_copy(value)
    }
}

impl<T: Item> Event<T> for i64 {
    proof fn copied() {
    }
}

impl<T: Item> Carried<T> for i128 {
    open spec fn shape() -> Shape {
        Shape::I128
    }

    open spec fn encode(self) -> Value<T> {
        Value::I128(self)
    }

    open spec fn decode(value: Value<T>) -> Option<i128> {
        match value {
            Value::I128(a) => Some(a),
            _ => None,
        }
    }

    proof fn encoded(self) {
    }

    proof fn decoded(value: Value<T>) {
    }

    fn carried() -> (shape: Shape) {
        Shape::I128
    }

    fn into_value(self) -> (value: Value<T>) {
        Value::I128(self)
    }

    fn from_value(value: Value<T>) -> (event: Option<i128>) {
        match value {
            Value::I128(a) => Some(a),
            _ => None,
        }
    }
}

impl<T: Item> Accumulator<T> for i128 {
    fn lend<'a>(value: &'a Value<T>) -> (lent: Lent<'a, i128>) {
        lend_copy(value)
    }
}

impl<T: Item> Event<T> for i128 {
    proof fn copied() {
    }
}

impl<T: Item> Carried<T> for isize {
    open spec fn shape() -> Shape {
        Shape::Isize
    }

    open spec fn encode(self) -> Value<T> {
        Value::Isize(self)
    }

    open spec fn decode(value: Value<T>) -> Option<isize> {
        match value {
            Value::Isize(a) => Some(a),
            _ => None,
        }
    }

    proof fn encoded(self) {
    }

    proof fn decoded(value: Value<T>) {
    }

    fn carried() -> (shape: Shape) {
        Shape::Isize
    }

    fn into_value(self) -> (value: Value<T>) {
        Value::Isize(self)
    }

    fn from_value(value: Value<T>) -> (event: Option<isize>) {
        match value {
            Value::Isize(a) => Some(a),
            _ => None,
        }
    }
}

impl<T: Item> Accumulator<T> for isize {
    fn lend<'a>(value: &'a Value<T>) -> (lent: Lent<'a, isize>) {
        lend_copy(value)
    }
}

impl<T: Item> Event<T> for isize {
    proof fn copied() {
    }
}

impl<T: Item> Carried<T> for String {
    open spec fn shape() -> Shape {
        Shape::Text
    }

    open spec fn encode(self) -> Value<T> {
        Value::Text(self)
    }

    open spec fn decode(value: Value<T>) -> Option<String> {
        match value {
            Value::Text(a) => Some(a),
            _ => None,
        }
    }

    proof fn encoded(self) {
    }

    proof fn decoded(value: Value<T>) {
    }

    fn carried() -> (shape: Shape) {
        Shape::Text
    }

    fn into_value(self) -> (value: Value<T>) {
        Value::Text(self)
    }

    fn from_value(value: Value<T>) -> (event: Option<String>) {
        match value {
            Value::Text(a) => Some(a),
            _ => None,
        }
    }
}

impl<T: Item> Accumulator<T> for String {
    fn lend<'a>(value: &'a Value<T>) -> (lent: Lent<'a, String>) {
        lend_copy(value)
    }
}

impl<T: Item> Event<T> for String {
    proof fn copied() {
    }
}

} // verus!
