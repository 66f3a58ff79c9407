//! Native types and the values that stand for them.

use vstd::prelude::*;
use vstd::slice::slice_to_vec;
use crate::error::ConversionError;
use crate::value::{lemma_view_list, lookup, views, BoltMap, Value, ValueView};

verus! {

/// A native type that every value of can be handed over as a [`Value`].
pub trait IntoValue: Sized {
    /// The value that stands for `self`.
    spec fn as_value(&self) -> ValueView;

    fn into_value(self) -> (v: Value)
        ensures
            v@ == self.as_value(),
    ;
}

/// A native type that can be read from a [`Value`].
pub trait FromValue: IntoValue {
    /// Why `v` does not stand for a value of the type, if it does not.
    spec fn refusal(v: ValueView) -> Option<ConversionError>;

    /// The native value that `v` stands for: the one that `v` stands for
    /// in turn.
    fn try_from_value(v: &Value) -> (r: Result<Self, ConversionError>)
        ensures
            match r {
                Ok(x) => Self::refusal(v@) is None && x.as_value() == v@,
                Err(e) => Self::refusal(v@) == Some(e),
            },
    ;

    /// What stands for a native value is read as one.
    proof fn lemma_accepts_own(&self)
        ensures
            Self::refusal(self.as_value()) is None,
    ;
}

/// Why `v` is no integer from `low` to `high`, if it is none.
pub open spec fn int_refusal(v: ValueView, low: int, high: int) -> Option<ConversionError> {
    match v {
        ValueView::Int(i) => if low <= i <= high {
            None
        } else {
            Some(ConversionError::RangeOverflow)
        },
        _ => Some(ConversionError::TypeMismatch),
    }
}

/// The integer that `v` holds, where it lies from `low` to `high`.
pub fn int_within(v: &Value, low: i64, high: i64) -> (r: Result<i64, ConversionError>)
    ensures
        match r {
            Ok(i) => int_refusal(v@, low as int, high as int) is None && v@ == ValueView::Int(i),
            Err(e) => int_refusal(v@, low as int, high as int) == Some(e),
        },
{
    match v {
        Value::Int(i) => if low <= *i && *i <= high {
            Ok(*i)
        } else {
            Err(ConversionError::RangeOverflow)
        },
        _ => Err(ConversionError::TypeMismatch),
    }
}

impl IntoValue for i8 {
    open spec fn as_value(&self) -> ValueView {
        ValueView::Int(*self as i64)
    }

    fn into_value(self) -> (v: Value) {
        Value::Int(self as i64)
    }
}

impl FromValue for i8 {
    open spec fn refusal(v: ValueView) -> Option<ConversionError> {
        int_refusal(v, -0x80, 0x7F)
    }

    fn try_from_value(v: &Value) -> (r: Result<Self, ConversionError>) {
        match int_within(v, -0x80, 0x7F) {
            Ok(i) => Ok(i as i8),
            Err(e) => Err(e),
        }
    }

    proof fn lemma_accepts_own(&self) {
    }
}

impl IntoValue for i16 {
    open spec fn as_value(&self) -> ValueView {
        ValueView::Int(*self as i64)
    }

    fn into_value(self) -> (v: Value) {
        Value::Int(self as i64)
    }
}

impl FromValue for i16 {
    open spec fn refusal(v: ValueView) -> Option<ConversionError> {
        int_refusal(v, -0x8000, 0x7FFF)
    }

    fn try_from_value(v: &Value) -> (r: Result<Self, ConversionError>) {
        match int_within(v, -0x8000, 0x7FFF) {
            Ok(i) => Ok(i as i16),
            Err(e) => Err(e),
        }
    }

    proof fn lemma_accepts_own(&self) {
    }
}

impl IntoValue for i32 {
    open spec fn as_value(&self) -> ValueView {
        ValueView::Int(*self as i64)
    }

    fn into_value(self) -> (v: Value) {
        Value::Int(self as i64)
    }
}

impl FromValue for i32 {
    open spec fn refusal(v: ValueView) -> Option<ConversionError> {
        int_refusal(v, -0x8000_0000, 0x7FFF_FFFF)
    }

    fn try_from_value(v: &Value) -> (r: Result<Self, ConversionError>) {
        match int_within(v, -0x8000_0000, 0x7FFF_FFFF) {
            Ok(i) => Ok(i as i32),
            Err(e) => Err(e),
        }
    }

    proof fn lemma_accepts_own(&self) {
    }
}

impl IntoValue for i64 {
    open spec fn as_value(&self) -> ValueView {
        ValueView::Int(*self as i64)
    }

    fn into_value(self) -> (v: Value) {
        Value::Int(self as i64)
    }
}

impl FromValue for i64 {
    open spec fn refusal(v: ValueView) -> Option<ConversionError> {
        int_refusal(v, -0x8000_0000_0000_0000, 0x7FFF_FFFF_FFFF_FFFF)
    }

    fn try_from_value(v: &Value) -> (r: Result<Self, ConversionError>) {
        match int_within(v, -0x8000_0000_0000_0000, 0x7FFF_FFFF_FFFF_FFFF) {
            Ok(i) => Ok(i as i64),
            Err(e) => Err(e),
        }
    }

    proof fn lemma_accepts_own(&self) {
    }
}

impl IntoValue for u8 {
    open spec fn as_value(&self) -> ValueView {
        ValueView::Int(*self as i64)
    }

    fn into_value(self) -> (v: Value) {
        Value::Int(self as i64)
    }
}

impl FromValue for u8 {
    open spec fn refusal(v: ValueView) -> Option<ConversionError> {
        int_refusal(v, 0, 0xFF)
    }

    fn try_from_value(v: &Value) -> (r: Result<Self, ConversionError>) {
        match int_within(v, 0, 0xFF) {
            Ok(i) => Ok(i as u8),
            Err(e) => Err(e),
        }
    }

    proof fn lemma_accepts_own(&self) {
    }
}

impl IntoValue for u16 {
    open spec fn as_value(&self) -> ValueView {
        ValueView::Int(*self as i64)
    }

    fn into_value(self) -> (v: Value) {
        Value::Int(self as i64)
    }
}

impl FromValue for u16 {
    open spec fn refusal(v: ValueView) -> Option<ConversionError> {
        int_refusal(v, 0, 0xFFFF)
    }

    fn try_from_value(v: &Value) -> (r: Result<Self, ConversionError>) {
        match int_within(v, 0, 0xFFFF) {
            Ok(i) => Ok(i as u16),
            Err(e) => Err(e),
        }
    }

    proof fn lemma_accepts_own(&self) {
    }
}

impl IntoValue for u32 {
    open spec fn as_value(&self) -> ValueView {
        ValueView::Int(*self as i64)
    }

    fn into_value(self) -> (v: Value) {
        Value::Int(self as i64)
    }
}

impl FromValue for u32 {
    open spec fn refusal(v: ValueView) -> Option<ConversionError> {
        int_refusal(v, 0, 0xFFFF_FFFF)
    }

    fn try_from_value(v: &Value) -> (r: Result<Self, ConversionError>) {
        match int_within(v, 0, 0xFFFF_FFFF) {
            Ok(i) => Ok(i as u32),
            Err(e) => Err(e),
        }
    }

    proof fn lemma_accepts_own(&self) {
    }
}

impl IntoValue for bool {
    open spec fn as_value(&self) -> ValueView {
        ValueView::Bool(*self)
    }

    fn into_value(self) -> (v: Value) {
        Value::Bool(self)
    }
}

impl FromValue for bool {
    open spec fn refusal(v: ValueView) -> Option<ConversionError> {
        if v is Bool {
            None
        } else {
            Some(ConversionError::TypeMismatch)
        }
    }

    fn try_from_value(v: &Value) -> (r: Result<Self, ConversionError>) {
        match v {
            Value::Bool(b) => Ok(*b),
            _ => Err(ConversionError::TypeMismatch),
        }
    }

    proof fn lemma_accepts_own(&self) {
    }
}

impl IntoValue for String {
    open spec fn as_value(&self) -> ValueView {
        ValueView::Text(self@)
    }

    fn into_value(self) -> (v: Value) {
        Value::Text(self)
    }
}

impl FromValue for String {
    open spec fn refusal(v: ValueView) -> Option<ConversionError> {
        if v is Text {
            None
        } else {
            Some(ConversionError::TypeMismatch)
        }
    }

    fn try_from_value(v: &Value) -> (r: Result<Self, ConversionError>) {
        match v {
            Value::Text(text) => Ok(text.clone()),
            _ => Err(ConversionError::TypeMismatch),
        }
    }

    proof fn lemma_accepts_own(&self) {
    }
}

impl IntoValue for Vec<u8> {
    open spec fn as_value(&self) -> ValueView {
        ValueView::Bytes(self@)
    }

    fn into_value(self) -> (v: Value) {
        Value::Bytes(self)
    }
}

impl FromValue for Vec<u8> {
    open spec fn refusal(v: ValueView) -> Option<ConversionError> {
        if v is Bytes {
            None
        } else {
            Some(ConversionError::TypeMismatch)
        }
    }

    fn try_from_value(v: &Value) -> (r: Result<Self, ConversionError>) {
        match v {
            Value::Bytes(bytes) => Ok(slice_to_vec(bytes.as_slice())),
            _ => Err(ConversionError::TypeMismatch),
        }
    }

    proof fn lemma_accepts_own(&self) {
    }
}

impl IntoValue for Vec<Value> {
    open spec fn as_value(&self) -> ValueView {
        ValueView::List(views(self@))
    }

    fn into_value(self) -> (v: Value) {
        proof {
            lemma_view_list(self);
        }
        Value::List(self)
    }
}

impl FromValue for Vec<Value> {
    open spec fn refusal(v: ValueView) -> Option<ConversionError> {
        if v is List {
            None
        } else {
            Some(ConversionError::TypeMismatch)
        }
    }

    fn try_from_value(v: &Value) -> (r: Result<Self, ConversionError>) {
        match v {
            Value::List(_) => match v.duplicate() {
                Value::List(items) => {
                    proof {
                        lemma_view_list(items);
                    }
                    Ok(items)
                },
                _ => Err(ConversionError::TypeMismatch),
            },
            _ => Err(ConversionError::TypeMismatch),
        }
    }

    proof fn lemma_accepts_own(&self) {
    }
}

impl IntoValue for BoltMap {
    open spec fn as_value(&self) -> ValueView {
        ValueView::Dict(self@)
    }

    fn into_value(self) -> (v: Value) {
        Value::Dict(self)
    }
}

impl FromValue for BoltMap {
    open spec fn refusal(v: ValueView) -> Option<ConversionError> {
        if v is Dict {
            None
        } else {
            Some(ConversionError::TypeMismatch)
        }
    }

    fn try_from_value(v: &Value) -> (r: Result<Self, ConversionError>) {
        match v {
            Value::Dict(map) => Ok(map.duplicate()),
            _ => Err(ConversionError::TypeMismatch),
        }
    }

    proof fn lemma_accepts_own(&self) {
    }
}

impl IntoValue for Value {
    open spec fn as_value(&self) -> ValueView {
        self@
    }

    fn into_value(self) -> (v: Value) {
        self
    }
}

impl FromValue for Value {
    open spec fn refusal(v: ValueView) -> Option<ConversionError> {
        None
    }

    fn try_from_value(v: &Value) -> (r: Result<Self, ConversionError>) {
        Ok(v.duplicate())
    }

    proof fn lemma_accepts_own(&self) {
    }
}

/// Nothing stands for itself as the null value; anything else as what stands for it.
impl<T: IntoValue> IntoValue for Option<T> {
    open spec fn as_value(&self) -> ValueView {
        match self {
            Some(x) => x.as_value(),
            None => ValueView::Null,
        }
    }

    fn into_value(self) -> (v: Value) {
        match self {
            Some(x) => x.into_value(),
            None => Value::Null,
        }
    }
}

impl<T: FromValue> FromValue for Option<T> {
    open spec fn refusal(v: ValueView) -> Option<ConversionError> {
        if v is Null {
            None
        } else {
            T::refusal(v)
        }
    }

    fn try_from_value(v: &Value) -> (r: Result<Self, ConversionError>) {
        match v {
            Value::Null => Ok(None),
            _ => match T::try_from_value(v) {
                Ok(x) => Ok(Some(x)),
                Err(e) => Err(e),
            },
        }
    }

    proof fn lemma_accepts_own(&self) {
        match self {
            Some(x) => {
                x.lemma_accepts_own();
            },
            None => {},
        }
    }
}

impl BoltMap {
    /// The value of `key` as a `T`: nothing where the map has no such key,
    /// the failure where its value does not convert.
    pub fn get<T: FromValue>(&self, key: &str) -> (r: Option<Result<T, ConversionError>>)
        ensures
            match lookup(self@, key@) {
                None => r is None,
                Some(v) => match r {
                    Some(Ok(x)) => T::refusal(v) is None && x.as_value() == v,
                    Some(Err(e)) => T::refusal(v) == Some(e),
                    None => false,
                },
            },
    {
        match self.value(key) {
            Some(v) => Some(T::try_from_value(v)),
            None => None,
        }
    }
}

} // verus!
