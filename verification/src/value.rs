//! The tagged value container stored in reactive nodes.
//!
//! A node's value cell holds a [`Value`]: a closed variant type whose tag is
//! checked on every typed access. A typed handle whose type does not match
//! the stored tag is a programmer error and is ruled out by preconditions;
//! access through a stale handle degrades to "absent" instead.

use vstd::prelude::*;

verus! {

/// A value held by a reactive node: the unit marker, a boolean, an integer,
/// or a piece of text. Effects that only perform side effects store
/// [`Value::Unit`].
#[derive(PartialEq, Eq, Debug)]
pub enum Value {
    Unit,
    Bool(bool),
    Int(i64),
    Text(String),
}

impl Clone for Value {
    fn clone(&self) -> (r: Self)
        ensures
            r == *self,
    {
        match self {
            Value::Unit => Value::Unit,
            Value::Bool(b) => Value::Bool(*b),
            Value::Int(i) => Value::Int(*i),
            Value::Text(s) => Value::Text(s.clone()),
        }
    }
}

/// A plain type that can be stored in a signal: it embeds into [`Value`]
/// and can be read back from the variant it produced.
pub trait SignalValue: Sized {
    /// The variant that `wrap` produces for `self`.
    spec fn to_value_spec(self) -> Value;

    /// The typed reading of a stored value; `None` on a tag mismatch.
    spec fn of_value_spec(v: Value) -> Option<Self>;

    /// Reading back what was stored yields the original value.
    proof fn lemma_wrap_roundtrip(self)
        ensures
            Self::of_value_spec(self.to_value_spec()) == Some(self),
    ;

    /// Embeds `self` into the variant container.
    fn wrap(self) -> (v: Value)
        ensures
            v == self.to_value_spec(),
    ;

    /// Reads a stored value back; `None` on a tag mismatch.
    fn read(v: Value) -> (r: Option<Self>)
        ensures
            r == Self::of_value_spec(v),
    ;
}

/// Wraps a plain value into the container stored by the node store.
pub fn wrap_value<T: SignalValue>(value: T) -> (v: Value)
    ensures
        v == value.to_value_spec(),
{
    value.wrap()
}

impl SignalValue for i64 {
    open spec fn to_value_spec(self) -> Value {
        Value::Int(self)
    }

    open spec fn of_value_spec(v: Value) -> Option<i64> {
        match v {
            Value::Int(i) => Some(i),
            _ => None,
        }
    }

    proof fn lemma_wrap_roundtrip(self) {
    }

    fn wrap(self) -> (v: Value) {
        Value::Int(self)
    }

    fn read(v: Value) -> (r: Option<i64>) {
        match v {
            Value::Int(i) => Some(i),
            _ => None,
        }
    }
}

impl SignalValue for i32 {
    open spec fn to_value_spec(self) -> Value {
        Value::Int(self as i64)
    }

    open spec fn of_value_spec(v: Value) -> Option<i32> {
        match v {
            Value::Int(i) => if i32::MIN <= i <= i32::MAX {
                Some(i as i32)
            } else {
                None
            },
            _ => None,
        }
    }

    proof fn lemma_wrap_roundtrip(self) {
    }

    fn wrap(self) -> (v: Value) {
        Value::Int(self as i64)
    }

    fn read(v: Value) -> (r: Option<i32>) {
        match v {
            Value::Int(i) => if (i32::MIN as i64) <= i && i <= (i32::MAX as i64) {
                Some(i as i32)
            } else {
                None
            },
            _ => None,
        }
    }
}

impl SignalValue for bool {
    open spec fn to_value_spec(self) -> Value {
        Value::Bool(self)
    }

    open spec fn of_value_spec(v: Value) -> Option<bool> {
        match v {
            Value::Bool(b) => Some(b),
            _ => None,
        }
    }

    proof fn lemma_wrap_roundtrip(self) {
    }

    fn wrap(self) -> (v: Value) {
        Value::Bool(self)
    }

    fn read(v: Value) -> (r: Option<bool>) {
        match v {
            Value::Bool(b) => Some(b),
            _ => None,
        }
    }
}

impl SignalValue for String {
    open spec fn to_value_spec(self) -> Value {
        Value::Text(self)
    }

    open spec fn of_value_spec(v: Value) -> Option<String> {
        match v {
            Value::Text(s) => Some(s),
            _ => None,
        }
    }

    proof fn lemma_wrap_roundtrip(self) {
    }

    fn wrap(self) -> (v: Value) {
        Value::Text(self)
    }

    fn read(v: Value) -> (r: Option<String>) {
        match v {
            Value::Text(s) => Some(s),
            _ => None,
        }
    }
}

impl SignalValue for () {
    open spec fn to_value_spec(self) -> Value {
        Value::Unit
    }

    open spec fn of_value_spec(v: Value) -> Option<()> {
        match v {
            Value::Unit => Some(()),
            _ => None,
        }
    }

    proof fn lemma_wrap_roundtrip(self) {
    }

    fn wrap(self) -> (v: Value) {
        Value::Unit
    }

    fn read(v: Value) -> (r: Option<()>) {
        match v {
            Value::Unit => Some(()),
            _ => None,
        }
    }
}

} // verus!
