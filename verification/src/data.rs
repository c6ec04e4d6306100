//! The stored entry, and the capabilities that key and value types must
//! supply beyond hashing: abstract equality and duplication.

use vstd::prelude::*;

verus! {

/// One stored entry: an owned (key, value) pair.
#[derive(Debug, Clone, Copy)]
pub struct Data<K, V> {
    pub key: K,
    pub value: V,
}

impl<K: View, V: View> View for Data<K, V> {
    type V = (K::V, V::V);

    open spec fn view(&self) -> (K::V, V::V) {
        (self.key@, self.value@)
    }
}

/// A type whose values can be tested for abstract equality: `equals`
/// decides whether two values stand for the same thing (their views agree).
pub trait Equatable: View + Sized {
    fn equals(&self, other: &Self) -> (r: bool)
        ensures
            r == (self@ == other@),
    ;
}

/// A type whose values can be duplicated without changing what they stand
/// for: the copy has the same view as the original.
pub trait Duplicable: View + Sized {
    fn dup(&self) -> (r: Self)
        ensures
            r@ == self@,
    ;
}

impl Equatable for String {
    fn equals(&self, other: &Self) -> (r: bool) {
        *self == *other
    }
}

impl Duplicable for String {
    fn dup(&self) -> (r: Self) {
        self.clone()
    }
}

impl<K: Duplicable, V: Duplicable> Duplicable for Data<K, V> {
    fn dup(&self) -> (r: Self) {
        Data { key: self.key.dup(), value: self.value.dup() }
    }
}

} // verus!
