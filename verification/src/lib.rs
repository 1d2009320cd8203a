//! Tools for iterators over maps (`HashMap`, `BTreeMap`, etc), or over any
//! two-element tuple (like `(K, V)`).
//!
//! Import [`IterMap`] to get the adaptors as methods on iterators of pairs.
//! Each adaptor is lazy: it pulls from the iterator it was put around only
//! when it is pulled itself, from the front with `next` or from the back
//! with `next_back`.

use vstd::prelude::*;

pub mod filter;
pub mod iter;
pub mod map_keys;
pub mod map_values;
pub mod swap;

pub use self::filter::{FilterKeys, FilterValues};
pub use self::swap::Swap;
pub use self::{map_keys::MapKeys, map_values::MapValues};

verus! {

/// Adds the adaptors as methods to iterators over maps and other iterators
/// of two-element tuples (like `(K, V)`).
///
/// No method pulls anything: each moves the iterator and the operation into
/// the adaptor that it returns.
pub trait IterMap<I, K, V>: Sized {
    /// The iterator that the adaptors are put around.
    spec fn source(self) -> I;

    /// Maps map keys, or the first element of a two-element tuple (like
    /// `(K, V)`), leaving the other element intact and untouched.
    fn map_keys<Fk, L>(self, f: Fk) -> (r: MapKeys<I, Fk>) where Fk: FnMut(K) -> L
        ensures
            r.inner() == self.source(),
            r.op() == f,
    ;

    /// Maps map values (or the second element of a two-element tuple like
    /// `(K, V)`), leaving the other element intact and untouched.
    fn map_values<Fv, W>(self, f: Fv) -> (r: MapValues<I, Fv>) where Fv: FnMut(V) -> W
        ensures
            r.inner() == self.source(),
            r.op() == f,
    ;

    /// Allows filtering based on map keys (or the first element of a
    /// two-element tuple like `(K, V)`).
    fn filter_keys<Fk>(self, key_op: Fk) -> (r: FilterKeys<I, Fk>) where Fk: FnMut(&K) -> bool
        ensures
            r.inner() == self.source(),
            r.op() == key_op,
    ;

    /// Allows filtering based on map values (or the second element of a
    /// two-element tuple like `(K, V)`).
    fn filter_values<Fv>(self, value_op: Fv) -> (r: FilterValues<I, Fv>) where Fv: FnMut(&V) -> bool
        ensures
            r.inner() == self.source(),
            r.op() == value_op,
    ;
}

impl<I, K, V> IterMap<I, K, V> for I where I: Iterator<Item = (K, V)> {
    open spec fn source(self) -> I {
        self
    }

    fn map_keys<Fk, L>(self, key_op: Fk) -> (r: MapKeys<I, Fk>) where Fk: FnMut(K) -> L {
        MapKeys::new(self, key_op)
    }

    fn map_values<Fv, W>(self, value_op: Fv) -> (r: MapValues<I, Fv>) where Fv: FnMut(V) -> W {
        MapValues::new(self, value_op)
    }

    fn filter_keys<Fk>(self, key_op: Fk) -> (r: FilterKeys<I, Fk>) where Fk: FnMut(&K) -> bool {
        FilterKeys::new(self, key_op)
    }

    fn filter_values<Fv>(self, value_op: Fv) -> (r: FilterValues<I, Fv>) where Fv: FnMut(&V) -> bool {
        FilterValues::new(self, value_op)
    }
}

} // verus!
