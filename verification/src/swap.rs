//! The adaptor that exchanges the components of every pair.

use vstd::prelude::*;
use vstd::std_specs::iter::{DoubleEndedIteratorSpec, IteratorSpec};
use crate::iter::{advanced, exact_len, inner_size_hint, reports, reports_exact};

verus! {

/// A pair with its two components exchanged.
pub open spec fn swap_pair<K, V>(p: (K, V)) -> (V, K) {
    (p.1, p.0)
}

/// A sequence of pairs with each pair's components exchanged, in the same order.
pub open spec fn swapped<K, V>(s: Seq<(K, V)>) -> Seq<(V, K)> {
    Seq::new(s.len(), |i: int| swap_pair(s[i]))
}

/// Yields every pair of the inner iterator with its components exchanged.
#[derive(Debug, Clone, Copy)]
pub struct Swap<I> {
    iter: I,
}

impl<I> Swap<I> {
    /// The inner iterator in its present state.
    pub closed spec fn inner(&self) -> I {
        self.iter
    }

    /// Puts the adaptor around `iter`. Nothing is pulled.
    pub fn new(iter: I) -> (s: Self)
        ensures
            s.inner() == iter,
    {
        Self { iter }
    }

    /// Exchanges the two components of one pair.
    pub fn map_item<K, V>(item: (K, V)) -> (r: (V, K))
        ensures
            r == swap_pair(item),
    {
        let (k, v) = item;
        (v, k)
    }
}

impl<I, K, V> Swap<I> where I: Iterator<Item = (K, V)> {
    /// Pulls one pair from the front of the inner iterator and exchanges its
    /// components; `None` once the inner iterator has nothing left.
    pub fn next(&mut self) -> (ret: Option<(V, K)>)
        ensures
            advanced(old(self).inner(), final(self).inner(), old(self).inner().remaining().len() > 0),
            old(self).inner().obeys_prophetic_iter_laws() ==> ({
                let s = old(self).inner().remaining();
                if s.len() > 0 {
                    &&& ret == Some(swapped(s)[0])
                    &&& final(self).inner().remaining() == s.drop_first()
                } else {
                    &&& ret is None
                    &&& final(self).inner().remaining() == s
                }
            }),
    {
        match self.iter.next() {
            Some(item) => Some(Self::map_item(item)),
            None => None,
        }
    }

    /// The bounds that the inner iterator reports on what is left: this
    /// adaptor yields one pair for each pair of the inner iterator.
    pub fn size_hint(&self) -> (hint: (usize, Option<usize>))
        ensures
            reports(self.inner(), hint),
    {
        inner_size_hint(&self.iter)
    }

    /// The exact count of pairs left, where the inner iterator reports one:
    /// the lower bound that it reports, where the upper bound is the same.
    pub fn len(&self) -> (n: Option<usize>)
        ensures
            reports_exact(self.inner(), n),
    {
        let hint = self.size_hint();
        assert(reports(self.inner(), hint));
        exact_len(hint)
    }

    /// Pulls from the front until the inner iterator is exhausted and returns
    /// what was yielded, in the order of the pulls.
    pub fn collect(self) -> (out: Vec<(V, K)>)
        requires
            self.inner().obeys_prophetic_iter_laws(),
            self.inner().decrease() is Some,
        ensures
            out@ == swapped(self.inner().remaining()),
    {
        let ghost s = self.inner().remaining();
        let mut this = self;
        let mut out: Vec<(V, K)> = Vec::new();
        loop
            invariant
                this.inner().obeys_prophetic_iter_laws(),
                this.inner().decrease() is Some,
                s == self.inner().remaining(),
                out@.len() <= s.len(),
                this.inner().remaining() == s.skip(out@.len() as int),
                forall|i: int| 0 <= i < out@.len() ==> out@[i] == swap_pair(s[i]),
            ensures
                out@.len() == s.len(),
            decreases this.inner().decrease()->0,
        {
            match this.next() {
                Some(item) => {
                    out.push(item);
                },
                None => {
                    break ;
                },
            }
        }
        assert(out@ =~= swapped(s));
        out
    }
}

impl<I, K, V> Swap<I> where I: DoubleEndedIterator<Item = (K, V)> {
    /// Pulls one pair from the back of the inner iterator and exchanges its
    /// components; `None` once the inner iterator has nothing left.
    pub fn next_back(&mut self) -> (ret: Option<(V, K)>)
        ensures
            advanced(old(self).inner(), final(self).inner(), old(self).inner().remaining().len() > 0),
            old(self).inner().obeys_prophetic_iter_laws() ==> ({
                let s = old(self).inner().remaining();
                if s.len() > 0 {
                    &&& ret == Some(swapped(s).last())
                    &&& final(self).inner().remaining() == s.drop_last()
                } else {
                    &&& ret is None
                    &&& final(self).inner().remaining() == s
                }
            }),
    {
        match self.iter.next_back() {
            Some(item) => Some(Self::map_item(item)),
            None => None,
        }
    }

    /// Pulls from the back until the inner iterator is exhausted and returns
    /// what was yielded, in the order of the pulls.
    pub fn collect_rev(self) -> (out: Vec<(V, K)>)
        requires
            self.inner().obeys_prophetic_iter_laws(),
            self.inner().decrease() is Some,
        ensures
            out@ == swapped(self.inner().remaining()).reverse(),
    {
        let ghost s = self.inner().remaining();
        let mut this = self;
        let mut out: Vec<(V, K)> = Vec::new();
        loop
            invariant
                this.inner().obeys_prophetic_iter_laws(),
                this.inner().decrease() is Some,
                s == self.inner().remaining(),
                out@.len() <= s.len(),
                this.inner().remaining() == s.take(s.len() - out@.len()),
                forall|i: int| 0 <= i < out@.len() ==> out@[i] == swap_pair(s[s.len() - 1 - i]),
            ensures
                out@.len() == s.len(),
            decreases this.inner().decrease()->0,
        {
            match this.next_back() {
                Some(item) => {
                    out.push(item);
                },
                None => {
                    break ;
                },
            }
        }
        assert(out@ =~= swapped(s).reverse());
        out
    }
}

/// Exchanging the components of every pair twice gives back the sequence
/// that one started with.
pub proof fn lemma_swapped_twice<K, V>(s: Seq<(K, V)>)
    ensures
        swapped(swapped(s)) == s,
{
    assert(swapped(swapped(s)) =~= s);
}

/// What a swap yields when pulled from the back to exhaustion is the reverse
/// of what it yields when pulled from the front: exchanging components and
/// reversing the order commute.
pub proof fn lemma_swapped_reverse<K, V>(s: Seq<(K, V)>)
    ensures
        swapped(s.reverse()) == swapped(s).reverse(),
        swapped(s).len() == s.len(),
{
    assert(swapped(s.reverse()) =~= swapped(s).reverse());
}

} // verus!
