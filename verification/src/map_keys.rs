//! The adaptor that maps first components.
//!
//! What it yields is stated through the operation's own contract: a pair may
//! be yielded for a pair of the inner iterator where its first component is
//! a result that the operation allows for the inner pair's first component.

use vstd::prelude::*;
use vstd::std_specs::iter::{DoubleEndedIteratorSpec, IteratorSpec};
use crate::iter::{advanced, exact_len, inner_size_hint, reports, reports_exact, Iter};

verus! {

/// `dst` is a pair that the adaptor may yield for `src`: its first component
/// is a result of `op` on the first component of `src`, its second component
/// is that of `src`.
pub open spec fn key_mapped<K, V, L, P: FnMut(K) -> L>(op: P, src: (K, V), dst: (L, V)) -> bool {
    &&& call_ensures(op, (src.0,), dst.0)
    &&& dst.1 == src.1
}

/// `out` is a sequence that the adaptor may yield for `src`: as long as
/// `src`, and pair by pair related as `key_mapped` says.
pub open spec fn keys_mapped<K, V, L, P: FnMut(K) -> L>(
    op: P,
    src: Seq<(K, V)>,
    out: Seq<(L, V)>,
) -> bool {
    &&& out.len() == src.len()
    &&& forall|i: int| 0 <= i < src.len() ==> key_mapped(op, src[i], #[trigger] out[i])
}

/// `op` may be called on the first component of every pair of `src`.
pub open spec fn keys_accepted<K, V, L, P: FnMut(K) -> L>(op: P, src: Seq<(K, V)>) -> bool {
    forall|i: int| 0 <= i < src.len() ==> call_requires(op, (#[trigger] src[i].0,))
}

/// `op` may be called on the first component of the pair that comes next:
/// the first pair of `rest` where the inner iterator keeps the iterator laws
/// (`lawful`), and any pair at all where it does not.
pub open spec fn key_of_next_accepted<K, V, L, P: FnMut(K) -> L>(
    op: P,
    lawful: bool,
    rest: Seq<(K, V)>,
) -> bool {
    if lawful {
        rest.len() > 0 ==> call_requires(op, (rest[0].0,))
    } else {
        forall|k: K| call_requires(op, (k,))
    }
}

/// `op` has at most one result for each argument.
pub open spec fn key_op_determined<K, L, P: FnMut(K) -> L>(op: P) -> bool {
    forall|k: K, a: L, b: L| call_ensures(op, (k,), a) && call_ensures(op, (k,), b) ==> a == b
}

/// Maps the first component of every pair of the inner iterator and leaves
/// the second as it is.
#[must_use]
#[derive(Debug)]
pub struct MapKeys<I, P>(Iter<I, P>);

impl<I, P> MapKeys<I, P> {
    /// The inner iterator in its present state.
    pub closed spec fn inner(&self) -> I {
        self.0.iter
    }

    /// The operation applied to first components.
    pub closed spec fn op(&self) -> P {
        self.0.predicate
    }

    /// Puts the adaptor around `iter`, with `predicate` as the operation on
    /// first components. Nothing is pulled and the operation is not called.
    pub fn new<K, V, L>(iter: I, predicate: P) -> (r: Self) where
        I: Iterator<Item = (K, V)>,
        P: FnMut(K) -> L,

        ensures
            r.inner() == iter,
            r.op() == predicate,
    {
        Self(Iter { iter, predicate })
    }
}

impl<I, P, K, L, V> MapKeys<I, P> where I: Iterator<Item = (K, V)>, P: FnMut(K) -> L {
    /// Pulls one pair from the front of the inner iterator and maps its first
    /// component; `None` once the inner iterator has nothing left.
    ///
    /// The operation has to accept the first component of whatever pair the
    /// inner iterator may hand out next.
    pub fn next(&mut self) -> (ret: Option<(L, V)>)
        requires
            key_of_next_accepted(
                old(self).op(),
                old(self).inner().obeys_prophetic_iter_laws(),
                old(self).inner().remaining(),
            ),
        ensures
            final(self).op() == old(self).op(),
            advanced(old(self).inner(), final(self).inner(), old(self).inner().remaining().len() > 0),
            old(self).inner().obeys_prophetic_iter_laws() ==> ({
                let s = old(self).inner().remaining();
                if s.len() > 0 {
                    &&& ret matches Some(item)
                    &&& key_mapped(old(self).op(), s[0], item)
                    &&& final(self).inner().remaining() == s.drop_first()
                } else {
                    &&& ret is None
                    &&& final(self).inner().remaining() == s
                }
            }),
    {
        match self.0.iter.next() {
            Some((k, v)) => Some(((self.0.predicate)(k), v)),
            None => None,
        }
    }

    /// The bounds that the inner iterator reports on what is left: this
    /// adaptor yields one pair for each pair of the inner iterator.
    pub fn size_hint(&self) -> (hint: (usize, Option<usize>))
        ensures
            reports(self.inner(), hint),
    {
        inner_size_hint(&self.0.iter)
    }

    /// The exact count of pairs left, where the inner iterator reports one:
    /// the lower bound that it reports, where the upper bound is the same.
    pub fn len(&self) -> (n: Option<usize>)
        ensures
            reports_exact(self.inner(), n),
    {
        let hint = self.size_hint();
        assert(reports(self.inner(), hint));
        exact_len(hint)
    }

    /// Pulls from the front until the inner iterator is exhausted and returns
    /// what was yielded, in the order of the pulls.
    pub fn collect(self) -> (out: Vec<(L, V)>)
        requires
            self.inner().obeys_prophetic_iter_laws(),
            self.inner().decrease() is Some,
            keys_accepted(self.op(), self.inner().remaining()),
        ensures
            out@.len() == self.inner().remaining().len(),
            keys_mapped(self.op(), self.inner().remaining(), out@),
    {
        let ghost s = self.inner().remaining();
        let mut this = self;
        let mut out: Vec<(L, V)> = Vec::new();
        loop
            invariant
                this.inner().obeys_prophetic_iter_laws(),
                this.inner().decrease() is Some,
                this.op() == self.op(),
                s == self.inner().remaining(),
                keys_accepted(self.op(), s),
                out@.len() <= s.len(),
                this.inner().remaining() == s.skip(out@.len() as int),
                forall|i: int| 0 <= i < out@.len() ==> key_mapped(self.op(), s[i], #[trigger] out@[i]),
            ensures
                out@.len() == s.len(),
            decreases this.inner().decrease()->0,
        {
            match this.next() {
                Some(item) => {
                    out.push(item);
                },
                None => {
                    break ;
                },
            }
        }
        out
    }
}

impl<I, P, K, L, V> MapKeys<I, P> where I: DoubleEndedIterator<Item = (K, V)>, P: FnMut(K) -> L {
    /// Pulls one pair from the back of the inner iterator and maps its first
    /// component; `None` once the inner iterator has nothing left.
    ///
    /// The operation has to accept the first component of whatever pair the
    /// inner iterator may hand out from its back.
    pub fn next_back(&mut self) -> (ret: Option<(L, V)>)
        requires
            key_of_next_accepted(
                old(self).op(),
                old(self).inner().obeys_prophetic_iter_laws(),
                old(self).inner().remaining().reverse(),
            ),
        ensures
            final(self).op() == old(self).op(),
            advanced(old(self).inner(), final(self).inner(), old(self).inner().remaining().len() > 0),
            old(self).inner().obeys_prophetic_iter_laws() ==> ({
                let s = old(self).inner().remaining();
                if s.len() > 0 {
                    &&& ret matches Some(item)
                    &&& key_mapped(old(self).op(), s.last(), item)
                    &&& final(self).inner().remaining() == s.drop_last()
                } else {
                    &&& ret is None
                    &&& final(self).inner().remaining() == s
                }
            }),
    {
        match self.0.iter.next_back() {
            Some((k, v)) => Some(((self.0.predicate)(k), v)),
            None => None,
        }
    }

    /// Pulls from the back until the inner iterator is exhausted and returns
    /// what was yielded, in the order of the pulls.
    pub fn collect_rev(self) -> (out: Vec<(L, V)>)
        requires
            self.inner().obeys_prophetic_iter_laws(),
            self.inner().decrease() is Some,
            keys_accepted(self.op(), self.inner().remaining()),
        ensures
            out@.len() == self.inner().remaining().len(),
            keys_mapped(self.op(), self.inner().remaining().reverse(), out@),
    {
        let ghost s = self.inner().remaining();
        let mut this = self;
        let mut out: Vec<(L, V)> = Vec::new();
        loop
            invariant
                this.inner().obeys_prophetic_iter_laws(),
                this.inner().decrease() is Some,
                this.op() == self.op(),
                s == self.inner().remaining(),
                keys_accepted(self.op(), s),
                out@.len() <= s.len(),
                this.inner().remaining() == s.take(s.len() - out@.len()),
                forall|i: int|
                    0 <= i < out@.len() ==> key_mapped(self.op(), s[s.len() - 1 - i], #[trigger] out@[i]),
            ensures
                out@.len() == s.len(),
            decreases this.inner().decrease()->0,
        {
            match this.next_back() {
                Some(item) => {
                    out.push(item);
                },
                None => {
                    break ;
                },
            }
        }
        out
    }
}

/// The adaptor yields as many pairs as the inner iterator, in the inner
/// iterator's order, and the second components are those of the inner
/// iterator: the operation neither sees nor changes them.
pub proof fn lemma_keys_mapped_keeps_values<K, V, L, P: FnMut(K) -> L>(
    op: P,
    src: Seq<(K, V)>,
    out: Seq<(L, V)>,
)
    requires
        keys_mapped(op, src, out),
    ensures
        out.len() == src.len(),
        out.map_values(|p: (L, V)| p.1) == src.map_values(|p: (K, V)| p.1),
        forall|i: int| 0 <= i < src.len() ==> call_ensures(op, (src[i].0,), #[trigger] out[i].0),
{
    assert(out.map_values(|p: (L, V)| p.1) =~= src.map_values(|p: (K, V)| p.1));
}

/// A sequence may be yielded for the reversed input exactly when its reverse
/// may be yielded for the input: pulling from the back gives what pulling
/// from the front gives, in reverse order.
pub proof fn lemma_keys_mapped_reverse<K, V, L, P: FnMut(K) -> L>(
    op: P,
    src: Seq<(K, V)>,
    out: Seq<(L, V)>,
)
    ensures
        keys_mapped(op, src.reverse(), out) <==> keys_mapped(op, src, out.reverse()),
{
    if keys_mapped(op, src.reverse(), out) {
        assert forall|i: int| 0 <= i < src.len() implies key_mapped(
            op,
            src[i],
            #[trigger] out.reverse()[i],
        ) by {
            let j = src.len() - 1 - i;
            assert(key_mapped(op, src.reverse()[j], out[j]));
        }
    }
    if keys_mapped(op, src, out.reverse()) {
        assert forall|i: int| 0 <= i < src.len() implies key_mapped(
            op,
            src.reverse()[i],
            #[trigger] out[i],
        ) by {
            let j = src.len() - 1 - i;
            assert(key_mapped(op, src[j], out.reverse()[j]));
        }
    }
}

/// With an operation that has one result for each argument, what is pulled
/// from the back across the whole input is the exact reverse of what is
/// pulled from the front.
pub proof fn lemma_keys_back_reverses_front<K, V, L, P: FnMut(K) -> L>(
    op: P,
    src: Seq<(K, V)>,
    front: Seq<(L, V)>,
    back: Seq<(L, V)>,
)
    requires
        key_op_determined(op),
        keys_mapped(op, src, front),
        keys_mapped(op, src.reverse(), back),
    ensures
        back == front.reverse(),
{
    lemma_keys_mapped_reverse(op, src, back);
    assert forall|i: int| 0 <= i < src.len() implies back.reverse()[i] == front[i] by {
        assert(key_mapped(op, src[i], back.reverse()[i]));
        assert(key_mapped(op, src[i], front[i]));
    }
    assert(back.reverse() =~= front);
    assert(back.reverse().reverse() =~= back);
}

} // verus!
