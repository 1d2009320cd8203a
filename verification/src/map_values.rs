//! The adaptor that maps second components.
//!
//! What it yields is stated through the operation's own contract: a pair may
//! be yielded for a pair of the inner iterator where its second component is
//! a result that the operation allows for the inner pair's second component.

use vstd::prelude::*;
use vstd::std_specs::iter::{DoubleEndedIteratorSpec, IteratorSpec};
use crate::iter::{advanced, exact_len, inner_size_hint, reports, reports_exact, Iter};

verus! {

/// `dst` is a pair that the adaptor may yield for `src`: its second component
/// is a result of `op` on the second component of `src`, its first component
/// is that of `src`.
pub open spec fn value_mapped<K, V, W, P: FnMut(V) -> W>(op: P, src: (K, V), dst: (K, W)) -> bool {
    &&& call_ensures(op, (src.1,), dst.1)
    &&& dst.0 == src.0
}

/// `out` is a sequence that the adaptor may yield for `src`: as long as
/// `src`, and pair by pair related as `value_mapped` says.
pub open spec fn values_mapped<K, V, W, P: FnMut(V) -> W>(
    op: P,
    src: Seq<(K, V)>,
    out: Seq<(K, W)>,
) -> bool {
    &&& out.len() == src.len()
    &&& forall|i: int| 0 <= i < src.len() ==> value_mapped(op, src[i], #[trigger] out[i])
}

/// `op` may be called on the second component of every pair of `src`.
pub open spec fn values_accepted<K, V, W, P: FnMut(V) -> W>(op: P, src: Seq<(K, V)>) -> bool {
    forall|i: int| 0 <= i < src.len() ==> call_requires(op, (#[trigger] src[i].1,))
}

/// `op` may be called on the second component of the pair that comes next:
/// the first pair of `rest` where the inner iterator keeps the iterator laws
/// (`lawful`), and any pair at all where it does not.
pub open spec fn value_of_next_accepted<K, V, W, P: FnMut(V) -> W>(
    op: P,
    lawful: bool,
    rest: Seq<(K, V)>,
) -> bool {
    if lawful {
        rest.len() > 0 ==> call_requires(op, (rest[0].1,))
    } else {
        forall|v: V| call_requires(op, (v,))
    }
}

/// `op` has at most one result for each argument.
pub open spec fn value_op_determined<V, W, P: FnMut(V) -> W>(op: P) -> bool {
    forall|v: V, a: W, b: W| call_ensures(op, (v,), a) && call_ensures(op, (v,), b) ==> a == b
}

/// Maps the second component of every pair of the inner iterator and leaves
/// the first as it is.
#[must_use]
#[derive(Debug)]
pub struct MapValues<I, P>(Iter<I, P>);

impl<I, P> MapValues<I, P> {
    /// The inner iterator in its present state.
    pub closed spec fn inner(&self) -> I {
        self.0.iter
    }

    /// The operation applied to second components.
    pub closed spec fn op(&self) -> P {
        self.0.predicate
    }

    /// Puts the adaptor around `iter`, with `predicate` as the operation on
    /// second components. Nothing is pulled and the operation is not called.
    pub fn new<K, V, W>(iter: I, predicate: P) -> (r: Self) where
        I: Iterator<Item = (K, V)>,
        P: FnMut(V) -> W,

        ensures
            r.inner() == iter,
            r.op() == predicate,
    {
        Self(Iter { iter, predicate })
    }
}

impl<I, P, K, V, W> MapValues<I, P> where I: Iterator<Item = (K, V)>, P: FnMut(V) -> W {
    /// Pulls one pair from the front of the inner iterator and maps its second
    /// component; `None` once the inner iterator has nothing left.
    ///
    /// The operation has to accept the second component of whatever pair the
    /// inner iterator may hand out next.
    pub fn next(&mut self) -> (ret: Option<(K, W)>)
        requires
            value_of_next_accepted(
                old(self).op(),
                old(self).inner().obeys_prophetic_iter_laws(),
                old(self).inner().remaining(),
            ),
        ensures
            final(self).op() == old(self).op(),
            advanced(old(self).inner(), final(self).inner(), old(self).inner().remaining().len() > 0),
            old(self).inner().obeys_prophetic_iter_laws() ==> ({
                let s = old(self).inner().remaining();
                if s.len() > 0 {
                    &&& ret matches Some(item)
                    &&& value_mapped(old(self).op(), s[0], item)
                    &&& final(self).inner().remaining() == s.drop_first()
                } else {
                    &&& ret is None
                    &&& final(self).inner().remaining() == s
                }
            }),
    {
        match self.0.iter.next() {
            Some((k, v)) => Some((k, (self.0.predicate)(v))),
            None => None,
        }
    }

    /// The bounds that the inner iterator reports on what is left: this
    /// adaptor yields one pair for each pair of the inner iterator.
    pub fn size_hint(&self) -> (hint: (usize, Option<usize>))
        ensures
            reports(self.inner(), hint),
    {
        inner_size_hint(&self.0.iter)
    }

    /// The exact count of pairs left, where the inner iterator reports one:
    /// the lower bound that it reports, where the upper bound is the same.
    pub fn len(&self) -> (n: Option<usize>)
        ensures
            reports_exact(self.inner(), n),
    {
        let hint = self.size_hint();
        assert(reports(self.inner(), hint));
        exact_len(hint)
    }

    /// Pulls from the front until the inner iterator is exhausted and returns
    /// what was yielded, in the order of the pulls.
    pub fn collect(self) -> (out: Vec<(K, W)>)
        requires
            self.inner().obeys_prophetic_iter_laws(),
            self.inner().decrease() is Some,
            values_accepted(self.op(), self.inner().remaining()),
        ensures
            out@.len() == self.inner().remaining().len(),
            values_mapped(self.op(), self.inner().remaining(), out@),
    {
        let ghost s = self.inner().remaining();
        let mut this = self;
        let mut out: Vec<(K, W)> = Vec::new();
        loop
            invariant
                this.inner().obeys_prophetic_iter_laws(),
                this.inner().decrease() is Some,
                this.op() == self.op(),
                s == self.inner().remaining(),
                values_accepted(self.op(), s),
                out@.len() <= s.len(),
                this.inner().remaining() == s.skip(out@.len() as int),
                forall|i: int| 0 <= i < out@.len() ==> value_mapped(self.op(), s[i], #[trigger] out@[i]),
            ensures
                out@.len() == s.len(),
            decreases this.inner().decrease()->0,
        {
            match this.next() {
                Some(item) => {
                    out.push(item);
                },
                None => {
                    break ;
                },
            }
        }
        out
    }
}

impl<I, P, K, V, W> MapValues<I, P> where I: DoubleEndedIterator<Item = (K, V)>, P: FnMut(V) -> W {
    /// Pulls one pair from the back of the inner iterator and maps its second
    /// component; `None` once the inner iterator has nothing left.
    ///
    /// The operation has to accept the second component of whatever pair the
    /// inner iterator may hand out from its back.
    pub fn next_back(&mut self) -> (ret: Option<(K, W)>)
        requires
            value_of_next_accepted(
                old(self).op(),
                old(self).inner().obeys_prophetic_iter_laws(),
                old(self).inner().remaining().reverse(),
            ),
        ensures
            final(self).op() == old(self).op(),
            advanced(old(self).inner(), final(self).inner(), old(self).inner().remaining().len() > 0),
            old(self).inner().obeys_prophetic_iter_laws() ==> ({
                let s = old(self).inner().remaining();
                if s.len() > 0 {
                    &&& ret matches Some(item)
                    &&& value_mapped(old(self).op(), s.last(), item)
                    &&& final(self).inner().remaining() == s.drop_last()
                } else {
                    &&& ret is None
                    &&& final(self).inner().remaining() == s
                }
            }),
    {
        match self.0.iter.next_back() {
            Some((k, v)) => Some((k, (self.0.predicate)(v))),
            None => None,
        }
    }

    /// Pulls from the back until the inner iterator is exhausted and returns
    /// what was yielded, in the order of the pulls.
    pub fn collect_rev(self) -> (out: Vec<(K, W)>)
        requires
            self.inner().obeys_prophetic_iter_laws(),
            self.inner().decrease() is Some,
            values_accepted(self.op(), self.inner().remaining()),
        ensures
            out@.len() == self.inner().remaining().len(),
            values_mapped(self.op(), self.inner().remaining().reverse(), out@),
    {
        let ghost s = self.inner().remaining();
        let mut this = self;
        let mut out: Vec<(K, W)> = Vec::new();
        loop
            invariant
                this.inner().obeys_prophetic_iter_laws(),
                this.inner().decrease() is Some,
                this.op() == self.op(),
                s == self.inner().remaining(),
                values_accepted(self.op(), s),
                out@.len() <= s.len(),
                this.inner().remaining() == s.take(s.len() - out@.len()),
                forall|i: int|
                    0 <= i < out@.len() ==> value_mapped(self.op(), s[s.len() - 1 - i], #[trigger] out@[i]),
            ensures
                out@.len() == s.len(),
            decreases this.inner().decrease()->0,
        {
            match this.next_back() {
                Some(item) => {
                    out.push(item);
                },
                None => {
                    break ;
                },
            }
        }
        out
    }
}

/// The adaptor yields as many pairs as the inner iterator, in the inner
/// iterator's order, and the first components are those of the inner
/// iterator: the operation neither sees nor changes them.
pub proof fn lemma_values_mapped_keeps_keys<K, V, W, P: FnMut(V) -> W>(
    op: P,
    src: Seq<(K, V)>,
    out: Seq<(K, W)>,
)
    requires
        values_mapped(op, src, out),
    ensures
        out.len() == src.len(),
        out.map_values(|p: (K, W)| p.0) == src.map_values(|p: (K, V)| p.0),
        forall|i: int| 0 <= i < src.len() ==> call_ensures(op, (src[i].1,), #[trigger] out[i].1),
{
    assert(out.map_values(|p: (K, W)| p.0) =~= src.map_values(|p: (K, V)| p.0));
}

/// A sequence may be yielded for the reversed input exactly when its reverse
/// may be yielded for the input: pulling from the back gives what pulling
/// from the front gives, in reverse order.
pub proof fn lemma_values_mapped_reverse<K, V, W, P: FnMut(V) -> W>(
    op: P,
    src: Seq<(K, V)>,
    out: Seq<(K, W)>,
)
    ensures
        values_mapped(op, src.reverse(), out) <==> values_mapped(op, src, out.reverse()),
{
    if values_mapped(op, src.reverse(), out) {
        assert forall|i: int| 0 <= i < src.len() implies value_mapped(
            op,
            src[i],
            #[trigger] out.reverse()[i],
        ) by {
            let j = src.len() - 1 - i;
            assert(value_mapped(op, src.reverse()[j], out[j]));
        }
    }
    if values_mapped(op, src, out.reverse()) {
        assert forall|i: int| 0 <= i < src.len() implies value_mapped(
            op,
            src.reverse()[i],
            #[trigger] out[i],
        ) by {
            let j = src.len() - 1 - i;
            assert(value_mapped(op, src[j], out.reverse()[j]));
        }
    }
}

/// With an operation that has one result for each argument, what is pulled
/// from the back across the whole input is the exact reverse of what is
/// pulled from the front.
pub proof fn lemma_values_back_reverses_front<K, V, W, P: FnMut(V) -> W>(
    op: P,
    src: Seq<(K, V)>,
    front: Seq<(K, W)>,
    back: Seq<(K, W)>,
)
    requires
        value_op_determined(op),
        values_mapped(op, src, front),
        values_mapped(op, src.reverse(), back),
    ensures
        back == front.reverse(),
{
    lemma_values_mapped_reverse(op, src, back);
    assert forall|i: int| 0 <= i < src.len() implies back.reverse()[i] == front[i] by {
        assert(value_mapped(op, src[i], back.reverse()[i]));
        assert(value_mapped(op, src[i], front[i]));
    }
    assert(back.reverse() =~= front);
    assert(back.reverse().reverse() =~= back);
}

} // verus!
