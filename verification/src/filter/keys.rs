//! The adaptor that keeps the pairs whose first component satisfies a
//! predicate.
//!
//! What it yields is stated through the predicate's own contract: the
//! answers that the predicate may give mark the pairs of the inner iterator,
//! and the pairs marked true are yielded, in their order.

use vstd::prelude::*;
use vstd::std_specs::iter::{DoubleEndedIteratorSpec, IteratorSpec};
use crate::filter::{
    filter_hint, lemma_retain_bounds, lemma_retain_is_filter, lemma_retain_pull, lemma_retain_reverse,
    marked_in, marks_after_pull, reports_filtered, retain,
};
use crate::iter::{advanced, inner_size_hint, reports, Iter};

verus! {

/// `marks` holds, for each pair of `src`, an answer that `pred` may give on
/// its first component.
pub open spec fn key_verdicts<K, V, P: FnMut(&K) -> bool>(
    pred: P,
    src: Seq<(K, V)>,
    marks: Seq<bool>,
) -> bool {
    &&& marks.len() == src.len()
    &&& forall|i: int| 0 <= i < src.len() ==> call_ensures(pred, (&src[i].0,), #[trigger] marks[i])
}

/// `out` is a sequence that the adaptor may yield for `src`: the pairs of
/// `src` on whose first component `pred` answered true, in the order of `src`.
pub open spec fn keys_filtered<K, V, P: FnMut(&K) -> bool>(
    pred: P,
    src: Seq<(K, V)>,
    out: Seq<(K, V)>,
) -> bool {
    exists|marks: Seq<bool>| key_verdicts(pred, src, marks) && out == retain(src, marks)
}

/// `pred` may answer false on the first component of each of the first `n`
/// pairs of `src`.
pub open spec fn keys_rejected<K, V, P: FnMut(&K) -> bool>(pred: P, src: Seq<(K, V)>, n: int) -> bool {
    forall|j: int| 0 <= j < n ==> call_ensures(pred, (&(#[trigger] src[j]).0,), false)
}

/// `pred` may be called on the first component of every pair of `src` that a
/// scan from the front can reach: one before which every pair may be rejected.
pub open spec fn keys_scannable<K, V, P: FnMut(&K) -> bool>(pred: P, src: Seq<(K, V)>) -> bool {
    forall|i: int|
        0 <= i < src.len() && keys_rejected(pred, src, i) ==> call_requires(
            pred,
            (&(#[trigger] src[i]).0,),
        )
}

/// `pred` may be called on the first component of every pair of `src`.
pub open spec fn keys_testable<K, V, P: FnMut(&K) -> bool>(pred: P, src: Seq<(K, V)>) -> bool {
    forall|i: int| 0 <= i < src.len() ==> call_requires(pred, (&(#[trigger] src[i]).0,))
}

/// Whatever `pred` may answer on a first component is what `keep` says of it.
pub open spec fn key_pred_decides<K, P: FnMut(&K) -> bool>(pred: P, keep: spec_fn(K) -> bool) -> bool {
    forall|k: K, b: bool| call_ensures(pred, (&k,), b) ==> b == keep(k)
}

/// The test on pairs that puts `keep` to the first component.
pub open spec fn by_key<K, V>(keep: spec_fn(K) -> bool) -> spec_fn((K, V)) -> bool {
    |p: (K, V)| keep(p.0)
}

/// Yields the pairs of the inner iterator whose first component satisfies a
/// predicate.
#[must_use]
#[derive(Debug)]
pub struct FilterKeys<I, P>(Iter<I, P>);

impl<I, P> FilterKeys<I, P> {
    /// The inner iterator in its present state.
    pub closed spec fn inner(&self) -> I {
        self.0.iter
    }

    /// The predicate put to first components.
    pub closed spec fn op(&self) -> P {
        self.0.predicate
    }

    /// Puts the adaptor around `iter`, with `predicate` as the test on first
    /// components. Nothing is pulled and the predicate is not called.
    pub fn new<K, V>(iter: I, predicate: P) -> (r: Self) where
        I: Iterator<Item = (K, V)>,
        P: FnMut(&K) -> bool,

        ensures
            r.inner() == iter,
            r.op() == predicate,
    {
        Self(Iter { iter, predicate })
    }
}

impl<I, P, K, V> FilterKeys<I, P> where I: Iterator<Item = (K, V)>, P: FnMut(&K) -> bool {
    /// Pulls from the front of the inner iterator until a pair comes whose
    /// first component satisfies the predicate, and yields that pair; `None`
    /// where the inner iterator runs out first. The pairs pulled on the way
    /// are gone.
    ///
    /// The inner iterator has to keep the iterator laws and to have a measure
    /// of what is left: that is what makes the scan end. `n` in the contract
    /// is the number of pairs that the scan took from the inner iterator.
    pub fn next(&mut self) -> (ret: Option<(K, V)>)
        requires
            old(self).inner().obeys_prophetic_iter_laws(),
            old(self).inner().decrease() is Some,
            keys_scannable(old(self).op(), old(self).inner().remaining()),
        ensures
            final(self).op() == old(self).op(),
            advanced(old(self).inner(), final(self).inner(), ret is Some),
            ({
                let s = old(self).inner().remaining();
                let n = s.len() - final(self).inner().remaining().len();
                &&& 0 <= n <= s.len()
                &&& final(self).inner().remaining() == s.skip(n)
                &&& match ret {
                    Some(item) => {
                        &&& n >= 1
                        &&& item == s[n - 1]
                        &&& call_ensures(old(self).op(), (&item.0,), true)
                        &&& keys_rejected(old(self).op(), s, n - 1)
                    },
                    None => n == s.len() && keys_rejected(old(self).op(), s, n),
                }
            }),
    {
        let ghost s = self.inner().remaining();
        loop
            invariant
                self.op() == old(self).op(),
                old(self).inner().obeys_prophetic_iter_laws(),
                old(self).inner().decrease() is Some,
                self.inner().obeys_prophetic_iter_laws(),
                self.inner().decrease() is Some,
                s == old(self).inner().remaining(),
                keys_scannable(self.op(), s),
                0 <= s.len() - self.inner().remaining().len() <= s.len(),
                self.inner().remaining() == s.skip(s.len() - self.inner().remaining().len()),
                keys_rejected(self.op(), s, s.len() - self.inner().remaining().len()),
                s.len() - self.inner().remaining().len() > 0 ==> decreases_to!(
                    old(self).inner().decrease()->0 => self.inner().decrease()->0
                ),
                s.len() - self.inner().remaining().len() == 0 ==> old(self).inner().decrease()
                    == self.inner().decrease(),
            decreases self.inner().decrease()->0,
        {
            let ghost n = s.len() - self.inner().remaining().len();
            match self.0.iter.next() {
                None => {
                    return None;
                },
                Some(item) => {
                    assert(item == s[n]);
                    if (self.0.predicate)(&item.0) {
                        return Some(item);
                    }
                },
            }
        }
    }

    /// Bounds on the number of pairs left: at least none, at most what the
    /// inner iterator reports as its upper bound.
    pub fn size_hint(&self) -> (hint: (usize, Option<usize>))
        ensures
            hint.0 == 0,
            reports_filtered(self.inner(), hint),
    {
        let inner = inner_size_hint(&self.0.iter);
        assert(reports(self.inner(), inner));
        filter_hint(inner)
    }

    /// Pulls from the front until the inner iterator is exhausted and returns
    /// the pairs that were yielded, in the order of the pulls.
    pub fn collect(self) -> (out: Vec<(K, V)>)
        requires
            self.inner().obeys_prophetic_iter_laws(),
            self.inner().decrease() is Some,
            keys_testable(self.op(), self.inner().remaining()),
        ensures
            out@.len() <= self.inner().remaining().len(),
            keys_filtered(self.op(), self.inner().remaining(), out@),
    {
        let ghost s = self.inner().remaining();
        let mut this = self;
        let mut out: Vec<(K, V)> = Vec::new();
        proof {
            assert(key_verdicts(self.op(), s.take(0), Seq::<bool>::empty()));
            assert(out@ =~= retain(s.take(0), Seq::<bool>::empty()));
        }
        loop
            invariant
                this.inner().obeys_prophetic_iter_laws(),
                this.inner().decrease() is Some,
                this.op() == self.op(),
                s == self.inner().remaining(),
                keys_testable(self.op(), s),
                this.inner().remaining().len() <= s.len(),
                this.inner().remaining() == s.skip(s.len() - this.inner().remaining().len()),
                out@.len() <= s.len() - this.inner().remaining().len(),
                keys_filtered(self.op(), s.take(s.len() - this.inner().remaining().len()), out@),
            ensures
                out@.len() <= s.len(),
                keys_filtered(self.op(), s, out@),
            decreases this.inner().decrease()->0,
        {
            let ghost rest = this.inner().remaining();
            let ghost n = s.len() - rest.len();
            let ghost marks = choose|m: Seq<bool>|
                key_verdicts(self.op(), s.take(n), m) && out@ == retain(s.take(n), m);
            assert(forall|j: int| 0 <= j < rest.len() ==> rest[j] == s[n + j]);
            let pulled = this.next();
            proof {
                let k = rest.len() - this.inner().remaining().len();
                lemma_retain_pull(s, marks, n, k, pulled is Some);
                let after = marks_after_pull(marks, k, pulled is Some);
                assert forall|i: int| 0 <= i < n + k implies call_ensures(
                    self.op(),
                    (&s.take(n + k)[i].0,),
                    #[trigger] after[i],
                ) by {
                    if i < n {
                        assert(call_ensures(self.op(), (&s.take(n)[i].0,), marks[i]));
                    } else {
                        assert(s[i] == rest[i - n]);
                    }
                }
                assert(key_verdicts(self.op(), s.take(n + k), after));
            }
            match pulled {
                Some(item) => {
                    out.push(item);
                },
                None => {
                    assert(s.take(s.len() as int) =~= s);
                    break ;
                },
            }
        }
        out
    }
}

impl<I, P, K, V> FilterKeys<I, P> where I: DoubleEndedIterator<Item = (K, V)>, P: FnMut(&K) -> bool {
    /// Pulls from the back of the inner iterator until a pair comes whose
    /// first component satisfies the predicate, and yields that pair; `None`
    /// where the inner iterator runs out first. The pairs pulled on the way
    /// are gone.
    ///
    /// The contract is that of `next` on the reverse of what the inner
    /// iterator has left.
    pub fn next_back(&mut self) -> (ret: Option<(K, V)>)
        requires
            old(self).inner().obeys_prophetic_iter_laws(),
            old(self).inner().decrease() is Some,
            keys_scannable(old(self).op(), old(self).inner().remaining().reverse()),
        ensures
            final(self).op() == old(self).op(),
            advanced(old(self).inner(), final(self).inner(), ret is Some),
            ({
                let s = old(self).inner().remaining();
                let n = s.len() - final(self).inner().remaining().len();
                &&& 0 <= n <= s.len()
                &&& final(self).inner().remaining() == s.take(s.len() - n)
                &&& match ret {
                    Some(item) => {
                        &&& n >= 1
                        &&& item == s.reverse()[n - 1]
                        &&& call_ensures(old(self).op(), (&item.0,), true)
                        &&& keys_rejected(old(self).op(), s.reverse(), n - 1)
                    },
                    None => n == s.len() && keys_rejected(old(self).op(), s.reverse(), n),
                }
            }),
    {
        let ghost s = self.inner().remaining();
        loop
            invariant
                self.op() == old(self).op(),
                old(self).inner().obeys_prophetic_iter_laws(),
                old(self).inner().decrease() is Some,
                self.inner().obeys_prophetic_iter_laws(),
                self.inner().decrease() is Some,
                s == old(self).inner().remaining(),
                keys_scannable(self.op(), s.reverse()),
                0 <= s.len() - self.inner().remaining().len() <= s.len(),
                self.inner().remaining() == s.take(self.inner().remaining().len() as int),
                keys_rejected(self.op(), s.reverse(), s.len() - self.inner().remaining().len()),
                s.len() - self.inner().remaining().len() > 0 ==> decreases_to!(
                    old(self).inner().decrease()->0 => self.inner().decrease()->0
                ),
                s.len() - self.inner().remaining().len() == 0 ==> old(self).inner().decrease()
                    == self.inner().decrease(),
            decreases self.inner().decrease()->0,
        {
            let ghost n = s.len() - self.inner().remaining().len();
            match self.0.iter.next_back() {
                None => {
                    return None;
                },
                Some(item) => {
                    assert(item == s.reverse()[n]);
                    if (self.0.predicate)(&item.0) {
                        return Some(item);
                    }
                },
            }
        }
    }

    /// Pulls from the back until the inner iterator is exhausted and returns
    /// the pairs that were yielded, in the order of the pulls.
    pub fn collect_rev(self) -> (out: Vec<(K, V)>)
        requires
            self.inner().obeys_prophetic_iter_laws(),
            self.inner().decrease() is Some,
            keys_testable(self.op(), self.inner().remaining()),
        ensures
            out@.len() <= self.inner().remaining().len(),
            keys_filtered(self.op(), self.inner().remaining().reverse(), out@),
    {
        let ghost s = self.inner().remaining();
        let ghost r = s.reverse();
        let mut this = self;
        let mut out: Vec<(K, V)> = Vec::new();
        proof {
            assert(out@ =~= retain(r.take(0), Seq::<bool>::empty()));
            assert forall|i: int| 0 <= i < r.len() implies call_requires(
                self.op(),
                (&(#[trigger] r[i]).0,),
            ) by {
                assert(r[i] == s[s.len() - 1 - i]);
            }
            assert(key_verdicts(self.op(), r.take(0), Seq::<bool>::empty()));
        }
        loop
            invariant
                this.inner().obeys_prophetic_iter_laws(),
                this.inner().decrease() is Some,
                this.op() == self.op(),
                s == self.inner().remaining(),
                r == s.reverse(),
                keys_testable(self.op(), r),
                this.inner().remaining().len() <= s.len(),
                this.inner().remaining() == s.take(this.inner().remaining().len() as int),
                out@.len() <= s.len() - this.inner().remaining().len(),
                keys_filtered(self.op(), r.take(s.len() - this.inner().remaining().len()), out@),
            ensures
                out@.len() <= s.len(),
                keys_filtered(self.op(), r, out@),
            decreases this.inner().decrease()->0,
        {
            let ghost rest = this.inner().remaining();
            let ghost n = s.len() - rest.len();
            let ghost marks = choose|m: Seq<bool>|
                key_verdicts(self.op(), r.take(n), m) && out@ == retain(r.take(n), m);
            assert(forall|j: int| 0 <= j < rest.len() ==> rest.reverse()[j] == r[n + j]);
            let pulled = this.next_back();
            proof {
                let k = rest.len() - this.inner().remaining().len();
                lemma_retain_pull(r, marks, n, k, pulled is Some);
                let after = marks_after_pull(marks, k, pulled is Some);
                assert forall|i: int| 0 <= i < n + k implies call_ensures(
                    self.op(),
                    (&r.take(n + k)[i].0,),
                    #[trigger] after[i],
                ) by {
                    if i < n {
                        assert(call_ensures(self.op(), (&r.take(n)[i].0,), marks[i]));
                    } else {
                        assert(r[i] == rest.reverse()[i - n]);
                    }
                }
                assert(key_verdicts(self.op(), r.take(n + k), after));
            }
            match pulled {
                Some(item) => {
                    out.push(item);
                },
                None => {
                    assert(r.take(r.len() as int) =~= r);
                    break ;
                },
            }
        }
        out
    }
}

/// The adaptor yields no more pairs than the inner iterator, and each pair
/// yielded is a pair of the inner iterator, with both components as they
/// were, on whose first component the predicate answered true.
pub proof fn lemma_keys_filtered_bounds<K, V, P: FnMut(&K) -> bool>(
    pred: P,
    src: Seq<(K, V)>,
    out: Seq<(K, V)>,
)
    requires
        keys_filtered(pred, src, out),
    ensures
        out.len() <= src.len(),
        forall|j: int|
            0 <= j < out.len() ==> src.contains(#[trigger] out[j]) && call_ensures(
                pred,
                (&out[j].0,),
                true,
            ),
{
    let marks = choose|marks: Seq<bool>| key_verdicts(pred, src, marks) && out == retain(src, marks);
    lemma_retain_bounds(src, marks);
    assert forall|j: int| 0 <= j < out.len() implies src.contains(#[trigger] out[j]) && call_ensures(
        pred,
        (&out[j].0,),
        true,
    ) by {
        assert(marked_in(src, marks, out[j]));
        let i = choose|i: int| 0 <= i < src.len() && #[trigger] marks[i] && src[i] == out[j];
        assert(call_ensures(pred, (&src[i].0,), marks[i]));
    }
}

/// With a predicate whose answers `keep` describes, the adaptor yields
/// exactly the pairs of the inner iterator whose first component satisfies
/// `keep`, in the inner iterator's order: as many as there are such pairs.
pub proof fn lemma_keys_filtered_is_filter<K, V, P: FnMut(&K) -> bool>(
    pred: P,
    keep: spec_fn(K) -> bool,
    src: Seq<(K, V)>,
    out: Seq<(K, V)>,
)
    requires
        key_pred_decides(pred, keep),
        keys_filtered(pred, src, out),
    ensures
        out == src.filter(by_key(keep)),
        out.len() <= src.len(),
{
    let marks = choose|marks: Seq<bool>| key_verdicts(pred, src, marks) && out == retain(src, marks);
    assert forall|i: int| 0 <= i < src.len() implies marks[i] == by_key::<K, V>(keep)(src[i]) by {
        assert(call_ensures(pred, (&src[i].0,), marks[i]));
    }
    lemma_retain_is_filter(src, marks, by_key(keep));
    lemma_retain_bounds(src, marks);
}

/// A sequence may be yielded for the reversed input exactly when its reverse
/// may be yielded for the input: pulling from the back gives what pulling
/// from the front gives, in reverse order.
pub proof fn lemma_keys_filtered_reverse<K, V, P: FnMut(&K) -> bool>(
    pred: P,
    src: Seq<(K, V)>,
    out: Seq<(K, V)>,
)
    ensures
        keys_filtered(pred, src.reverse(), out) <==> keys_filtered(pred, src, out.reverse()),
{
    if keys_filtered(pred, src.reverse(), out) {
        let marks = choose|marks: Seq<bool>|
            key_verdicts(pred, src.reverse(), marks) && out == retain(src.reverse(), marks);
        let back = marks.reverse();
        assert forall|i: int| 0 <= i < src.len() implies call_ensures(
            pred,
            (&src[i].0,),
            #[trigger] back[i],
        ) by {
            let j = src.len() - 1 - i;
            assert(call_ensures(pred, (&src.reverse()[j].0,), marks[j]));
        }
        lemma_retain_reverse(src, back);
        assert(back.reverse() =~= marks);
        assert(key_verdicts(pred, src, back) && out.reverse() == retain(src, back));
    }
    if keys_filtered(pred, src, out.reverse()) {
        let marks = choose|marks: Seq<bool>|
            key_verdicts(pred, src, marks) && out.reverse() == retain(src, marks);
        let back = marks.reverse();
        assert forall|i: int| 0 <= i < src.len() implies call_ensures(
            pred,
            (&src.reverse()[i].0,),
            #[trigger] back[i],
        ) by {
            let j = src.len() - 1 - i;
            assert(call_ensures(pred, (&src[j].0,), marks[j]));
        }
        lemma_retain_reverse(src, marks);
        assert(out.reverse().reverse() =~= out);
        assert(key_verdicts(pred, src.reverse(), back) && out == retain(src.reverse(), back));
    }
}

/// With a predicate whose answers `keep` describes, what is pulled from the
/// back across the whole input is the exact reverse of what is pulled from
/// the front.
pub proof fn lemma_keys_back_reverses_front<K, V, P: FnMut(&K) -> bool>(
    pred: P,
    keep: spec_fn(K) -> bool,
    src: Seq<(K, V)>,
    front: Seq<(K, V)>,
    back: Seq<(K, V)>,
)
    requires
        key_pred_decides(pred, keep),
        keys_filtered(pred, src, front),
        keys_filtered(pred, src.reverse(), back),
    ensures
        back == front.reverse(),
{
    lemma_keys_filtered_reverse(pred, src, back);
    lemma_keys_filtered_is_filter(pred, keep, src, front);
    lemma_keys_filtered_is_filter(pred, keep, src, back.reverse());
    assert(back.reverse().reverse() =~= back);
}

} // verus!
