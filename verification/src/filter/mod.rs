//! The filtering adaptors, and what both rest on: the items of a sequence
//! that a sequence of marks retains.

use vstd::prelude::*;
use crate::iter::reports;

pub mod keys;
pub mod values;

pub use keys::FilterKeys;
pub use values::FilterValues;

verus! {

/// The items of `s` whose mark is true, in the order of `s`. The marks stand
/// one for each item; with another number of marks nothing is retained.
pub open spec fn retain<T>(s: Seq<T>, marks: Seq<bool>) -> Seq<T>
    decreases s.len(),
{
    if s.len() == 0 || marks.len() != s.len() {
        Seq::empty()
    } else {
        let rest = retain(s.drop_last(), marks.drop_last());
        if marks.last() {
            rest.push(s.last())
        } else {
            rest
        }
    }
}

/// `k` marks, all of them false.
pub open spec fn all_false(k: int) -> Seq<bool> {
    Seq::new(k as nat, |i: int| false)
}

/// `hint` is a pair of bounds that a filtering adaptor around `iter` may
/// report: the lower bound is 0 and the upper bound is one that `iter` may
/// report.
pub open spec fn reports_filtered<I: Iterator>(iter: I, hint: (usize, Option<usize>)) -> bool {
    exists|inner: (usize, Option<usize>)| #[trigger] reports(iter, inner) && hint == (0usize, inner.1)
}

/// The bounds of a filtering adaptor, from those of its inner iterator: the
/// lower bound is 0, since every item may be discarded; the upper bound is
/// the inner iterator's, since none is added.
pub fn filter_hint(inner: (usize, Option<usize>)) -> (hint: (usize, Option<usize>))
    ensures
        hint == (0usize, inner.1),
{
    (0, inner.1)
}

/// One more item with its mark: a true mark appends the item to what is
/// retained, a false mark leaves it as it was.
pub proof fn lemma_retain_push<T>(s: Seq<T>, marks: Seq<bool>, x: T, b: bool)
    requires
        marks.len() == s.len(),
    ensures
        retain(s.push(x), marks.push(b)) == if b {
            retain(s, marks).push(x)
        } else {
            retain(s, marks)
        },
{
    assert(s.push(x).drop_last() =~= s);
    assert(marks.push(b).drop_last() =~= marks);
}

/// Items marked false at the end of a prefix add nothing to what is retained.
pub proof fn lemma_retain_rejected<T>(s: Seq<T>, marks: Seq<bool>, n: int, k: int)
    requires
        0 <= n,
        0 <= k,
        n + k <= s.len(),
        marks.len() == n,
    ensures
        retain(s.take(n + k), marks + all_false(k)) == retain(s.take(n), marks),
    decreases k,
{
    if k == 0 {
        assert(marks + all_false(k) =~= marks);
    } else {
        lemma_retain_rejected(s, marks, n, k - 1);
        assert(s.take(n + k) =~= s.take(n + k - 1).push(s[n + k - 1]));
        assert(marks + all_false(k) =~= (marks + all_false(k - 1)).push(false));
        lemma_retain_push(s.take(n + k - 1), marks + all_false(k - 1), s[n + k - 1], false);
    }
}

/// The marks after one more pull of a filtering adaptor that consumed `k`
/// items: all of them rejected, but for the last where the pull yielded it.
pub open spec fn marks_after_pull(marks: Seq<bool>, k: int, yielded: bool) -> Seq<bool> {
    if yielded {
        (marks + all_false(k - 1)).push(true)
    } else {
        marks + all_false(k)
    }
}

/// One pull of a filtering adaptor, seen on the marks: the items consumed
/// and rejected add nothing to what is retained, and the item yielded, if
/// there is one, is appended.
pub proof fn lemma_retain_pull<T>(s: Seq<T>, marks: Seq<bool>, n: int, k: int, yielded: bool)
    requires
        0 <= n,
        0 <= k,
        n + k <= s.len(),
        marks.len() == n,
        yielded ==> k >= 1,
    ensures
        marks_after_pull(marks, k, yielded).len() == n + k,
        forall|i: int| 0 <= i < n ==> marks_after_pull(marks, k, yielded)[i] == marks[i],
        forall|i: int| n <= i < n + k ==> marks_after_pull(marks, k, yielded)[i] == (yielded && i == n + k - 1),
        retain(s.take(n + k), marks_after_pull(marks, k, yielded)) == if yielded {
            retain(s.take(n), marks).push(s[n + k - 1])
        } else {
            retain(s.take(n), marks)
        },
{
    if yielded {
        lemma_retain_rejected(s, marks, n, k - 1);
        lemma_retain_push(s.take(n + k - 1), marks + all_false(k - 1), s[n + k - 1], true);
        assert(s.take(n + k) =~= s.take(n + k - 1).push(s[n + k - 1]));
    } else {
        lemma_retain_rejected(s, marks, n, k);
    }
}

/// `x` is an item of `s` that carries a true mark.
pub open spec fn marked_in<T>(s: Seq<T>, marks: Seq<bool>, x: T) -> bool {
    exists|i: int| 0 <= i < s.len() && #[trigger] marks[i] && s[i] == x
}

/// What is retained is no longer than the sequence, and each item retained
/// is an item of the sequence that carries a true mark.
pub proof fn lemma_retain_bounds<T>(s: Seq<T>, marks: Seq<bool>)
    requires
        marks.len() == s.len(),
    ensures
        retain(s, marks).len() <= s.len(),
        forall|j: int|
            0 <= j < retain(s, marks).len() ==> marked_in(s, marks, #[trigger] retain(s, marks)[j]),
    decreases s.len(),
{
    if s.len() > 0 {
        let rest = retain(s.drop_last(), marks.drop_last());
        lemma_retain_bounds(s.drop_last(), marks.drop_last());
        assert forall|j: int| 0 <= j < retain(s, marks).len() implies marked_in(
            s,
            marks,
            #[trigger] retain(s, marks)[j],
        ) by {
            if j < rest.len() {
                assert(marked_in(s.drop_last(), marks.drop_last(), rest[j]));
                let i = choose|i: int|
                    0 <= i < s.drop_last().len() && #[trigger] marks.drop_last()[i] && s.drop_last()[i]
                        == rest[j];
                assert(marks[i] && s[i] == retain(s, marks)[j]);
            } else {
                let i = s.len() - 1;
                assert(marks[i] && s[i] == retain(s, marks)[j]);
            }
        }
    }
}

/// Where each mark says whether its item satisfies `keep`, what is retained
/// is the sequence filtered by `keep`: the items that satisfy it, in order,
/// as many as there are.
pub proof fn lemma_retain_is_filter<T>(s: Seq<T>, marks: Seq<bool>, keep: spec_fn(T) -> bool)
    requires
        marks.len() == s.len(),
        forall|i: int| 0 <= i < s.len() ==> marks[i] == keep(s[i]),
    ensures
        retain(s, marks) == s.filter(keep),
    decreases s.len(),
{
    reveal(Seq::filter);
    if s.len() > 0 {
        lemma_retain_is_filter(s.drop_last(), marks.drop_last(), keep);
    }
}

/// Retaining distributes over concatenation.
pub proof fn lemma_retain_concat<T>(a: Seq<T>, ma: Seq<bool>, b: Seq<T>, mb: Seq<bool>)
    requires
        ma.len() == a.len(),
        mb.len() == b.len(),
    ensures
        retain(a + b, ma + mb) == retain(a, ma) + retain(b, mb),
    decreases b.len(),
{
    if b.len() == 0 {
        assert(a + b =~= a);
        assert(ma + mb =~= ma);
        assert(retain(a, ma) + retain(b, mb) =~= retain(a, ma));
    } else {
        lemma_retain_concat(a, ma, b.drop_last(), mb.drop_last());
        assert((a + b).drop_last() =~= a + b.drop_last());
        assert((ma + mb).drop_last() =~= ma + mb.drop_last());
        let front = retain(a, ma);
        let rest = retain(b.drop_last(), mb.drop_last());
        if mb.last() {
            assert((front + rest).push(b.last()) =~= front + rest.push(b.last()));
        }
    }
}

/// Retaining from the reversed sequence under the reversed marks gives the
/// reverse of what is retained from the sequence.
pub proof fn lemma_retain_reverse<T>(s: Seq<T>, marks: Seq<bool>)
    requires
        marks.len() == s.len(),
    ensures
        retain(s.reverse(), marks.reverse()) == retain(s, marks).reverse(),
    decreases s.len(),
{
    if s.len() == 0 {
        assert(retain(s.reverse(), marks.reverse()) =~= retain(s, marks).reverse());
    } else {
        let head = seq![s.last()];
        let head_mark = seq![marks.last()];
        let rest = retain(s.drop_last(), marks.drop_last());
        lemma_retain_reverse(s.drop_last(), marks.drop_last());
        assert(s.reverse() =~= head + s.drop_last().reverse());
        assert(marks.reverse() =~= head_mark + marks.drop_last().reverse());
        lemma_retain_concat(head, head_mark, s.drop_last().reverse(), marks.drop_last().reverse());
        assert(head.drop_last() =~= Seq::<T>::empty());
        assert(retain(head.drop_last(), head_mark.drop_last()) =~= Seq::<T>::empty());
        if marks.last() {
            assert(retain(head, head_mark) =~= head);
            assert(rest.push(s.last()).reverse() =~= head + rest.reverse());
        } else {
            assert(retain(head, head_mark) =~= Seq::<T>::empty());
            assert(Seq::<T>::empty() + rest.reverse() =~= rest.reverse());
        }
    }
}

} // verus!
