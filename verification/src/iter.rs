//! The carrier that the adaptors share, and what they all need to know of
//! the iterator inside: how a pull moves it on, and which bounds it reports.

use vstd::prelude::*;
use vstd::std_specs::iter::IteratorSpec;

verus! {

/// Carrier of an adaptor: the inner iterator and the operation applied to its items.
#[derive(Debug)]
pub struct Iter<I, P> {
    pub iter: I,
    pub predicate: P,
}

/// How one pull moves an iterator on, as far as its laws and its measure of
/// what is left go: it keeps the iterator laws as it did before; under the
/// laws it has a measure exactly if it had one, and where it handed out an
/// item (`pulled`) the measure went down.
pub open spec fn advanced<I: Iterator>(before: I, after: I, pulled: bool) -> bool {
    &&& after.obeys_prophetic_iter_laws() == before.obeys_prophetic_iter_laws()
    &&& after.obeys_prophetic_iter_laws() ==> (before.decrease() is Some <==> after.decrease() is Some)
    &&& after.obeys_prophetic_iter_laws() && pulled && after.decrease() is Some ==> decreases_to!(
        before.decrease()->0 => after.decrease()->0
    )
}

/// Calls `Iterator::size_hint` on the inner iterator and hands its answer on.
///
/// Nothing is claimed of the bounds: the standard library lets an iterator
/// report any pair, and no pull is made to find them. Contracts speak of
/// what came back through `reports`, which says only that the pair is an
/// answer of this call on that iterator.
#[verifier::external_body]
pub(crate) fn inner_size_hint<I: Iterator>(iter: &I) -> (hint: (usize, Option<usize>)) {
    iter.size_hint()
}

/// `hint` is a pair of bounds that `iter` may report on what it has left:
/// an answer of `Iterator::size_hint`, asked of `iter` as it is. Which pair
/// an iterator reports is its own affair, so nothing more is known of it.
pub open(crate) spec fn reports<I: Iterator>(iter: I, hint: (usize, Option<usize>)) -> bool {
    call_ensures(inner_size_hint::<I>, (&iter,), hint)
}

/// The exact count that a pair of bounds stands for: the lower bound, where
/// the upper bound is present and equal to it.
pub open spec fn exact_of(hint: (usize, Option<usize>)) -> Option<usize> {
    if hint.1 == Some(hint.0) {
        Some(hint.0)
    } else {
        None
    }
}

/// `n` is the exact count that `iter` may report: the count that a pair of
/// bounds reported by `iter` stands for, and `None` where that pair stands
/// for none.
pub open spec fn reports_exact<I: Iterator>(iter: I, n: Option<usize>) -> bool {
    exists|hint: (usize, Option<usize>)| #[trigger] reports(iter, hint) && n == exact_of(hint)
}

/// Reads an exact count off a pair of bounds. Bounds that differ, or an
/// absent upper bound, carry no exact count.
pub fn exact_len(hint: (usize, Option<usize>)) -> (n: Option<usize>)
    ensures
        n == exact_of(hint),
{
    match hint.1 {
        Some(upper) => if upper == hint.0 {
            Some(upper)
        } else {
            None
        },
        None => None,
    }
}

} // verus!
