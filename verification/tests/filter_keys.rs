use std::collections::BTreeMap;

use itermap::FilterKeys;

fn letters() -> BTreeMap<char, char> {
    [('A', 'a'), ('B', 'b'), ('C', 'c'), ('D', 'd'), ('E', 'e')].into()
}

#[test]
fn keys_iter() {
    let iter = letters().into_iter();

    let filtered: BTreeMap<_, _> = FilterKeys::new(iter, |k| k != &'C')
        .collect()
        .into_iter()
        .collect();

    let mut expected = letters();
    expected.remove(&'C');

    assert_eq!(expected, filtered);
}

#[test]
fn keys_double_ended_iterator() {
    let iter = letters().into_iter();

    let filtered: BTreeMap<_, _> = FilterKeys::new(iter, |k| k != &'C')
        .collect_rev()
        .into_iter()
        .collect();

    let mut expected = letters();
    expected.remove(&'C');

    assert_eq!(expected, filtered);
}

#[test]
fn keys_pulled_in_order_from_both_ends() {
    let front = FilterKeys::new(letters().into_iter(), |k| k != &'C').collect();
    assert_eq!(vec![('A', 'a'), ('B', 'b'), ('D', 'd'), ('E', 'e')], front);

    let back = FilterKeys::new(letters().into_iter(), |k| k != &'C').collect_rev();
    assert_eq!(vec![('E', 'e'), ('D', 'd'), ('B', 'b'), ('A', 'a')], back);
}

#[test]
fn keys_next_skips_rejected_pairs() {
    let mut filter = FilterKeys::new(letters().into_iter(), |k| k == &'C' || k == &'D');
    assert_eq!(Some(('C', 'c')), filter.next());
    assert_eq!(Some(('D', 'd')), filter.next());
    assert_eq!(None, filter.next());
    assert_eq!(None, filter.next());
    assert_eq!(None, filter.next_back());
}

#[test]
fn keys_next_back_skips_rejected_pairs() {
    let mut filter = FilterKeys::new(letters().into_iter(), |k| k < &'C');
    assert_eq!(Some(('B', 'b')), filter.next_back());
    assert_eq!(Some(('A', 'a')), filter.next());
    assert_eq!(None, filter.next_back());
    assert_eq!(None, filter.next());
}

#[test]
fn keys_predicate_is_put_once_to_each_pair_examined() {
    let mut seen = Vec::new();
    let mut filter = FilterKeys::new(letters().into_iter(), |k: &char| {
        seen.push(*k);
        *k == 'C'
    });
    assert_eq!(Some(('C', 'c')), filter.next());
    assert_eq!(None, filter.next());
    drop(filter);
    assert_eq!(vec!['A', 'B', 'C', 'D', 'E'], seen);
}

#[test]
fn keys_size_hint_has_lower_bound_zero() {
    let filter = FilterKeys::new(letters().into_iter(), |k| k != &'C');
    assert_eq!((0, Some(5)), filter.size_hint());

    let mut filter = FilterKeys::new(vec![(1u8, 'x'), (2, 'y'), (3, 'z')].into_iter(), |k| *k > 1);
    assert_eq!(Some((2, 'y')), filter.next());
    assert_eq!((0, Some(1)), filter.size_hint());
}

#[test]
fn keys_of_an_empty_input() {
    let empty: Vec<(u8, u8)> = Vec::new();
    let mut filter = FilterKeys::new(empty.clone().into_iter(), |_k| true);
    assert_eq!(None, filter.next());
    assert_eq!(None, filter.next_back());
    assert_eq!(empty, FilterKeys::new(empty.clone().into_iter(), |_k| true).collect());
    assert_eq!(empty, FilterKeys::new(empty.clone().into_iter(), |_k| true).collect_rev());
}

#[test]
fn keys_filter_may_discard_everything() {
    let out = FilterKeys::new(letters().into_iter(), |_k| false).collect();
    assert_eq!(Vec::<(char, char)>::new(), out);
}

#[test]
fn filter_hint_of_given_bounds() {
    assert_eq!((0, Some(7)), itermap::filter::filter_hint((3, Some(7))));
    assert_eq!((0, None), itermap::filter::filter_hint((3, None)));
    assert_eq!((0, Some(0)), itermap::filter::filter_hint((0, Some(0))));
}
