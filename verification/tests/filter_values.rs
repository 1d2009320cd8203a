use std::collections::BTreeMap;

use itermap::FilterValues;

fn letters() -> BTreeMap<char, char> {
    [('A', 'a'), ('B', 'b'), ('C', 'c'), ('D', 'd'), ('E', 'e')].into()
}

#[test]
fn values_iter() {
    let iter = letters().into_iter();

    let filtered: BTreeMap<_, _> = FilterValues::new(iter, |v| v != &'c')
        .collect()
        .into_iter()
        .collect();

    let mut expected = letters();
    expected.remove(&'C');

    assert_eq!(expected, filtered);
}

#[test]
fn values_double_ended_iterator() {
    let iter = letters().into_iter();

    let filtered: BTreeMap<_, _> = FilterValues::new(iter, |v| v != &'c')
        .collect_rev()
        .into_iter()
        .collect();

    let mut expected = letters();
    expected.remove(&'C');

    assert_eq!(expected, filtered);
}

#[test]
fn values_pulled_in_order_from_both_ends() {
    let front = FilterValues::new(letters().into_iter(), |v| v != &'c').collect();
    assert_eq!(vec![('A', 'a'), ('B', 'b'), ('D', 'd'), ('E', 'e')], front);

    let back = FilterValues::new(letters().into_iter(), |v| v != &'c').collect_rev();
    assert_eq!(vec![('E', 'e'), ('D', 'd'), ('B', 'b'), ('A', 'a')], back);
}

#[test]
fn values_next_skips_rejected_pairs() {
    let mut filter = FilterValues::new(letters().into_iter(), |v| v == &'c' || v == &'d');
    assert_eq!(Some(('C', 'c')), filter.next());
    assert_eq!(Some(('D', 'd')), filter.next());
    assert_eq!(None, filter.next());
    assert_eq!(None, filter.next());
    assert_eq!(None, filter.next_back());
}

#[test]
fn values_next_back_skips_rejected_pairs() {
    let mut filter = FilterValues::new(letters().into_iter(), |v| v < &'c');
    assert_eq!(Some(('B', 'b')), filter.next_back());
    assert_eq!(Some(('A', 'a')), filter.next());
    assert_eq!(None, filter.next_back());
    assert_eq!(None, filter.next());
}

#[test]
fn values_predicate_is_put_once_to_each_pair_examined() {
    let mut seen = Vec::new();
    let mut filter = FilterValues::new(letters().into_iter(), |v: &char| {
        seen.push(*v);
        *v == 'c'
    });
    assert_eq!(Some(('C', 'c')), filter.next());
    assert_eq!(None, filter.next());
    drop(filter);
    assert_eq!(vec!['a', 'b', 'c', 'd', 'e'], seen);
}

#[test]
fn values_size_hint_has_lower_bound_zero() {
    let filter = FilterValues::new(letters().into_iter(), |v| v != &'c');
    assert_eq!((0, Some(5)), filter.size_hint());

    let mut filter = FilterValues::new(vec![('x', 1u8), ('y', 2), ('z', 3)].into_iter(), |v| *v > 1);
    assert_eq!(Some(('y', 2)), filter.next());
    assert_eq!((0, Some(1)), filter.size_hint());
}

#[test]
fn values_of_an_empty_input() {
    let empty: Vec<(u8, u8)> = Vec::new();
    let mut filter = FilterValues::new(empty.clone().into_iter(), |_v| true);
    assert_eq!(None, filter.next());
    assert_eq!(None, filter.next_back());
    assert_eq!(empty, FilterValues::new(empty.clone().into_iter(), |_v| true).collect());
    assert_eq!(empty, FilterValues::new(empty.clone().into_iter(), |_v| true).collect_rev());
}

#[test]
fn values_filter_may_discard_everything() {
    let out = FilterValues::new(letters().into_iter(), |_v| false).collect();
    assert_eq!(Vec::<(char, char)>::new(), out);
}
