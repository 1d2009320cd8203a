use itermap::iter::exact_len;
use itermap::{IterMap, MapKeys, MapValues};

#[test]
fn double_ended() {
    let pairs = vec![("a", "A"), ("b", "B"), ("c", "C")];

    let mapped: Vec<_> = pairs
        .clone()
        .into_iter()
        .map_keys(|k| k.to_uppercase())
        .collect_rev();

    assert_eq!(
        vec![("C", "C"), ("B", "B"), ("A", "A")]
            .into_iter()
            .map_keys(String::from)
            .collect(),
        mapped
    );

    let mapped: Vec<_> = pairs
        .into_iter()
        .map_values(|v| v.to_lowercase())
        .collect_rev();

    assert_eq!(
        vec![("c", "c"), ("b", "b"), ("a", "a")]
            .into_iter()
            .map_values(String::from)
            .collect(),
        mapped
    );
}

#[test]
fn exact_size() {
    let pairs = vec![("a", "A"), ("b", "B"), ("c", "C")];

    let len = pairs.clone().into_iter().map_keys(|k| k).len().unwrap();
    assert_eq!(3, len);

    let len = pairs.into_iter().map_values(|v| v).len().unwrap();
    assert_eq!(3, len);
}

#[test]
fn map_keys_uppercase_in_both_directions() {
    let pairs = vec![("a", "A"), ("b", "B"), ("c", "C")];

    let front = pairs.clone().into_iter().map_keys(|k| k.to_uppercase()).collect();
    assert_eq!(
        vec![("A".to_string(), "A"), ("B".to_string(), "B"), ("C".to_string(), "C")],
        front
    );

    let back = pairs.into_iter().map_keys(|k| k.to_uppercase()).collect_rev();
    assert_eq!(
        vec![("C".to_string(), "C"), ("B".to_string(), "B"), ("A".to_string(), "A")],
        back
    );
}

#[test]
fn exact_count_goes_down_by_one_with_each_pull() {
    let pairs = vec![("a", "A"), ("b", "B"), ("c", "C")];

    let mut keys = MapKeys::new(pairs.clone().into_iter(), |k: &str| k.len());
    assert_eq!(Some(3), keys.len());
    assert_eq!((3, Some(3)), keys.size_hint());
    assert_eq!(Some((1, "A")), keys.next());
    assert_eq!(Some(2), keys.len());
    assert_eq!(Some((1, "C")), keys.next_back());
    assert_eq!(Some(1), keys.len());
    assert_eq!(Some((1, "B")), keys.next());
    assert_eq!(Some(0), keys.len());
    assert_eq!(None, keys.next());
    assert_eq!(Some(0), keys.len());

    let mut values = MapValues::new(pairs.into_iter(), |v: &str| v.len());
    assert_eq!(Some(3), values.len());
    assert_eq!(Some(("a", 1)), values.next());
    assert_eq!(Some(2), values.len());
    assert_eq!(Some(("c", 1)), values.next_back());
    assert_eq!(Some(1), values.len());
    assert_eq!(Some(("b", 1)), values.next_back());
    assert_eq!(Some(0), values.len());
    assert_eq!(None, values.next_back());
}

#[test]
fn no_exact_count_where_the_bounds_differ() {
    let odd = (0u8..10).filter(|n| n % 2 == 1).map(|n| (n, n));
    let keys = MapKeys::new(odd, |k| k);
    assert_eq!((0, Some(10)), keys.size_hint());
    assert_eq!(None, keys.len());

    assert_eq!(Some(4), exact_len((4, Some(4))));
    assert_eq!(Some(0), exact_len((0, Some(0))));
    assert_eq!(None, exact_len((4, Some(5))));
    assert_eq!(None, exact_len((4, None)));
}

#[test]
fn map_yields_one_pair_for_each_pair() {
    for n in 0usize..6 {
        let input: Vec<(usize, usize)> = (0..n).map(|i| (i, 10 * i)).collect();
        assert_eq!(n, input.clone().into_iter().map_keys(|k| k + 1).collect().len());
        assert_eq!(n, input.clone().into_iter().map_values(|v| v + 1).collect().len());
        assert_eq!(n, input.clone().into_iter().map_keys(|k| k + 1).collect_rev().len());
        assert_eq!(n, input.into_iter().map_values(|v| v + 1).collect_rev().len());
    }
}

#[test]
fn map_keeps_order_and_the_other_component() {
    let input = vec![(1u32, "one"), (2, "two"), (3, "three")];

    let keys = input.clone().into_iter().map_keys(|k| k * 100).collect();
    assert_eq!(vec![(100, "one"), (200, "two"), (300, "three")], keys);

    let values = input.into_iter().map_values(|v| v.len()).collect();
    assert_eq!(vec![(1, 3), (2, 3), (3, 5)], values);
}

#[test]
fn map_operation_sees_only_its_component() {
    let input = vec![(String::from("k1"), String::from("v1")), (String::from("k2"), String::from("v2"))];

    let keys = input.clone().into_iter().map_keys(|mut k| {
        k.push('!');
        k
    }).collect();
    assert_eq!(
        vec![(String::from("k1!"), String::from("v1")), (String::from("k2!"), String::from("v2"))],
        keys
    );

    let values = input.into_iter().map_values(|mut v| {
        v.clear();
        v
    }).collect();
    assert_eq!(
        vec![(String::from("k1"), String::new()), (String::from("k2"), String::new())],
        values
    );
}

#[test]
fn map_operation_is_called_once_for_each_pair() {
    let mut calls = 0;
    let out = vec![(1u8, 'a'), (2, 'b'), (3, 'c')]
        .into_iter()
        .map_keys(|k| {
            calls += 1;
            k
        })
        .collect();
    assert_eq!(3, out.len());
    assert_eq!(3, calls);
}

#[test]
fn map_is_lazy() {
    let mut calls = 0;
    let mut keys = vec![(1u8, 'a'), (2, 'b')].into_iter().map_keys(|k| {
        calls += 1;
        k
    });
    assert_eq!(Some((1, 'a')), keys.next());
    drop(keys);
    assert_eq!(1, calls);
}

#[test]
fn map_of_an_empty_input() {
    let empty: Vec<(u8, u8)> = Vec::new();
    let mut keys = empty.clone().into_iter().map_keys(|k| k);
    assert_eq!(None, keys.next());
    assert_eq!(None, keys.next_back());
    assert_eq!(Some(0), keys.len());
    assert_eq!(empty, empty.clone().into_iter().map_values(|v| v).collect());
}

#[test]
fn back_pull_is_the_reverse_of_front_pull() {
    let input = vec![(1u8, 'a'), (2, 'b'), (3, 'c'), (4, 'd')];

    let mut front = input.clone().into_iter().map_keys(|k| k * 2).collect();
    front.reverse();
    assert_eq!(front, input.clone().into_iter().map_keys(|k| k * 2).collect_rev());

    let mut front = input.clone().into_iter().map_values(|v| v.to_ascii_uppercase()).collect();
    front.reverse();
    assert_eq!(front, input.clone().into_iter().map_values(|v| v.to_ascii_uppercase()).collect_rev());

    let mut front = input.clone().into_iter().filter_keys(|k| k % 2 == 0).collect();
    front.reverse();
    assert_eq!(front, input.clone().into_iter().filter_keys(|k| k % 2 == 0).collect_rev());

    let mut front = input.clone().into_iter().filter_values(|v| *v != 'b').collect();
    front.reverse();
    assert_eq!(front, input.into_iter().filter_values(|v| *v != 'b').collect_rev());
}

#[test]
fn filter_yields_as_many_pairs_as_satisfy_the_predicate() {
    let input: Vec<(u32, u32)> = (0..20).map(|i| (i, i * i)).collect();
    let wanted = input.iter().filter(|(k, _v)| k % 3 == 0).count();
    let out = input.clone().into_iter().filter_keys(|k| k % 3 == 0).collect();
    assert_eq!(7, wanted);
    assert_eq!(wanted, out.len());
    assert_eq!(vec![(0, 0), (3, 9), (6, 36), (9, 81), (12, 144), (15, 225), (18, 324)], out);

    let out = input.into_iter().filter_values(|v| *v > 300).collect();
    assert_eq!(vec![(18, 324), (19, 361)], out);
}

#[test]
fn adaptors_put_one_around_another() {
    let input = vec![(1u8, 'a'), (2, 'b'), (3, 'c'), (4, 'd')];

    let mut keys = input.clone().into_iter().map_keys(|k| k * 10);
    let out = std::iter::from_fn(|| keys.next())
        .filter_values(|v| *v != 'b')
        .collect();
    assert_eq!(vec![(10, 'a'), (30, 'c'), (40, 'd')], out);

    let mut kept = input.into_iter().filter_keys(|k| k % 2 == 0);
    let out = std::iter::from_fn(|| kept.next_back())
        .map_values(|v| v.to_ascii_uppercase())
        .collect();
    assert_eq!(vec![(4, 'D'), (2, 'B')], out);
}

#[test]
fn filter_leaves_both_components_as_they_were() {
    let input = vec![
        (String::from("keep"), String::from("v1")),
        (String::from("drop"), String::from("keep")),
        (String::from("keep"), String::from("drop")),
    ];

    let by_key = input.clone().into_iter().filter_keys(|k| k == "keep").collect();
    assert_eq!(
        vec![
            (String::from("keep"), String::from("v1")),
            (String::from("keep"), String::from("drop")),
        ],
        by_key
    );

    let by_value = input.into_iter().filter_values(|v| v == "keep").collect();
    assert_eq!(vec![(String::from("drop"), String::from("keep"))], by_value);
}
