use itermap::Swap;

#[test]
fn swap_exchanges_components() {
    let items = vec![(1u8, 'a'), (2, 'b'), (3, 'c')];
    let mut swap = Swap::new(items.into_iter());
    assert_eq!(Some(3), swap.len());
    assert_eq!((3, Some(3)), swap.size_hint());
    assert_eq!(Some(('a', 1)), swap.next());
    assert_eq!(Some(('c', 3)), swap.next_back());
    assert_eq!(Some(1), swap.len());
    assert_eq!(Some(('b', 2)), swap.next());
    assert_eq!(None, swap.next());
    assert_eq!(None, swap.next_back());
    assert_eq!(Some(0), swap.len());
}

#[test]
fn swap_map_item() {
    assert_eq!(('x', 7u8), Swap::<std::vec::IntoIter<(u8, char)>>::map_item((7u8, 'x')));
}

#[test]
fn swap_twice_gives_the_input_back() {
    let items = vec![(1u8, 'a'), (2, 'b'), (3, 'c')];
    let once = Swap::new(items.clone().into_iter()).collect();
    assert_eq!(vec![('a', 1), ('b', 2), ('c', 3)], once);
    let twice = Swap::new(once.into_iter()).collect();
    assert_eq!(items, twice);
}

#[test]
fn swap_from_the_back() {
    let items = vec![(1u8, 'a'), (2, 'b'), (3, 'c')];
    let back = Swap::new(items.into_iter()).collect_rev();
    assert_eq!(vec![('c', 3), ('b', 2), ('a', 1)], back);
}

#[test]
fn swap_of_an_empty_input() {
    let empty: Vec<(u8, char)> = Vec::new();
    assert_eq!(Vec::<(char, u8)>::new(), Swap::new(empty.clone().into_iter()).collect());
    assert_eq!(Vec::<(char, u8)>::new(), Swap::new(empty.into_iter()).collect_rev());
}
