use layoutgen::error::Error;
use layoutgen::generation::internal::symmetries::Symmetries;
use layoutgen::generation::{Encoding, PartialLayout};
use layoutgen::layout::Key;

#[test]
fn encoding_translates_both_ways() {
    let encoding = Encoding::new(['x', 'y', 'z']).unwrap();
    assert_eq!(encoding.len(), 3);
    assert_eq!(encoding.decode(0), 'x');
    assert_eq!(encoding.decode(2), 'z');
    assert_eq!(encoding.encode(&'y'), Some(1));
    assert_eq!(encoding.encode(&'q'), None);
    assert_eq!(encoding.decode_tuple(&[2, 0, 2]), ['z', 'x', 'z']);
}

#[test]
fn encoding_refuses_a_value_twice() {
    assert!(matches!(Encoding::new(['x', 'y', 'x']), Err(Error::InvalidInput)));
    assert!(matches!(Encoding::new([1u8, 1u8]), Err(Error::InvalidInput)));
    assert!(Encoding::<char, 0>::new([]).is_ok());
}

#[test]
fn encoding_is_reordered() {
    let encoding = Encoding::new([Key(0, 0), Key(0, 1), Key(1, 0)]).unwrap();
    let other = encoding.permuted(&vec![2, 0, 1]);
    assert_eq!(other.decode(0), Key(1, 0));
    assert_eq!(other.decode(1), Key(0, 0));
    assert_eq!(other.decode(2), Key(0, 1));
    assert_eq!(other.encode(&Key(0, 1)), Some(2));
}

fn no_links(_: u8) -> Option<u8> {
    None
}

#[test]
fn keys_without_links_are_placed_from_the_last_to_the_first() {
    let (encoding, symmetries) = Symmetries::new([10u8, 20, 30], &no_links).unwrap();
    assert_eq!(encoding.decode(0), 30);
    assert_eq!(encoding.decode(1), 20);
    assert_eq!(encoding.decode(2), 10);
    assert_eq!(symmetries.0, [None, None, None]);
}

fn chain(key: u8) -> Option<u8> {
    match key {
        2 => Some(1),
        1 => Some(0),
        _ => None,
    }
}

#[test]
fn a_chain_is_placed_from_its_root() {
    let (encoding, symmetries) = Symmetries::new([0u8, 1, 2], &chain).unwrap();
    assert_eq!(encoding.decode(0), 0);
    assert_eq!(encoding.decode(1), 1);
    assert_eq!(encoding.decode(2), 2);
    assert_eq!(symmetries.0, [None, Some(0), Some(1)]);
}

#[test]
fn a_chain_is_placed_from_its_root_whatever_the_order_of_the_keys() {
    let (encoding, symmetries) = Symmetries::new([2u8, 0, 1], &chain).unwrap();
    assert_eq!(encoding.decode(0), 0);
    assert_eq!(encoding.decode(1), 1);
    assert_eq!(encoding.decode(2), 2);
    assert_eq!(symmetries.0, [None, Some(0), Some(1)]);
}

#[test]
fn links_pass_through_keys_that_are_not_there() {
    // 2 leads to 1, which is not among the keys, and on to 0
    let (encoding, symmetries) = Symmetries::new([0u8, 2], &chain).unwrap();
    assert_eq!(encoding.decode(0), 0);
    assert_eq!(encoding.decode(1), 2);
    assert_eq!(symmetries.0, [None, Some(0)]);
}

fn forest(key: u8) -> Option<u8> {
    match key {
        1 | 2 => Some(0),
        4 => Some(3),
        5 => Some(1),
        _ => None,
    }
}

#[test]
fn no_tree_is_interrupted() {
    // roots 0 and 3; 1 and 2 under 0; 5 under 1; 4 under 3
    let (encoding, symmetries) = Symmetries::new([0u8, 1, 2, 3, 4, 5], &forest).unwrap();
    let order: Vec<u8> = (0..6).map(|i| encoding.decode(i)).collect();
    assert_eq!(order, vec![3, 4, 0, 2, 1, 5]);
    assert_eq!(symmetries.0, [None, Some(0), None, Some(2), Some(2), Some(4)]);
}

fn circle(key: u8) -> Option<u8> {
    match key {
        0 => Some(1),
        1 => Some(0),
        _ => None,
    }
}

#[test]
fn a_circle_of_links_is_refused() {
    assert!(matches!(Symmetries::new([0u8, 1, 2], &circle), Err(Error::CycleDetected)));
}

#[test]
fn a_key_twice_is_refused() {
    assert!(matches!(Symmetries::new([0u8, 1, 0], &no_links), Err(Error::InvalidInput)));
}

#[test]
fn arrange_takes_links_by_index() {
    let keys = Encoding::new(['a', 'b', 'c']).unwrap();
    let (encoding, symmetries) =
        Symmetries::arrange(&keys, &[Some(2), None, None]).unwrap();
    // roots b and c; c is placed first, then a under it, then b
    assert_eq!(encoding.decode(0), 'c');
    assert_eq!(encoding.decode(1), 'a');
    assert_eq!(encoding.decode(2), 'b');
    assert_eq!(symmetries.0, [None, Some(0), None]);
    assert!(matches!(
        Symmetries::arrange(&keys, &[Some(0), None, None]),
        Err(Error::CycleDetected)
    ));
}

#[test]
fn empty_layout_is_the_identity() {
    let layout = PartialLayout::<4>::new();
    assert_eq!(layout.len(), 0);
    assert_eq!(layout.as_ref(), [0usize; 0]);
    assert!(layout.try_complete().is_err());
}

#[test]
fn layout_without_keys_is_complete() {
    let layout = PartialLayout::<0>::new();
    assert_eq!(layout.try_complete(), Ok([]));
}

#[test]
fn symmetric_siblings_give_one_child() {
    let parent = PartialLayout::<2>::new();
    let symmetries = Symmetries([None, Some(0)]);
    let mut iter = parent.children(&symmetries);
    let child = iter.next().unwrap();
    assert_eq!(child.as_ref(), [0]);
    assert_eq!(child.len(), 1);
    assert_eq!(child.get(0), 0);
    assert_eq!(iter.next(), None);
}

#[test]
fn children_of_children_reach_every_permutation() {
    let symmetries = Symmetries([None, None, None]);
    let root = PartialLayout::<3>::new();
    let mut complete = Vec::new();
    let mut first = root.children(&symmetries);
    while let Some(one) = first.next() {
        let mut second = one.children(&symmetries);
        while let Some(two) = second.next() {
            let mut third = two.children(&symmetries);
            while let Some(three) = third.next() {
                complete.push(three.try_complete().unwrap());
            }
        }
    }
    assert_eq!(
        complete,
        vec![[0, 1, 2], [0, 2, 1], [1, 0, 2], [1, 2, 0], [2, 0, 1], [2, 1, 0]]
    );
}

#[test]
fn a_linked_key_waits_for_its_link() {
    let symmetries = Symmetries([None, Some(0), Some(1)]);
    let root = PartialLayout::<3>::new();
    let mut first = root.children(&symmetries);
    let one = first.next().unwrap();
    assert_eq!(one.as_ref(), [0]);
    assert_eq!(first.next(), None);
    let mut second = one.children(&symmetries);
    let two = second.next().unwrap();
    assert_eq!(two.as_ref(), [0, 1]);
    assert_eq!(second.next(), None);
    let mut third = two.children(&symmetries);
    assert!(third.is_unique());
    assert_eq!(third.next().unwrap().try_complete(), Ok([0, 1, 2]));
    assert_eq!(third.next(), None);
}
