use layoutgen::error::Error;
use layoutgen::generation::internal::symmetries::Symmetries;
use layoutgen::layout::{
    column_set_symmetries, interior_column_symmetries, sfb_distance_symmetries, Finger,
    FingerKind, Hand, Key, Layout,
};

#[test]
fn qwerty_has_three_rows_of_ten() {
    let mapping = Layout::qwerty().into_mapping();
    assert_eq!(mapping.len(), 30);
    assert_eq!(mapping[0], (Key(0, 0), 'q'));
    assert_eq!(mapping[9], (Key(0, 9), 'p'));
    assert_eq!(mapping[10], (Key(1, 0), 'a'));
    assert_eq!(mapping[19], (Key(1, 9), '\''));
    assert_eq!(mapping[20], (Key(2, 0), 'z'));
    assert_eq!(mapping[29], (Key(2, 9), '/'));
}

#[test]
fn mapping_is_in_the_order_of_the_keys() {
    let mapping = Layout::qwerty().into_mapping();
    for pair in mapping.windows(2) {
        assert!(pair[0].0 < pair[1].0);
    }
}

#[test]
fn layout_from_rows_and_back() {
    let rows = vec![vec!['a', 'b'], vec![], vec!['c']];
    let layout = Layout::from_rows(rows.clone());
    assert_eq!(
        layout.clone().into_mapping(),
        vec![(Key(0, 0), 'a'), (Key(0, 1), 'b'), (Key(2, 0), 'c')]
    );
    assert_eq!(layout.into_rows(), rows);
}

#[test]
fn layout_from_mapping_sorts_by_key() {
    let layout = Layout::from_mapping(vec![
        (Key(1, 1), 'd'),
        (Key(0, 1), 'b'),
        (Key(1, 0), 'c'),
        (Key(0, 0), 'a'),
    ]);
    assert_eq!(layout, Layout::from_rows(vec![vec!['a', 'b'], vec!['c', 'd']]));
}

#[test]
fn layout_from_mapping_keeps_equal_keys_in_order_and_rows_without_keys_empty() {
    let layout =
        Layout::from_mapping(vec![(Key(2, 5), 'x'), (Key(0, 7), 'y'), (Key(2, 5), 'z')]);
    assert_eq!(layout.into_rows(), vec![vec!['y'], vec![], vec!['x', 'z']]);
}

#[test]
fn mapping_of_qwerty_gives_qwerty() {
    let mut mapping = Layout::qwerty().into_mapping();
    mapping.reverse();
    assert_eq!(Layout::from_mapping(mapping), Layout::qwerty());
}

#[test]
fn keys_of_a_column_follow_the_home_row() {
    assert_eq!(interior_column_symmetries(Key(0, 7)), Some(Key(1, 7)));
    assert_eq!(interior_column_symmetries(Key(2, 7)), Some(Key(0, 7)));
    assert_eq!(interior_column_symmetries(Key(1, 4)), Some(Key(2, 3)));
    assert_eq!(interior_column_symmetries(Key(1, 5)), Some(Key(2, 6)));
    assert_eq!(interior_column_symmetries(Key(1, 0)), None);
    assert_eq!(interior_column_symmetries(Key(1, 9)), None);
}

#[test]
fn columns_follow_columns_of_their_size() {
    assert_eq!(column_set_symmetries(Key(0, 2)), Some(Key(1, 2)));
    assert_eq!(column_set_symmetries(Key(2, 2)), Some(Key(0, 2)));
    assert_eq!(column_set_symmetries(Key(1, 4)), Some(Key(2, 3)));
    assert_eq!(column_set_symmetries(Key(1, 0)), None);
    assert_eq!(column_set_symmetries(Key(1, 3)), None);
    assert_eq!(column_set_symmetries(Key(1, 1)), Some(Key(1, 0)));
    assert_eq!(column_set_symmetries(Key(1, 2)), Some(Key(1, 1)));
    assert_eq!(column_set_symmetries(Key(1, 6)), Some(Key(1, 3)));
    assert_eq!(column_set_symmetries(Key(1, 7)), Some(Key(1, 2)));
    assert_eq!(column_set_symmetries(Key(1, 8)), Some(Key(1, 7)));
    assert_eq!(column_set_symmetries(Key(1, 9)), Some(Key(1, 8)));
}

#[test]
fn the_bottom_row_follows_the_top_row() {
    assert_eq!(sfb_distance_symmetries(Key(2, 4)), Some(Key(0, 3)));
    assert_eq!(sfb_distance_symmetries(Key(0, 4)), Some(Key(0, 3)));
    assert_eq!(sfb_distance_symmetries(Key(2, 5)), Some(Key(0, 6)));
    assert_eq!(sfb_distance_symmetries(Key(0, 5)), Some(Key(0, 6)));
    assert_eq!(sfb_distance_symmetries(Key(2, 8)), Some(Key(0, 8)));
    assert_eq!(sfb_distance_symmetries(Key(0, 8)), None);
    assert_eq!(sfb_distance_symmetries(Key(1, 4)), None);
    assert_eq!(sfb_distance_symmetries(Key(7, 7)), None);
}

fn board() -> [Key; 30] {
    let mut keys = [Key(0, 0); 30];
    for row in 0..3 {
        for col in 0..10 {
            keys[row * 10 + col] = Key(row, col);
        }
    }
    keys
}

fn check_order(symmetries: &dyn Fn(Key) -> Option<Key>) {
    let (encoding, links) = Symmetries::new(board(), &symmetries).unwrap();
    for place in 0..30 {
        let key = encoding.decode(place);
        assert_eq!(encoding.encode(&key), Some(place));
        match symmetries(key) {
            Some(before) => {
                let link = links.0[place].unwrap();
                assert!(link < place);
                assert_eq!(encoding.decode(link), before);
            }
            None => assert_eq!(links.0[place], None),
        }
    }
}

#[test]
fn the_board_is_ordered_by_its_column_links() {
    check_order(&interior_column_symmetries);
}

#[test]
fn the_board_is_ordered_by_its_column_set_links() {
    check_order(&column_set_symmetries);
}

#[test]
fn the_board_is_ordered_by_its_row_links() {
    check_order(&sfb_distance_symmetries);
}

#[test]
fn half_a_board_is_linked_through_the_missing_keys() {
    // without the top row the bottom row is linked to the home row
    let keys = [Key(1, 0), Key(2, 0), Key(1, 1), Key(2, 1)];
    let (encoding, links) = Symmetries::new(keys, &interior_column_symmetries).unwrap();
    let order: Vec<Key> = (0..4).map(|place| encoding.decode(place)).collect();
    assert_eq!(order, vec![Key(1, 1), Key(2, 1), Key(1, 0), Key(2, 0)]);
    assert_eq!(links.0, [None, Some(0), None, Some(2)]);
}

#[test]
fn a_key_twice_on_the_board_is_refused() {
    let keys = [Key(1, 0), Key(2, 0), Key(1, 0)];
    assert!(matches!(
        Symmetries::new(keys, &sfb_distance_symmetries),
        Err(Error::InvalidInput)
    ));
}

#[test]
fn fingers_are_ordered_from_the_outside_in() {
    assert!(FingerKind::Pinky < FingerKind::Ring);
    assert!(FingerKind::Index < FingerKind::Thumb);
    let finger = Finger { kind: FingerKind::Middle, hand: Hand::Left };
    assert_eq!(finger, Finger { kind: FingerKind::Middle, hand: Hand::Left });
    assert_ne!(finger.hand, Hand::Right);
}
