use layoutgen::generation::analysis::Indexes;
use layoutgen::generation::{PartialLayout, Symmetries};

#[test]
fn indexes_order() {
    let mut iter = Indexes::<3>::new(2);
    assert_eq!(iter.next(), Some([0, 0, 0]));
    assert_eq!(iter.next(), Some([0, 0, 1]));
    assert_eq!(iter.next(), Some([0, 1, 0]));
    assert_eq!(iter.next(), Some([0, 1, 1]));
    assert_eq!(iter.next(), Some([1, 0, 0]));
    assert_eq!(iter.next(), Some([1, 0, 1]));
    assert_eq!(iter.next(), Some([1, 1, 0]));
    assert_eq!(iter.next(), Some([1, 1, 1]));
    assert_eq!(iter.next(), None);
}

#[test]
fn children() {
    let parent = PartialLayout::new();
    let symmetries = Symmetries([None, Some(0), None]);
    let mut iter = parent.children(&symmetries);
    assert_eq!(iter.next().unwrap().as_ref(), [0]);
    assert_eq!(iter.next().unwrap().as_ref(), [2]);
    assert_eq!(iter.next(), None);
}
