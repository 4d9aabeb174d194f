use segtree::segment_tree::Reducer;
use segtree::segment_tree::SegTreeError;
use segtree::segment_tree::SegmentTree;
use segtree::IntSum;

#[derive(Clone, Copy, Debug, PartialEq)]
struct FSum(f32);

impl Reducer for FSum {
    fn spec_reduce(self, other: FSum) -> FSum {
        FSum(self.0 + other.0)
    }

    fn spec_identity() -> FSum {
        FSum(0.0)
    }

    fn lemma_reduce_associative(_a: FSum, _b: FSum, _c: FSum) {}

    fn lemma_identity(_x: FSum) {}

    fn reduce(&self, other: FSum) -> FSum {
        FSum(self.0 + other.0)
    }

    fn identity() -> FSum {
        FSum(0.0)
    }

    fn dup(&self) -> FSum {
        FSum(self.0)
    }
}

fn int_tree() -> SegmentTree<IntSum> {
    SegmentTree::build(&[IntSum(2), IntSum(3), IntSum(7), IntSum(1), IntSum(9), IntSum(0)])
}

fn float_tree() -> SegmentTree<FSum> {
    SegmentTree::build(&[
        FSum(2.5),
        FSum(3.25),
        FSum(7.0),
        FSum(1.75),
        FSum(9.35),
        FSum(0.90),
    ])
}

#[test]
fn query_single_element_float() {
    let tree = float_tree();
    assert_eq!(tree.query(2, 2).unwrap().0, 7.0);
}

#[test]
fn query_inner_range_float() {
    let tree = float_tree();
    assert_eq!(tree.query(1, 3).unwrap().0, 3.25 + 7.0 + 1.75);
    assert_eq!(tree.query(1, 3).unwrap().0, 12.0);
}

#[test]
fn update_changes_totals() {
    let mut tree = int_tree();
    tree.update(&IntSum(100), 2).unwrap();
    assert_eq!(tree.query(0, 5).unwrap(), IntSum(115));
    assert_eq!(tree.query(2, 2).unwrap(), IntSum(100));
}

#[test]
fn update_rewrites_only_the_path() {
    let mut tree = int_tree();
    tree.update(&IntSum(100), 2).unwrap();
    let expected = [115, 105, 10, 5, 100, 10, 0, 2, 3, 0, 0, 1, 9, 0, 0];
    let storage = tree.storage();
    assert_eq!(storage.len(), expected.len());
    for (i, &elem) in expected.iter().enumerate() {
        assert_eq!(storage[i].0, elem);
    }
}

#[test]
fn round_trip_every_position() {
    let input = [2, 3, 7, 1, 9, 0];
    let tree = int_tree();
    for (k, &elem) in input.iter().enumerate() {
        assert_eq!(tree.query(k, k).unwrap(), IntSum(elem));
    }
}

#[test]
fn identity_is_neutral() {
    for x in [0u64, 1, 7, 1000, u64::MAX] {
        assert_eq!(IntSum(x).reduce(IntSum::identity()), IntSum(x));
        assert_eq!(IntSum::identity().reduce(IntSum(x)), IntSum(x));
    }
    for x in [0.0f32, 2.5, -7.25, 1.0e20] {
        assert_eq!(FSum(x).reduce(FSum::identity()).0, x);
        assert_eq!(FSum::identity().reduce(FSum(x)).0, x);
    }
}

#[test]
fn query_rejects_bad_ranges() {
    let tree = int_tree();
    assert_eq!(tree.query(0, 6), Err(SegTreeError::OutOfRange));
    assert_eq!(tree.query(6, 6), Err(SegTreeError::OutOfRange));
    assert_eq!(tree.query(3, 2), Err(SegTreeError::OutOfRange));
    assert_eq!(tree.query(6, 2), Err(SegTreeError::OutOfRange));
}

#[test]
fn update_rejects_bad_index_and_mutates_nothing() {
    let mut tree = int_tree();
    assert_eq!(tree.update(&IntSum(100), 6), Err(SegTreeError::OutOfRange));
    assert_eq!(tree.update(&IntSum(100), usize::MAX), Err(SegTreeError::OutOfRange));
    let untouched = int_tree();
    assert_eq!(tree.storage().len(), untouched.storage().len());
    for i in 0..tree.storage().len() {
        assert_eq!(tree.storage()[i], untouched.storage()[i]);
    }
}

#[test]
fn storage_length_rounds_up_to_complete_tree() {
    let expected_len: [(u64, usize); 9] =
        [(1, 1), (2, 3), (3, 7), (4, 7), (5, 15), (6, 15), (7, 15), (8, 15), (9, 31)];
    for &(n, len) in expected_len.iter() {
        let input: Vec<IntSum> = (0..n).map(IntSum).collect();
        let tree = SegmentTree::build(&input);
        assert_eq!(tree.storage().len(), len, "wrong storage length for n = {}", n);
    }
}

#[test]
fn single_element_tree() {
    let mut tree = SegmentTree::build(&[IntSum(5)]);
    assert_eq!(tree.storage().len(), 1);
    assert_eq!(tree.query(0, 0).unwrap(), IntSum(5));
    tree.update(&IntSum(9), 0).unwrap();
    assert_eq!(tree.query(0, 0).unwrap(), IntSum(9));
    assert_eq!(tree.query(0, 1), Err(SegTreeError::OutOfRange));
}

#[test]
fn full_range_equals_root() {
    let tree = int_tree();
    assert_eq!(tree.query(0, 5).unwrap(), tree.storage()[0]);
    assert_eq!(tree.query(0, 5).unwrap(), IntSum(22));
}

#[test]
fn saturating_sum_stops_at_max() {
    let tree = SegmentTree::build(&[IntSum(u64::MAX), IntSum(3)]);
    assert_eq!(tree.query(0, 1).unwrap(), IntSum(u64::MAX));
    assert_eq!(tree.query(1, 1).unwrap(), IntSum(3));
}

#[test]
fn power_of_two_input_has_no_padding() {
    let input = [IntSum(4), IntSum(1), IntSum(2), IntSum(6)];
    let tree = SegmentTree::build(&input);
    let expected = [13, 5, 8, 4, 1, 2, 6];
    let storage = tree.storage();
    assert_eq!(storage.len(), expected.len());
    for (i, &elem) in expected.iter().enumerate() {
        assert_eq!(storage[i].0, elem);
    }
}
