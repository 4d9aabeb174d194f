use segtree::segment_tree::Reducer;
use segtree::segment_tree::SegmentTree;
use segtree::IntSum;

#[derive(Clone, Copy, Debug, PartialEq)]
struct FloatSum(f32);

impl Reducer for FloatSum {
    fn spec_reduce(self, other: FloatSum) -> FloatSum {
        FloatSum(self.0 + other.0)
    }

    fn spec_identity() -> FloatSum {
        FloatSum(0.0)
    }

    fn lemma_reduce_associative(_a: FloatSum, _b: FloatSum, _c: FloatSum) {}

    fn lemma_identity(_x: FloatSum) {}

    fn reduce(&self, other: FloatSum) -> FloatSum {
        FloatSum(self.0 + other.0)
    }

    fn identity() -> FloatSum {
        FloatSum(0.0)
    }

    fn dup(&self) -> FloatSum {
        FloatSum(self.0)
    }
}

#[test]
fn lib_test_update() {}

#[test]
fn lib_test_querying() {
    // Setup
    let vec = [
        FloatSum(2.5),
        FloatSum(3.25),
        FloatSum(7.0),
        FloatSum(1.75),
        FloatSum(9.35),
        FloatSum(0.90),
    ];

    let tree = SegmentTree::<FloatSum>::build(&vec);

    // Run
    let result = tree.query(0, 5).unwrap(); // inclusive, indexing = 0, 1, ..., n-1

    // Check
    assert_eq!(result.0, 24.75);
}

#[test]
fn lib_test_building_tree() {
    // Setup
    let vec = [IntSum(2), IntSum(3), IntSum(7), IntSum(1), IntSum(9), IntSum(0)];
    let valid_storage = [22, 12, 10, 5, 7, 10, 0, 2, 3, 0, 0, 1, 9, 0, 0];

    // Run
    let tree = SegmentTree::<IntSum>::build(&vec);
    let tree_storage = tree.storage();

    // Check
    let mut status = tree_storage.len() == valid_storage.len();

    for (i, &elem) in valid_storage.iter().enumerate() {
        status &= elem == tree_storage[i].0;
    }

    assert!(status, "Failed to build a tree correctly");
}

#[test]
fn unit_test_update() {}

#[test]
fn unit_test_querying() {
    // Setup
    let vec = [
        FloatSum(2.5),
        FloatSum(3.25),
        FloatSum(7.0),
        FloatSum(1.75),
        FloatSum(9.35),
        FloatSum(0.90),
    ];

    let tree = SegmentTree::<FloatSum>::build(&vec);

    // Run
    let result = tree.query(0, 5).unwrap(); // inclusive, indexing = 0, 1, ..., n-1

    // Check
    assert_eq!(result.0, 24.75);
}

#[test]
fn unit_test_building_tree() {
    // Setup
    let vec = [IntSum(2), IntSum(3), IntSum(7), IntSum(1), IntSum(9), IntSum(0)];
    let valid_storage = [22, 12, 10, 5, 7, 10, 0, 2, 3, 0, 0, 1, 9, 0, 0];

    // Run
    let tree = SegmentTree::<IntSum>::build(&vec);
    let tree_storage = tree.storage();

    // Check
    let mut status = tree_storage.len() == valid_storage.len();

    for (i, &elem) in valid_storage.iter().enumerate() {
        status &= elem == tree_storage[i].0;
    }

    assert!(status, "Failed to build a tree correctly");
}
