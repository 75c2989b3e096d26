use rtracer::bvh::{calc_dfs_required_capacity, calculate_capacity, BVHChild, BVHLeaf, BVHNode, BVHTree};
use rtracer::scene::SceneObjectIndex;

// one-dimensional interval boxes stand in for the renderer's boxes
type Span = (i64, i64);

fn span_union(a: Span, b: Span) -> Span {
    (a.0.min(b.0), a.1.max(b.1))
}

fn leaf(key: u64, index: usize, bounding_box: Span) -> BVHLeaf<Span> {
    BVHLeaf {
        key,
        index: SceneObjectIndex(index),
        bounding_box,
    }
}

fn leaf_payload(node: &BVHNode<Span>) -> Option<usize> {
    match node.child {
        BVHChild::Leaf(SceneObjectIndex(i)) => Some(i),
        BVHChild::Node { .. } => None,
    }
}

#[test]
fn capacity_formula() {
    assert_eq!(calculate_capacity(0), 0);
    assert_eq!(calculate_capacity(1), 1);
    assert_eq!(calculate_capacity(3), 4);
    assert_eq!(calculate_capacity(10), 18);
}

#[test]
fn generate_empty_and_single() {
    let t = BVHTree::generate(Vec::<BVHLeaf<Span>>::new(), span_union);
    assert_eq!(t.flat_tree().len(), 0);

    let t = BVHTree::generate(vec![leaf(5, 0, (1, 2))], span_union);
    assert_eq!(t.flat_tree().len(), 1);
    assert_eq!(leaf_payload(&t.flat_tree()[0]), Some(0));
}

#[test]
fn generate_sorts_leaves_and_unions_boxes() {
    // four leaves, keys out of order
    let leaves = vec![
        leaf(30, 0, (6, 7)),
        leaf(10, 1, (0, 1)),
        leaf(40, 2, (9, 11)),
        leaf(20, 3, (2, 4)),
    ];
    let t = BVHTree::generate(leaves, span_union);
    let nodes = t.flat_tree();
    assert_eq!(nodes.len(), 7);

    // leaf rows come first, in key order
    let order: Vec<Option<usize>> = nodes.iter().take(4).map(leaf_payload).collect();
    assert_eq!(order, vec![Some(1), Some(3), Some(0), Some(2)]);

    // every inner node's box is the union of its children's boxes
    for node in nodes.iter().skip(4) {
        match node.child {
            BVHChild::Node { left, right } => {
                let l = nodes[left].bounding_box;
                let r = nodes[right].bounding_box;
                assert_eq!(node.bounding_box, span_union(l, r));
            }
            BVHChild::Leaf(_) => panic!("expected an inner node past the leaf rows"),
        }
    }
    // the root covers everything
    assert_eq!(nodes[6].bounding_box, (0, 11));
}

#[test]
fn generate_deterministic_across_input_orders() {
    let a = vec![
        leaf(30, 0, (6, 7)),
        leaf(10, 1, (0, 1)),
        leaf(40, 2, (9, 11)),
        leaf(20, 3, (2, 4)),
    ];
    let b = vec![
        leaf(20, 3, (2, 4)),
        leaf(40, 2, (9, 11)),
        leaf(10, 1, (0, 1)),
        leaf(30, 0, (6, 7)),
    ];
    let ta = BVHTree::generate(a, span_union);
    let tb = BVHTree::generate(b, span_union);
    let na = ta.flat_tree();
    let nb = tb.flat_tree();
    assert_eq!(na.len(), nb.len());
    for (x, y) in na.iter().zip(nb.iter()) {
        assert_eq!(x.bounding_box, y.bounding_box);
        match (&x.child, &y.child) {
            (BVHChild::Leaf(SceneObjectIndex(i)), BVHChild::Leaf(SceneObjectIndex(j))) => {
                assert_eq!(i, j)
            }
            (
                BVHChild::Node { left: l1, right: r1 },
                BVHChild::Node { left: l2, right: r2 },
            ) => {
                assert_eq!(l1, l2);
                assert_eq!(r1, r2);
            }
            _ => panic!("tree shapes differ"),
        }
    }
}

#[test]
fn query_unpruned_returns_all_leaves() {
    let leaves = vec![
        leaf(1, 0, (0, 1)),
        leaf(2, 1, (2, 3)),
        leaf(3, 2, (4, 5)),
        leaf(4, 3, (6, 7)),
        leaf(5, 4, (8, 9)),
    ];
    let t = BVHTree::generate(leaves, span_union);
    let mut buffer = Vec::new();
    let mut hits: Vec<usize> = t
        .query_leaf(|_node: BVHNode<Span>| false, &mut buffer)
        .into_iter()
        .map(|SceneObjectIndex(i)| i)
        .collect();
    hits.sort_unstable();
    assert_eq!(hits, vec![0, 1, 2, 3, 4]);
    assert_eq!(buffer.len(), 0);
}

#[test]
fn query_pruned_matches_brute_force() {
    // a "ray" covering 3..=6 must see exactly the leaves overlapping it
    let leaves = vec![
        leaf(1, 0, (0, 1)),
        leaf(2, 1, (2, 3)),
        leaf(3, 2, (4, 5)),
        leaf(4, 3, (6, 7)),
        leaf(5, 4, (8, 9)),
    ];
    let overlaps = |b: Span| b.0 <= 6 && 3 <= b.1;
    let expected: Vec<usize> = leaves
        .iter()
        .filter(|l| overlaps(l.bounding_box))
        .map(|l| l.index.0)
        .collect();

    let t = BVHTree::generate(leaves, span_union);
    let mut buffer = Vec::new();
    let mut hits: Vec<usize> = t
        .query_leaf(|node: BVHNode<Span>| !overlaps(node.bounding_box), &mut buffer)
        .into_iter()
        .map(|SceneObjectIndex(i)| i)
        .collect();
    hits.sort_unstable();
    let mut expected = expected;
    expected.sort_unstable();
    assert_eq!(hits, expected);
}

#[test]
fn query_always_pruned_is_empty() {
    let leaves = vec![leaf(1, 0, (0, 1)), leaf(2, 1, (2, 3))];
    let t = BVHTree::generate(leaves, span_union);
    let mut buffer = Vec::new();
    let hits = t.query_leaf(|_node: BVHNode<Span>| true, &mut buffer);
    assert!(hits.is_empty());
}

#[test]
fn query_marked_is_left_first_depth_first() {
    let leaves = vec![
        leaf(1, 0, (0, 1)),
        leaf(2, 1, (2, 3)),
        leaf(3, 2, (4, 5)),
        leaf(4, 3, (6, 7)),
    ];
    let t = BVHTree::generate(leaves, span_union);
    // nothing marked: all four leaves, left subtree first
    let mut buffer = Vec::new();
    let no_marks = vec![false; t.flat_tree().len()];
    let hits: Vec<usize> = t
        .query_leaf_marked(&no_marks, &mut buffer)
        .into_iter()
        .map(|SceneObjectIndex(i)| i)
        .collect();
    assert_eq!(hits, vec![0, 1, 2, 3]);

    // marking the left inner subtree (rows 0..2 grouped under node 4) drops
    // its two leaves
    let mut marks = vec![false; t.flat_tree().len()];
    marks[4] = true;
    let hits: Vec<usize> = t
        .query_leaf_marked(&marks, &mut buffer)
        .into_iter()
        .map(|SceneObjectIndex(i)| i)
        .collect();
    assert_eq!(hits, vec![2, 3]);

    // marking the root drops everything
    let mut marks = vec![false; t.flat_tree().len()];
    let root = t.flat_tree().len() - 1;
    marks[root] = true;
    let hits = t.query_leaf_marked(&marks, &mut buffer);
    assert!(hits.is_empty());
}

#[test]
fn dfs_capacity_is_longest_path() {
    let t = BVHTree::generate(Vec::<BVHLeaf<Span>>::new(), span_union);
    assert_eq!(calc_dfs_required_capacity(t.flat_tree()), 0);

    let t = BVHTree::generate(vec![leaf(1, 0, (0, 1))], span_union);
    assert_eq!(calc_dfs_required_capacity(t.flat_tree()), 1);

    let leaves = vec![
        leaf(1, 0, (0, 1)),
        leaf(2, 1, (2, 3)),
        leaf(3, 2, (4, 5)),
        leaf(4, 3, (6, 7)),
    ];
    let t = BVHTree::generate(leaves, span_union);
    assert_eq!(calc_dfs_required_capacity(t.flat_tree()), 3);

    // three leaves: one side of the root is a lone leaf, the other two deep
    let leaves = vec![leaf(1, 0, (0, 1)), leaf(2, 1, (2, 3)), leaf(3, 2, (4, 5))];
    let t = BVHTree::generate(leaves, span_union);
    assert_eq!(calc_dfs_required_capacity(t.flat_tree()), 3);
}

#[test]
fn generate_with_equal_keys_keeps_all_leaves() {
    let leaves = vec![leaf(7, 0, (0, 1)), leaf(7, 1, (2, 3)), leaf(7, 2, (4, 5))];
    let t = BVHTree::generate(leaves, span_union);
    assert_eq!(t.flat_tree().len(), 5);
    let mut buffer = Vec::new();
    let mut hits: Vec<usize> = t
        .query_leaf(|_node: BVHNode<Span>| false, &mut buffer)
        .into_iter()
        .map(|SceneObjectIndex(i)| i)
        .collect();
    hits.sort_unstable();
    assert_eq!(hits, vec![0, 1, 2]);
}
