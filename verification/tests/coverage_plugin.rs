use pointcloud::plugins::CoverNodeView;
use pointcloud::plugins::CoverTreeView;
use pointcloud::plugins::GokoCoverageIndexes;
use pointcloud::plugins::NodeAddress;

fn addr(scale: i32, center: u64) -> NodeAddress {
    NodeAddress { scale, center }
}

/// A small tree, children listed before parents, the root last:
/// two leaves and the root's nested self-child under one routing root.
fn build_basic_tree() -> CoverTreeView {
    let leaf_a = CoverNodeView {
        address: addr(0, 1),
        singletons: vec![2],
        coverage_count: 2,
        children: None,
    };
    let leaf_b = CoverNodeView {
        address: addr(0, 3),
        singletons: Vec::new(),
        coverage_count: 1,
        children: None,
    };
    let nested = CoverNodeView {
        address: addr(0, 0),
        singletons: vec![4],
        coverage_count: 2,
        children: None,
    };
    let root = CoverNodeView {
        address: addr(1, 0),
        singletons: vec![5],
        coverage_count: 6,
        children: Some((0, vec![addr(0, 1), addr(0, 3)])),
    };
    CoverTreeView { nodes: vec![leaf_a, leaf_b, nested, root] }
}

#[test]
fn coverage_sanity() {
    let ct = build_basic_tree();
    let params = GokoCoverageIndexes::new();
    let store = GokoCoverageIndexes::compute_coverage(&ct, &params);
    let mut untested_addresses = vec![ct.root_address().unwrap()];
    while let Some(a) = untested_addresses.pop() {
        let count = store.get(a).unwrap().point_indexes().len();
        let n = ct.get_node(a).unwrap();
        assert_eq!(n.coverage_count as usize, count, "Node: {:?}", n);
        if let Some((nested_scale, children)) = &n.children {
            untested_addresses.push(addr(*nested_scale, n.address.center));
            for c in children {
                untested_addresses.push(*c);
            }
        }
    }
}

#[test]
fn root_collects_every_covered_point() {
    let ct = build_basic_tree();
    let params = GokoCoverageIndexes::new();
    let store = GokoCoverageIndexes::compute_coverage(&ct, &params);
    let mut pis = store.get(addr(1, 0)).unwrap().point_indexes().to_vec();
    pis.sort();
    assert_eq!(pis, vec![0, 1, 2, 3, 4, 5]);

    let leaf = store.get(addr(0, 1)).unwrap().point_indexes().to_vec();
    assert_eq!(leaf, vec![2, 1]);
}

#[test]
fn budget_bounds_collection() {
    let ct = build_basic_tree();
    let params = GokoCoverageIndexes::restricted(2);
    let store = GokoCoverageIndexes::compute_coverage(&ct, &params);

    // Under the budget: a value with exactly the coverage count of indexes.
    let b = store.get(addr(0, 3)).unwrap();
    assert_eq!(b.point_indexes().len(), 1);
    assert_eq!(b.point_indexes(), &[3]);

    // At or over the budget: explicitly no value, not an empty one.
    assert!(store.get(addr(0, 1)).is_none());
    assert!(store.get(addr(0, 0)).is_none());
    assert!(store.get(addr(1, 0)).is_none());
}

#[test]
fn restricted_and_new_budgets() {
    assert_eq!(GokoCoverageIndexes::restricted(17).max, 17);
    assert_eq!(GokoCoverageIndexes::new().max, usize::MAX);
}
