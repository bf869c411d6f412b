use pathtracer::bvh::{best_split, rank, BvhBuilder};

#[test]
fn rank_puts_not_a_number_last() {
    assert_eq!(rank(Some(0)), 0);
    assert_eq!(rank(Some(7)), 7);
    assert_eq!(rank(Some(u32::MAX)), u32::MAX as u64);
    assert!(rank(None) > rank(Some(u32::MAX)));
}

#[test]
fn best_split_picks_least_cost() {
    let costs = vec![vec![Some(9), Some(4), Some(6)], vec![Some(5), Some(3), Some(8)]];
    assert_eq!(best_split(&costs), Some((1, 1)));
}

#[test]
fn best_split_prefers_earliest_of_equal_costs() {
    let costs = vec![vec![Some(5), Some(2), Some(2)], vec![Some(2), Some(7), Some(9)]];
    assert_eq!(best_split(&costs), Some((0, 1)));
}

#[test]
fn best_split_skips_costs_that_are_not_numbers() {
    let costs = vec![vec![None, None, Some(8)], vec![None, Some(9), None]];
    assert_eq!(best_split(&costs), Some((0, 2)));
}

#[test]
fn best_split_of_no_numbers_is_none() {
    let costs = vec![vec![None, None], vec![None, None]];
    assert_eq!(best_split(&costs), None);
    let empty: Vec<Vec<Option<u32>>> = vec![vec![], vec![]];
    assert_eq!(best_split(&empty), None);
}

#[test]
fn new_builder_has_one_leaf_over_all() {
    let keys = vec![vec![Some(3), Some(1), Some(2), Some(0)], vec![Some(0); 4]];
    let b = BvhBuilder::new(keys);
    assert_eq!(b.order().clone(), vec![0, 1, 2, 3]);
    assert_eq!(b.nodes().len(), 1);
    assert_eq!(b.nodes()[0].start, 0);
    assert_eq!(b.nodes()[0].end, 4);
    assert!(b.nodes()[0].children.is_none());
}

#[test]
fn sort_partition_orders_by_key_with_not_a_number_last() {
    let keys = vec![vec![None, Some(5), Some(1), Some(5), Some(0)]];
    let mut b = BvhBuilder::new(keys);
    assert_eq!(b.next_pending(), Some(0));
    b.sort_partition(0, 0);
    assert_eq!(b.order().clone(), vec![4, 2, 1, 3, 0]);
}

#[test]
fn split_divides_leaf_at_cheapest_split() {
    // Axis 0 orders the primitives 3, 2, 1, 0; axis 1 orders them 0, 1, 2, 3.
    let keys = vec![
        vec![Some(30), Some(20), Some(10), Some(0)],
        vec![Some(0), Some(10), Some(20), Some(30)],
    ];
    let mut b = BvhBuilder::new(keys);
    let node = b.next_pending().unwrap();
    assert_eq!(node, 0);
    // The cheapest split is on axis 0, after its second position.
    let costs = vec![vec![Some(50), Some(10), Some(40), Some(60)], vec![Some(20); 4]];
    assert!(b.split(node, &costs));
    assert_eq!(b.order().clone(), vec![3, 2, 1, 0]);
    let nodes = b.nodes();
    assert_eq!(nodes.len(), 3);
    assert_eq!(nodes[0].children, Some((1, 2)));
    assert_eq!((nodes[1].start, nodes[1].end), (0, 2));
    assert_eq!((nodes[2].start, nodes[2].end), (2, 4));
    assert!(nodes[1].children.is_none() && nodes[2].children.is_none());
    // Both halves hold fewer than three primitives: nothing is left to split.
    assert_eq!(b.next_pending(), None);
}

#[test]
fn split_at_last_position_leaves_leaf_alone() {
    let keys = vec![vec![Some(0), Some(1), Some(2)]];
    let mut b = BvhBuilder::new(keys);
    let node = b.next_pending().unwrap();
    let costs = vec![vec![Some(9), Some(9), Some(1)]];
    assert!(!b.split(node, &costs));
    assert_eq!(b.nodes().len(), 1);
    assert_eq!(b.order().clone(), vec![0, 1, 2]);
    assert_eq!(b.next_pending(), None);
}

#[test]
fn split_with_only_unknown_costs_leaves_leaf_alone() {
    let keys = vec![vec![Some(0), Some(1), Some(2)]];
    let mut b = BvhBuilder::new(keys);
    let node = b.next_pending().unwrap();
    let costs = vec![vec![None, None, None]];
    assert!(!b.split(node, &costs));
    assert_eq!(b.nodes().len(), 1);
}

#[test]
fn small_partitions_are_not_handed_out() {
    let keys = vec![vec![Some(0), Some(1)]];
    let mut b = BvhBuilder::new(keys);
    assert_eq!(b.next_pending(), None);
    let empty: Vec<Vec<Option<u32>>> = vec![vec![]];
    let mut e = BvhBuilder::new(empty);
    assert_eq!(e.next_pending(), None);
    assert_eq!((e.nodes()[0].start, e.nodes()[0].end), (0, 0));
}

#[test]
fn full_build_puts_each_primitive_in_one_leaf() {
    let n: u32 = 9;
    let keys = vec![
        (0..n).map(|i| Some((i * 7) % n)).collect::<Vec<_>>(),
        (0..n).map(|i| Some(n - i)).collect::<Vec<_>>(),
    ];
    let mut b = BvhBuilder::new(keys);
    while let Some(node) = b.next_pending() {
        let nd = b.nodes()[node];
        let len = nd.end - nd.start;
        // Costs that favour an even split, on the first axis only.
        let costs = vec![
            (0..len).map(|p| Some((2 * p as i64 - len as i64).unsigned_abs() as u32)).collect(),
            vec![None; len],
        ];
        b.sort_partition(node, 0);
        b.sort_partition(node, 1);
        assert!(b.split(node, &costs));
    }
    let mut seen = vec![0u32; n as usize];
    for nd in b.nodes().iter() {
        if nd.children.is_none() {
            assert!(nd.end - nd.start < 3);
            for pos in nd.start..nd.end {
                seen[b.order()[pos]] += 1;
            }
        }
    }
    assert_eq!(seen, vec![1; n as usize]);
}
