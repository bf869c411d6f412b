use pathtracer::bvh::{BvhBuilder, BvhNode};
use pathtracer::traversal::Traversal;

fn four_leaf_tree() -> Vec<BvhNode> {
    let keys = vec![(0..12u32).map(Some).collect::<Vec<_>>()];
    let mut b = BvhBuilder::new(keys);
    while let Some(node) = b.next_pending() {
        let nd = b.nodes()[node];
        let len = nd.end - nd.start;
        // Split every partition after its first two primitives.
        let costs = vec![(0..len).map(|p| Some(if p == 1 { 0 } else { 9 })).collect()];
        b.sort_partition(node, 0);
        assert!(b.split(node, &costs));
    }
    b.nodes().clone()
}

#[test]
fn walk_without_misses_hands_out_every_position_once() {
    let nodes = four_leaf_tree();
    let mut walk = Traversal::new(&nodes);
    let mut seen = vec![0; 12];
    let mut steps = 0;
    while walk.current().is_some() {
        if let Some((start, end)) = walk.advance(&nodes, true) {
            for pos in start..end {
                seen[pos] += 1;
            }
        }
        steps += 1;
    }
    assert_eq!(seen, vec![1; 12]);
    assert_eq!(steps, nodes.len());
}

#[test]
fn walk_visits_right_child_first() {
    let nodes = four_leaf_tree();
    let mut walk = Traversal::new(&nodes);
    assert_eq!(walk.current(), Some(0));
    assert_eq!(walk.advance(&nodes, true), None);
    let (left, right) = nodes[0].children.unwrap();
    assert_eq!(walk.current(), Some(right));
    assert_eq!(walk.advance(&nodes, false), None);
    assert_eq!(walk.current(), Some(left));
}

#[test]
fn missed_root_prunes_everything() {
    let nodes = four_leaf_tree();
    let mut walk = Traversal::new(&nodes);
    assert_eq!(walk.advance(&nodes, false), None);
    assert_eq!(walk.current(), None);
}

#[test]
fn leaf_root_hands_out_all() {
    let b = BvhBuilder::new(vec![vec![Some(1), Some(0)]]);
    let nodes = b.nodes().clone();
    let mut walk = Traversal::new(&nodes);
    assert_eq!(walk.advance(&nodes, true), Some((0, 2)));
    assert_eq!(walk.current(), None);
}
