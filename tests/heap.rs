use s4mc_pathing::action::SpatialAction;
use s4mc_pathing::data::{BinaryHeapOpenSet, Node, PathingError};
use s4mc_pathing::math::Vector2i;

struct HeapScenario {
    heap: BinaryHeapOpenSet<Vector2i>,
    next_id: usize,
}

impl HeapScenario {
    fn new() -> Self {
        Self { heap: BinaryHeapOpenSet::new(), next_id: 0 }
    }

    fn node(&mut self, g_cost: u64, h_cost: u64) -> Node<Vector2i> {
        let id = self.next_id;
        self.next_id += 1;
        Node {
            g_cost,
            h_cost,
            action: SpatialAction::new_root(Vector2i::zero()),
            parent: None,
            heap_idx: None,
            id,
        }
    }

    fn dummy_node(&mut self, g_cost: u64, h_cost: u64) -> Result<(), PathingError> {
        let n = self.node(g_cost, h_cost);
        self.heap.insert(n)
    }
}

#[test]
fn heap_ordered() {
    let mut hs = HeapScenario::new();
    let mut results = vec![hs.dummy_node(0, 0), hs.dummy_node(1, 0), hs.dummy_node(2, 0)];
    results.retain(|r| r.is_err());
    assert!(results.is_empty(), "A heap operation failed: {:?}", results);
    let actual = hs.heap.cost_order();
    let intended: Vec<u128> = vec![0, 1, 2];
    assert_eq!(actual, intended, "Heap did not match the binary heap structure")
}

#[test]
fn heap_unordered() {
    let mut hs = HeapScenario::new();
    let mut results = vec![
        hs.dummy_node(1, 0),
        hs.dummy_node(3, 0),
        hs.dummy_node(2, 0),
        hs.dummy_node(5, 0),
        hs.dummy_node(0, 0),
        hs.dummy_node(4, 0),
    ];
    results.retain(|r| r.is_err());
    assert!(results.is_empty(), "A heap operation failed: {:?}", results);
    let actual = hs.heap.cost_order();
    let intended: Vec<u128> = vec![0, 1, 2, 5, 3, 4];
    assert_eq!(actual, intended, "Heap did not match the binary heap structure");

    let lowest = hs.heap.pop();
    assert!(lowest.is_ok(), "Heap did not successfully pop off a value");
    assert_eq!(lowest.unwrap().f_cost(), 0, "Heap did not pop off the lowest value");
    let actual2 = hs.heap.cost_order();
    let intended2: Vec<u128> = vec![1, 3, 2, 5, 4];
    assert_eq!(actual2, intended2, "Heap did not match the binary heap structure")
}

#[test]
fn heap_pops_in_order() {
    let mut hs = HeapScenario::new();
    let costs: Vec<u64> = vec![7, 3, 9, 3, 0, 12, 5, 8, 1, 1, 6];
    for c in costs.iter() {
        assert!(hs.dummy_node(*c, 2).is_ok());
    }
    let mut sorted = costs.clone();
    sorted.sort();
    let mut popped: Vec<u128> = Vec::new();
    while !hs.heap.is_empty() {
        let n = hs.heap.pop().unwrap();
        assert_eq!(n.heap_idx, None);
        popped.push(n.f_cost());
    }
    let expected: Vec<u128> = sorted.iter().map(|c| *c as u128 + 2).collect();
    assert_eq!(popped, expected);
}

#[test]
fn heap_parent_never_costs_more() {
    let mut hs = HeapScenario::new();
    let mut x: u64 = 12345;
    for _ in 0..200 {
        x = x.wrapping_mul(6364136223846793005).wrapping_add(1442695040888963407);
        assert!(hs.dummy_node((x >> 40) % 1000, 0).is_ok());
        let order = hs.heap.cost_order();
        for i in 1..order.len() {
            assert!(order[(i - 1) / 2] <= order[i]);
        }
    }
}

#[test]
fn decrease_key_moves_node_up() {
    let mut hs = HeapScenario::new();
    for c in [10u64, 20, 30, 40, 50] {
        assert!(hs.dummy_node(c, 0).is_ok());
    }
    // the node of cost 50 sits at slot 4, under the node of cost 20 at slot 1
    let mut n = *hs.heap.get(4).unwrap();
    assert_eq!(n.f_cost(), 50);
    n.g_cost = 5;
    assert!(hs.heap.sift_up(&n).is_ok());
    let expected: Vec<u128> = vec![5, 10, 30, 40, 20];
    assert_eq!(hs.heap.cost_order(), expected);
    let root = hs.heap.get(0).unwrap();
    assert_eq!(root.id, n.id);
    assert_eq!(root.heap_idx, Some(0));
    assert_eq!(hs.heap.slot(n.id), Some(0));
}

#[test]
fn decrease_key_between_siblings() {
    let mut hs = HeapScenario::new();
    for c in [10u64, 20, 30, 40, 50, 60] {
        assert!(hs.dummy_node(c, 0).is_ok());
    }
    // the node of cost 60 at slot 5 drops below its sibling's parent cost 30
    let mut n = *hs.heap.get(5).unwrap();
    n.g_cost = 15;
    assert!(hs.heap.sift_up(&n).is_ok());
    let expected: Vec<u128> = vec![10, 20, 15, 40, 50, 30];
    assert_eq!(hs.heap.cost_order(), expected);
    assert_eq!(hs.heap.get(2).unwrap().id, n.id);
    assert_eq!(hs.heap.slot(n.id), Some(2));
}

#[test]
fn pop_on_empty_fails() {
    let mut heap: BinaryHeapOpenSet<Vector2i> = BinaryHeapOpenSet::new();
    assert!(heap.is_empty());
    assert_eq!(heap.pop().unwrap_err(), PathingError::EmptySet);
}

#[test]
fn sift_up_faults() {
    let mut hs = HeapScenario::new();
    assert!(hs.dummy_node(10, 0).is_ok());
    assert!(hs.dummy_node(20, 0).is_ok());
    let closed = hs.node(1, 0);
    assert_eq!(hs.heap.sift_up(&closed).unwrap_err(), PathingError::ClosedNode);
    let mut stale = *hs.heap.get(1).unwrap();
    stale.heap_idx = Some(0);
    stale.g_cost = 1;
    assert_eq!(hs.heap.sift_up(&stale).unwrap_err(), PathingError::StaleSlot);
    let mut costlier = *hs.heap.get(1).unwrap();
    costlier.g_cost = 99;
    assert_eq!(hs.heap.sift_up(&costlier).unwrap_err(), PathingError::CostIncreased);
    let expected: Vec<u128> = vec![10, 20];
    assert_eq!(hs.heap.cost_order(), expected);
}

#[test]
fn insert_of_open_handle_fails() {
    let mut hs = HeapScenario::new();
    let n = hs.node(3, 4);
    assert!(hs.heap.insert(n).is_ok());
    assert_eq!(hs.heap.insert(n).unwrap_err(), PathingError::AlreadyOpen);
    assert_eq!(hs.heap.len(), 1);
    assert_eq!(hs.heap.get(0).unwrap().f_cost(), 7);
    assert!(hs.heap.get(1).is_none());
}

#[test]
fn clear_empties_heap() {
    let mut hs = HeapScenario::new();
    assert!(hs.dummy_node(3, 0).is_ok());
    assert!(hs.dummy_node(1, 0).is_ok());
    hs.heap.clear();
    assert!(hs.heap.is_empty());
    assert_eq!(hs.heap.slot(0), None);
    assert!(hs.heap.cost_order().is_empty());
}

#[test]
fn node_costs_and_state() {
    let n: Node<Vector2i> = Node::start_node(Vector2i::new(1, 2), &Vector2i::new(3, 3));
    assert_eq!(n.g_cost, 0);
    assert_eq!(n.f_cost(), 300);
    assert!(!n.is_open());
    assert_eq!(n.parent, None);
    let big = Node { g_cost: u64::MAX, h_cost: u64::MAX, ..n };
    assert_eq!(big.f_cost(), 2 * (u64::MAX as u128));
}

#[test]
fn decrease_key_to_the_root() {
    let mut hs = HeapScenario::new();
    for c in [1u64, 3, 2, 5] {
        assert!(hs.dummy_node(c, 0).is_ok());
    }
    let mut n = *hs.heap.get(3).unwrap();
    assert_eq!(n.heap_idx, Some(3));
    n.g_cost = 0;
    assert!(hs.heap.sift_up(&n).is_ok());
    let expected: Vec<u128> = vec![0, 1, 2, 3];
    assert_eq!(hs.heap.cost_order(), expected);
    for i in 0..4 {
        assert_eq!(hs.heap.get(i).unwrap().heap_idx, Some(i));
    }
}

#[test]
fn resifting_unchanged_node_keeps_order() {
    let mut hs = HeapScenario::new();
    for c in [4u64, 4, 6, 4] {
        assert!(hs.dummy_node(c, 0).is_ok());
    }
    let before = hs.heap.cost_order();
    let ids: Vec<usize> = (0..4).map(|i| hs.heap.get(i).unwrap().id).collect();
    let n = *hs.heap.get(3).unwrap();
    assert!(hs.heap.sift_up(&n).is_ok());
    assert_eq!(hs.heap.cost_order(), before);
    let after: Vec<usize> = (0..4).map(|i| hs.heap.get(i).unwrap().id).collect();
    assert_eq!(ids, after);
}

#[test]
fn popping_two_nodes_and_the_last() {
    let mut hs = HeapScenario::new();
    assert!(hs.dummy_node(2, 0).is_ok());
    assert!(hs.dummy_node(7, 0).is_ok());
    assert_eq!(hs.heap.pop().unwrap().f_cost(), 2);
    assert_eq!(hs.heap.get(0).unwrap().heap_idx, Some(0));
    assert_eq!(hs.heap.pop().unwrap().f_cost(), 7);
    assert!(hs.heap.is_empty());
    assert_eq!(hs.heap.len(), 0);
}
