use kadroute::node::{Node, NodeId};
use kadroute::node_heap::NodeHeap;

fn id_with_last_byte(b: u8) -> NodeId {
    let mut bytes = [0u8; 20];
    bytes[19] = b;
    NodeId::new(bytes)
}

fn zero_node() -> Node {
    Node::new(NodeId::new([0u8; 20]))
}

#[test]
fn test_node_heap_creation() {
    let reference_node = Node::new(NodeId::random());
    let heap = NodeHeap::new(reference_node.clone(), 20);

    assert_eq!(heap.len(), 0);
    assert!(heap.is_empty());
    assert_eq!(heap.reference_node().id, reference_node.id);
}

#[test]
fn test_push_and_contains() {
    let reference_node = Node::new(NodeId::random());
    let mut heap = NodeHeap::new(reference_node, 20);

    let test_node = Node::new(NodeId::random());
    heap.push_one(test_node.clone());

    assert_eq!(heap.len(), 1);
    assert!(heap.contains(&test_node));
}

#[test]
fn test_mark_contacted() {
    let reference_node = Node::new(NodeId::random());
    let mut heap = NodeHeap::new(reference_node, 20);

    let test_node = Node::new(NodeId::random());
    heap.push_one(test_node.clone());
    heap.mark_contacted(&test_node);

    assert!(heap.have_contacted_all());
    assert!(heap.get_uncontacted().is_empty());
}

#[test]
fn test_maxsize_limiting() {
    let reference_node = Node::new(NodeId::random());
    let mut heap = NodeHeap::new(reference_node, 2);

    for _ in 0..3 {
        heap.push_one(Node::new(NodeId::random()));
    }

    assert_eq!(heap.len(), 2);
    assert_eq!(heap.actual_size(), 3);
}

#[test]
fn test_pop_closest_in_nondecreasing_distance_order() {
    // With an all-zero reference, the XOR distance to a peer is the peer's
    // own identifier, so pops come back in identifier order.
    let mut heap = NodeHeap::new(zero_node(), 20);
    heap.push_one(Node::new(id_with_last_byte(2)));
    heap.push_one(Node::new(id_with_last_byte(1)));
    heap.push_one(Node::new(id_with_last_byte(3)));

    let first = heap.pop_left().unwrap();
    let second = heap.pop_left().unwrap();
    let third = heap.pop_left().unwrap();
    assert_eq!(first.id, id_with_last_byte(1));
    assert_eq!(second.id, id_with_last_byte(2));
    assert_eq!(third.id, id_with_last_byte(3));
    assert!(heap.pop_left().is_none());
}

#[test]
fn test_pop_nondecreasing_with_random_peers() {
    let mut heap = NodeHeap::new(Node::new(NodeId::random()), 20);
    let reference = heap.reference_node().clone();
    for _ in 0..8 {
        heap.push_one(Node::new(NodeId::random()));
    }
    let mut last: Option<[u8; 20]> = None;
    while let Some(peer) = heap.pop_left() {
        let d = *reference.distance_to(&peer).as_bytes();
        if let Some(prev) = last {
            assert!(prev <= d);
        }
        last = Some(d);
    }
}

#[test]
fn test_contacted_peer_still_retrievable() {
    let mut heap = NodeHeap::new(zero_node(), 20);
    let p = Node::new(id_with_last_byte(7));
    heap.push_one(p.clone());
    heap.mark_contacted(&p);
    assert!(heap.have_contacted_all());
    assert!(heap.get_uncontacted().is_empty());
    assert!(heap.contains(&p));
    assert_eq!(heap.get_node(&p.id).unwrap().id, p.id);
}

#[test]
fn test_repush_does_not_change_size() {
    let mut heap = NodeHeap::new(zero_node(), 20);
    let p = Node::new(id_with_last_byte(9));
    heap.push_one(p.clone());
    assert_eq!(heap.actual_size(), 1);
    heap.push_one(p.clone());
    assert_eq!(heap.actual_size(), 1);
}

#[test]
fn test_remove_resurfaces_hidden_peers() {
    let mut heap = NodeHeap::new(zero_node(), 2);
    let a = Node::new(id_with_last_byte(1));
    let b = Node::new(id_with_last_byte(2));
    let c = Node::new(id_with_last_byte(3));
    heap.push(vec![a.clone(), b.clone(), c.clone()]);
    assert_eq!(heap.len(), 2);
    assert_eq!(heap.actual_size(), 3);

    heap.remove(vec![a.id]);
    // The nearer peer left, but the previously hidden one becomes visible,
    // so the visible size does not change.
    assert_eq!(heap.len(), 2);
    assert_eq!(heap.actual_size(), 2);
    assert!(!heap.contains(&a));
    let ids = heap.get_ids();
    assert_eq!(ids, vec![b.id, c.id]);
}

#[test]
fn test_remove_empty_list_is_noop() {
    let mut heap = NodeHeap::new(zero_node(), 2);
    heap.push_one(Node::new(id_with_last_byte(1)));
    heap.remove(Vec::new());
    assert_eq!(heap.actual_size(), 1);
}

#[test]
fn test_visible_view_is_sorted_and_capped() {
    let mut heap = NodeHeap::new(zero_node(), 2);
    heap.push_one(Node::new(id_with_last_byte(5)));
    heap.push_one(Node::new(id_with_last_byte(4)));
    heap.push_one(Node::new(id_with_last_byte(6)));
    let visible = heap.to_vec();
    assert_eq!(visible.len(), 2);
    assert_eq!(visible[0].id, id_with_last_byte(4));
    assert_eq!(visible[1].id, id_with_last_byte(5));
    let same = heap.iter();
    assert_eq!(same.len(), 2);
    assert_eq!(same[0].id, visible[0].id);
}

#[test]
fn test_clear() {
    let mut heap = NodeHeap::new(zero_node(), 4);
    let p = Node::new(id_with_last_byte(1));
    heap.push_one(p.clone());
    heap.mark_contacted(&p);
    heap.clear();
    assert_eq!(heap.actual_size(), 0);
    assert!(heap.is_empty());
    heap.push_one(p.clone());
    assert!(!heap.have_contacted_all());
}

#[test]
fn test_get_node_absent() {
    let heap = NodeHeap::new(zero_node(), 4);
    assert!(heap.get_node(&id_with_last_byte(1)).is_none());
}
