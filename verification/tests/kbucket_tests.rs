use kadroute::kbucket::KBucket;
use kadroute::node::{Node, NodeId};

fn id_with_last_byte(b: u8) -> NodeId {
    let mut bytes = [0u8; 20];
    bytes[19] = b;
    NodeId::new(bytes)
}

#[test]
fn test_kbucket_creation() {
    let bucket = KBucket::new(0, 100, 20, 5);
    assert_eq!(bucket.len(), 0);
    assert!(bucket.is_empty());
    assert!(!bucket.is_full());
    assert_eq!(bucket.range(), (0, 100));
}

#[test]
fn test_add_node() {
    let mut bucket = KBucket::new(0, u128::MAX, 2, 5);
    let node1 = Node::new(NodeId::random());
    let node2 = Node::new(NodeId::random());
    let node3 = Node::new(NodeId::random());

    assert!(bucket.add_node(node1.clone()));
    assert!(bucket.add_node(node2.clone()));
    assert_eq!(bucket.len(), 2);
    assert!(bucket.is_full());

    assert!(!bucket.add_node(node3.clone()));
    assert_eq!(bucket.len(), 2);
    assert_eq!(bucket.replacement_count(), 1);
}

#[test]
fn test_remove_node() {
    let mut bucket = KBucket::new(0, u128::MAX, 2, 5);
    let node1 = Node::new(NodeId::random());
    let node2 = Node::new(NodeId::random());
    let node3 = Node::new(NodeId::random());

    bucket.add_node(node1.clone());
    bucket.add_node(node2.clone());
    bucket.add_node(node3.clone());

    bucket.remove_node(&node1);
    assert_eq!(bucket.len(), 2);
    assert_eq!(bucket.replacement_count(), 0);
    assert!(bucket.get(&node3.id).is_some());
}

#[test]
fn test_split() {
    let mut bucket = KBucket::new(0, 200, 20, 5);

    let node1 = Node::new(NodeId::from_slice(&[0u8; 20]).unwrap());
    bucket.add_node(node1);

    let (left, right) = bucket.split();
    assert_eq!(left.range().1, 100);
    assert_eq!(right.range().0, 101);
}

#[test]
fn test_split_places_zero_peer_left_only() {
    let mut bucket = KBucket::new(0, 200, 20, 5);
    let node1 = Node::new(NodeId::from_slice(&[0u8; 20]).unwrap());
    bucket.add_node(node1.clone());

    let (left, right) = bucket.split();
    assert_eq!(left.range(), (0, 100));
    assert_eq!(right.range(), (101, 200));
    assert_eq!(left.len(), 1);
    assert_eq!(right.len(), 0);
    assert!(left.get(&node1.id).is_some());
    assert!(right.get(&node1.id).is_none());
}

#[test]
fn test_capacity_overflow_counts() {
    // Three distinct peers into a bucket with capacity 2: the first two
    // succeed, the third is kept as a replacement candidate instead.
    let mut bucket = KBucket::new(0, u128::MAX, 2, 1);
    let a = Node::new(id_with_last_byte(1));
    let b = Node::new(id_with_last_byte(2));
    let c = Node::new(id_with_last_byte(3));
    assert!(bucket.add_node(a));
    assert!(bucket.add_node(b));
    assert!(!bucket.add_node(c));
    assert_eq!(bucket.len(), 2);
    assert_eq!(bucket.replacement_count(), 1);
}

#[test]
fn test_reinsert_active_is_idempotent() {
    let mut bucket = KBucket::new(0, u128::MAX, 2, 5);
    let a = Node::new(id_with_last_byte(1));
    let b = Node::new(id_with_last_byte(2));
    assert!(bucket.add_node(a.clone()));
    assert!(bucket.add_node(b.clone()));
    assert!(bucket.add_node(a.clone()));
    assert_eq!(bucket.len(), 2);
    assert_eq!(bucket.replacement_count(), 0);
}

#[test]
fn test_reinsert_moves_to_most_recent() {
    let mut bucket = KBucket::new(0, u128::MAX, 5, 5);
    let a = Node::new(id_with_last_byte(1));
    let b = Node::new(id_with_last_byte(2));
    bucket.add_node(a.clone());
    bucket.add_node(b.clone());
    assert_eq!(bucket.head().unwrap().id, a.id);
    bucket.add_node(a.clone());
    let order: Vec<NodeId> = bucket.get_nodes().iter().map(|n| n.id).collect();
    assert_eq!(order, vec![b.id, a.id]);
    assert_eq!(bucket.head().unwrap().id, b.id);
}

#[test]
fn test_replacement_cache_evicts_oldest() {
    // Capacity 1 with replacement bound 1: the replacement cache keeps only
    // the newest overflow peer.
    let mut bucket = KBucket::new(0, u128::MAX, 1, 1);
    let a = Node::new(id_with_last_byte(1));
    let b = Node::new(id_with_last_byte(2));
    let c = Node::new(id_with_last_byte(3));
    assert!(bucket.add_node(a));
    assert!(!bucket.add_node(b));
    assert!(!bucket.add_node(c.clone()));
    assert_eq!(bucket.replacement_count(), 1);
    assert_eq!(bucket.get_replacement_nodes()[0].id, c.id);
}

#[test]
fn test_removal_promotes_oldest_replacement() {
    let mut bucket = KBucket::new(0, u128::MAX, 2, 5);
    let a = Node::new(id_with_last_byte(1));
    let b = Node::new(id_with_last_byte(2));
    let c = Node::new(id_with_last_byte(3));
    let d = Node::new(id_with_last_byte(4));
    bucket.add_node(a.clone());
    bucket.add_node(b.clone());
    bucket.add_node(c.clone());
    bucket.add_node(d.clone());
    assert_eq!(bucket.replacement_count(), 2);
    bucket.remove_node(&a);
    // c was the oldest replacement, so it is promoted.
    assert_eq!(bucket.len(), 2);
    assert_eq!(bucket.replacement_count(), 1);
    assert!(bucket.get(&c.id).is_some());
    assert!(bucket.get(&d.id).is_none());
}

#[test]
fn test_remove_absent_peer_is_noop() {
    let mut bucket = KBucket::new(0, u128::MAX, 2, 5);
    let a = Node::new(id_with_last_byte(1));
    let b = Node::new(id_with_last_byte(2));
    bucket.add_node(a.clone());
    bucket.remove_node(&b);
    assert_eq!(bucket.len(), 1);
    assert_eq!(bucket.replacement_count(), 0);
}

#[test]
fn test_has_in_range() {
    let bucket = KBucket::new(0, 100, 20, 5);
    let zero = Node::new(NodeId::from_slice(&[0u8; 20]).unwrap());
    assert!(bucket.has_in_range(&zero));
    let mut big = [0u8; 20];
    big[0] = 0xff;
    let far = Node::new(NodeId::new(big));
    assert!(!bucket.has_in_range(&far));
}

#[test]
fn test_is_new_node() {
    let mut bucket = KBucket::new(0, u128::MAX, 2, 5);
    let a = Node::new(id_with_last_byte(1));
    assert!(bucket.is_new_node(&a));
    bucket.add_node(a.clone());
    assert!(!bucket.is_new_node(&a));
}

#[test]
fn test_depth() {
    let mut bucket = KBucket::new(0, u128::MAX, 5, 5);
    assert_eq!(bucket.depth(), 0);

    let mut b1 = [0u8; 20];
    b1[0] = 0x80;
    bucket.add_node(Node::new(NodeId::new(b1)));
    assert_eq!(bucket.depth(), 160);

    let mut b2 = [0u8; 20];
    b2[0] = 0x81;
    bucket.add_node(Node::new(NodeId::new(b2)));
    // 0x80 and 0x81 share their first seven bits.
    assert_eq!(bucket.depth(), 7);
}
