use kadroute::node::{node_id_to_u128, IpAddress, Node, NodeId};

#[test]
fn test_distance_is_symmetric() {
    let a = NodeId::random();
    let b = NodeId::random();
    assert_eq!(a.distance(&b), b.distance(&a));
}

#[test]
fn test_distance_to_self_is_zero() {
    let a = NodeId::random();
    assert_eq!(a.distance(&a), NodeId::new([0u8; 20]));
}

#[test]
fn test_distance_exact_value() {
    let mut x = [0u8; 20];
    x[0] = 0b1010_0000;
    x[19] = 0x0f;
    let mut y = [0u8; 20];
    y[0] = 0b0110_0000;
    y[19] = 0xf0;
    let mut expected = [0u8; 20];
    expected[0] = 0b1100_0000;
    expected[19] = 0xff;
    assert_eq!(NodeId::new(x).distance(&NodeId::new(y)), NodeId::new(expected));
}

#[test]
fn test_leading_zeros_of_zero_identifier() {
    let zero = NodeId::new([0u8; 20]);
    assert_eq!(zero.leading_zeros(), 160);
}

#[test]
fn test_leading_zeros_counts_bits() {
    let mut bytes = [0u8; 20];
    bytes[2] = 0x10;
    assert_eq!(NodeId::new(bytes).leading_zeros(), 19);
}

#[test]
fn test_from_slice_accepts_only_twenty_bytes() {
    assert!(NodeId::from_slice(&[0u8; 20]).is_some());
    assert!(NodeId::from_slice(&[0u8; 19]).is_none());
    assert!(NodeId::from_slice(&[0u8; 21]).is_none());
    assert!(NodeId::from_slice(&[]).is_none());

    let mut bytes = [0u8; 20];
    bytes[3] = 42;
    let id = NodeId::from_slice(&bytes).unwrap();
    assert_eq!(*id.as_bytes(), bytes);
}

#[test]
fn test_node_id_to_u128_uses_first_sixteen_bytes() {
    let mut bytes = [0u8; 20];
    bytes[15] = 1;
    assert_eq!(node_id_to_u128(&NodeId::new(bytes)), 1);

    let mut high = [0u8; 20];
    high[0] = 1;
    assert_eq!(node_id_to_u128(&NodeId::new(high)), 1u128 << 120);

    // The last four bytes take no part in the truncated magnitude.
    let mut tail = [0u8; 20];
    tail[16] = 0xff;
    tail[19] = 0xff;
    assert_eq!(node_id_to_u128(&NodeId::new(tail)), 0);
}

#[test]
fn test_node_addresses() {
    let id = NodeId::random();
    let bare = Node::new(id);
    assert!(!bare.has_address());

    let homed = Node::with_address(id, IpAddress::V4(0x7f000001), 8080);
    assert!(homed.has_address());
    assert_eq!(homed.as_tuple(), (id, Some(IpAddress::V4(0x7f000001)), Some(8080)));

    let same = Node::with_address(NodeId::random(), IpAddress::V4(0x7f000001), 8080);
    assert!(homed.same_home_as(&same));
    let other_port = Node::with_address(id, IpAddress::V4(0x7f000001), 8081);
    assert!(!homed.same_home_as(&other_port));
    let other_ip = Node::with_address(id, IpAddress::V6(1), 8080);
    assert!(!homed.same_home_as(&other_ip));
    assert!(!homed.same_home_as(&bare));
}

#[test]
fn test_distance_to_matches_identifier_distance() {
    let a = Node::new(NodeId::random());
    let b = Node::new(NodeId::random());
    assert_eq!(a.distance_to(&b), a.id.distance(&b.id));
}

#[test]
fn test_random_identifiers_are_twenty_bytes() {
    let a = NodeId::random();
    assert_eq!(a.as_bytes().len(), 20);
}
