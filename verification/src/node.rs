//! Peer identifiers in a 160-bit XOR metric space, and the peers themselves.

use rand::RngExt;
use vstd::prelude::*;

verus! {

broadcast use vstd::array::group_array_axioms;

/// Bytewise XOR of two identifier views; the XOR distance between them.
pub open spec fn xor_bytes(a: Seq<u8>, b: Seq<u8>) -> Seq<u8> {
    Seq::new(a.len(), |i: int| a[i] ^ b[i])
}

/// Bit `i` of an identifier view, counting from the most significant bit of
/// the first byte (bit 0) to the least significant bit of the last byte.
pub open spec fn bit_of(id: Seq<u8>, i: int) -> bool {
    (id[i / 8] >> ((7 - (i % 8)) as u8)) & 1 == 1
}

/// Big-endian value of a byte sequence.
pub open spec fn be_value(s: Seq<u8>) -> int
    decreases s.len(),
{
    if s.len() == 0 {
        0
    } else {
        be_value(s.drop_last()) * 256 + s.last()
    }
}

/// The truncated numeric magnitude of an identifier: the big-endian value of
/// its first 16 bytes. Range checks and bucket splitting compare identifiers
/// through this deliberate reduction of 160 bits to the top 128; the XOR
/// distance itself always uses all 160 bits.
pub open spec fn magnitude(id: Seq<u8>) -> int {
    be_value(id.take(16))
}

/// A 160-bit (20-byte) peer identifier: both a peer's identity and its
/// coordinate in the XOR metric space.
#[derive(Debug, Clone, Copy, PartialEq, Eq, PartialOrd, Ord, Hash)]
pub struct NodeId {
    bytes: [u8; 20],
}

impl View for NodeId {
    type V = Seq<u8>;

    closed spec fn view(&self) -> Seq<u8> {
        self.bytes@
    }
}

impl NodeId {
    pub fn new(bytes: [u8; 20]) -> (r: Self)
        ensures
            r@ == bytes@,
    {
        Self { bytes }
    }

    /// Succeeds exactly on slices of 20 bytes; an identifier is never
    /// partially constructed.
    pub fn from_slice(slice: &[u8]) -> (r: Option<Self>)
        ensures
            r is Some <==> slice@.len() == 20,
            r matches Some(id) ==> id@ == slice@,
    {
        if slice.len() == 20 {
            let mut bytes = [0u8; 20];
            let mut i: usize = 0;
            while i < 20
                invariant
                    i <= 20,
                    slice@.len() == 20,
                    bytes@.len() == 20,
                    forall|j: int| 0 <= j < i ==> bytes@[j] == slice@[j],
                decreases 20 - i,
            {
                bytes[i] = slice[i];
                i += 1;
            }
            proof {
                assert(bytes@ =~= slice@);
            }
            Some(Self { bytes })
        } else {
            None
        }
    }

    /// A fresh identifier drawn uniformly at random.
    pub fn random() -> NodeId {
        NodeId { bytes: random_bytes20() }
    }

    pub fn as_bytes(&self) -> (r: &[u8; 20])
        ensures
            r@ == self@,
    {
        &self.bytes
    }

    /// The XOR distance between two identifiers, itself an identifier-shaped
    /// value: smaller means closer.
    pub fn distance(&self, other: &NodeId) -> (r: NodeId)
        ensures
            r@ == xor_bytes(self@, other@),
    {
        let mut result = [0u8; 20];
        let mut i: usize = 0;
        while i < 20
            invariant
                i <= 20,
                result@.len() == 20,
                forall|j: int| 0 <= j < i ==> result@[j] == (self@[j] ^ other@[j]),
            decreases 20 - i,
        {
            result[i] = self.bytes[i] ^ other.bytes[i];
            i += 1;
        }
        proof {
            assert(result@ =~= xor_bytes(self@, other@));
        }
        NodeId { bytes: result }
    }

    /// Bit `i` of this identifier, most significant first.
    pub fn bit(&self, i: usize) -> (b: bool)
        requires
            i < 160,
        ensures
            b == bit_of(self@, i as int),
    {
        let byte: u8 = self.bytes[i / 8];
        let sh: u8 = (7 - (i % 8)) as u8;
        ((byte >> sh) & 1) == 1
    }

    /// The number of leading zero bits, in `[0, 160]`; 160 exactly on the
    /// all-zero identifier.
    pub fn leading_zeros(&self) -> (r: u32)
        ensures
            r <= 160,
            forall|j: int| 0 <= j < r ==> !bit_of(self@, j),
            r < 160 ==> bit_of(self@, r as int),
    {
        let mut i: usize = 0;
        while i < 160
            invariant
                i <= 160,
                forall|j: int| 0 <= j < i ==> !bit_of(self@, j),
            decreases 160 - i,
        {
            if self.bit(i) {
                return i as u32;
            }
            i += 1;
        }
        160
    }

    /// Bytewise equality of identifiers.
    pub fn equals(&self, other: &NodeId) -> (r: bool)
        ensures
            r == (self@ == other@),
    {
        let mut i: usize = 0;
        while i < 20
            invariant
                i <= 20,
                forall|j: int| 0 <= j < i ==> self@[j] == other@[j],
            decreases 20 - i,
        {
            if self.bytes[i] != other.bytes[i] {
                return false;
            }
            i += 1;
        }
        proof {
            assert(self@ =~= other@);
        }
        true
    }
}

/// Relies on rand::rng and rand::Rng::fill: fills the buffer with random
/// bytes. Nothing can be promised of the values drawn.
#[verifier::external_body]
fn random_bytes20() -> (r: [u8; 20]) {
    let mut b = [0u8; 20];
    rand::rng().fill(&mut b[..]);
    b
}

/// The XOR distance is symmetric.
pub proof fn lemma_distance_symmetric(a: Seq<u8>, b: Seq<u8>)
    requires
        a.len() == b.len(),
    ensures
        xor_bytes(a, b) == xor_bytes(b, a),
{
    assert forall|i: int| 0 <= i < a.len() implies xor_bytes(a, b)[i] == xor_bytes(b, a)[i] by {
        let x = a[i];
        let y = b[i];
        assert((x ^ y) == (y ^ x)) by (bit_vector);
    }
    assert(xor_bytes(a, b) =~= xor_bytes(b, a));
}

/// The XOR distance from an identifier to itself is the all-zero identifier.
pub proof fn lemma_distance_self_is_zero(a: Seq<u8>)
    ensures
        xor_bytes(a, a) == Seq::new(a.len(), |i: int| 0u8),
{
    assert forall|i: int| 0 <= i < a.len() implies xor_bytes(a, a)[i] == 0u8 by {
        let x = a[i];
        assert((x ^ x) == 0) by (bit_vector);
    }
    assert(xor_bytes(a, a) =~= Seq::new(a.len(), |i: int| 0u8));
}

/// The all-zero identifier has no set bit, so its leading-zero count is the
/// full width, 160.
pub proof fn lemma_all_zero_has_no_bits(id: Seq<u8>)
    requires
        id.len() == 20,
        forall|i: int| 0 <= i < 20 ==> id[i] == 0u8,
    ensures
        forall|j: int| 0 <= j < 160 ==> !bit_of(id, j),
{
    assert forall|j: int| 0 <= j < 160 implies !bit_of(id, j) by {
        let sh = (7 - (j % 8)) as u8;
        assert((0u8 >> sh) & 1 == 0) by (bit_vector);
    }
}

/// A network address: the host part of an endpoint, as plain values.
#[derive(Debug, Clone, Copy, PartialEq, Eq, Hash)]
pub enum IpAddress {
    /// A 32-bit address, as its numeric value.
    V4(u32),
    /// A 128-bit address, as its numeric value.
    V6(u128),
}

/// A known peer: an identifier, plus an optional network endpoint. A peer
/// with no endpoint is a placeholder and is never dialable. Identity is by
/// identifier only.
#[derive(Debug, Clone, Copy)]
pub struct Node {
    pub id: NodeId,
    pub ip: Option<IpAddress>,
    pub port: Option<u16>,
}

impl Node {
    pub fn new(node_id: NodeId) -> (r: Self)
        ensures
            r.id == node_id,
            r.ip is None,
            r.port is None,
    {
        Self { id: node_id, ip: None, port: None }
    }

    pub fn with_address(node_id: NodeId, ip: IpAddress, port: u16) -> (r: Self)
        ensures
            r.id == node_id,
            r.ip == Some(ip),
            r.port == Some(port),
    {
        Self { id: node_id, ip: Some(ip), port: Some(port) }
    }

    /// Two peer records sit at the same network endpoint iff both address
    /// fields match exactly.
    pub fn same_home_as(&self, other: &Node) -> (r: bool)
        ensures
            r == (self.ip == other.ip && self.port == other.port),
    {
        let ip_eq = match (self.ip, other.ip) {
            (None, None) => true,
            (Some(IpAddress::V4(x)), Some(IpAddress::V4(y))) => x == y,
            (Some(IpAddress::V6(x)), Some(IpAddress::V6(y))) => x == y,
            _ => false,
        };
        let port_eq = match (self.port, other.port) {
            (None, None) => true,
            (Some(p), Some(q)) => p == q,
            _ => false,
        };
        ip_eq && port_eq
    }

    pub fn distance_to(&self, other: &Node) -> (r: NodeId)
        ensures
            r@ == xor_bytes(self.id@, other.id@),
    {
        self.id.distance(&other.id)
    }

    pub fn has_address(&self) -> (r: bool)
        ensures
            r == (self.ip is Some && self.port is Some),
    {
        self.ip.is_some() && self.port.is_some()
    }

    pub fn as_tuple(&self) -> (r: (NodeId, Option<IpAddress>, Option<u16>))
        ensures
            r == (self.id, self.ip, self.port),
    {
        (self.id, self.ip, self.port)
    }
}

/// The truncated 128-bit magnitude of an identifier: the big-endian value of
/// its first 16 bytes. Used only for range comparisons during bucket
/// membership tests and splitting; the low 32 bits take no part in them.
pub fn node_id_to_u128(node_id: &NodeId) -> (r: u128)
    ensures
        r == magnitude(node_id@),
{
    let mut acc: u128 = 0;
    let mut i: usize = 0;
    while i < 16
        invariant
            i <= 16,
            node_id@.len() == 20,
            acc == be_value(node_id@.take(i as int)),
            acc < pow256(i as nat),
        decreases 16 - i,
    {
        proof {
            lemma_be_step_bound(acc as int, i as nat);
            lemma_pow256_monotonic((i + 1) as nat, 16);
            assert(pow256(16) == 0x1_00000000_00000000_00000000_00000000) by {
                reveal_with_fuel(pow256, 17);
            }
            assert(node_id@.take(i as int + 1).drop_last() =~= node_id@.take(i as int));
            assert(node_id@.take(i as int + 1).last() == node_id@[i as int]);
        }
        acc = acc * 256 + (node_id.bytes[i] as u128);
        i += 1;
    }
    acc
}

/// 256 to the power `n`.
pub open spec fn pow256(n: nat) -> int
    decreases n,
{
    if n == 0 {
        1
    } else {
        256 * pow256((n - 1) as nat)
    }
}

proof fn lemma_pow256_pos(n: nat)
    ensures
        pow256(n) >= 1,
    decreases n,
{
    if n > 0 {
        lemma_pow256_pos((n - 1) as nat);
    }
}

proof fn lemma_pow256_monotonic(i: nat, j: nat)
    requires
        i <= j,
    ensures
        1 <= pow256(i) <= pow256(j),
    decreases j,
{
    lemma_pow256_pos(i);
    if i < j {
        lemma_pow256_monotonic(i, (j - 1) as nat);
    }
}

proof fn lemma_be_step_bound(acc: int, i: nat)
    requires
        0 <= acc,
        acc < pow256(i),
    ensures
        acc * 256 + 255 < pow256(i + 1),
{
    assert(acc * 256 <= (pow256(i) - 1) * 256) by (nonlinear_arith)
        requires
            acc < pow256(i),
            0 <= acc,
    ;
    assert(pow256(i + 1) == 256 * pow256(i));
}

} // verus!
