//! A bounded, distance-ordered working set of lookup candidates: peers kept
//! in ascending XOR distance to a reference identifier, with a capped
//! visible view and contacted-state tracking.

use vstd::prelude::*;

use crate::node::{xor_bytes, Node, NodeId};

verus! {

broadcast use Seq::lemma_filter_push, vstd::seq_lib::group_seq_properties;

/// Lexicographic order on equal-length byte views: the numeric order of the
/// big-endian values they spell, so smaller means closer when applied to
/// XOR distances.
pub open spec fn lex_le(a: Seq<u8>, b: Seq<u8>) -> bool
    decreases a.len(),
{
    if a.len() == 0 || b.len() == 0 {
        true
    } else if a[0] < b[0] {
        true
    } else if a[0] > b[0] {
        false
    } else {
        lex_le(a.drop_first(), b.drop_first())
    }
}

/// Lexicographic order is total on equal-length views.
pub proof fn lemma_lex_le_total(a: Seq<u8>, b: Seq<u8>)
    ensures
        lex_le(a, b) || lex_le(b, a),
    decreases a.len(),
{
    if a.len() != 0 && b.len() != 0 && a[0] == b[0] {
        lemma_lex_le_total(a.drop_first(), b.drop_first());
    }
}

/// Lexicographic order is transitive on equal-length views.
pub proof fn lemma_lex_le_trans(a: Seq<u8>, b: Seq<u8>, c: Seq<u8>)
    requires
        a.len() == b.len() && b.len() == c.len(),
        lex_le(a, b),
        lex_le(b, c),
    ensures
        lex_le(a, c),
    decreases a.len(),
{
    if a.len() != 0 {
        if a[0] == b[0] && b[0] == c[0] {
            lemma_lex_le_trans(a.drop_first(), b.drop_first(), c.drop_first());
        }
    }
}

/// Whether some peer of `s` has identifier view `id`.
pub open spec fn has_id(s: Seq<Node>, id: Seq<u8>) -> bool {
    exists|i: int| 0 <= i < s.len() && s[i].id@ == id
}

/// Whether some identifier of `ids` has view `id`.
pub open spec fn id_in_list(ids: Seq<NodeId>, id: Seq<u8>) -> bool {
    exists|i: int| 0 <= i < ids.len() && ids[i]@ == id
}

/// The position at which a peer at distance `d` from the reference joins the
/// ascending-distance sequence `s`: after every peer at distance at most `d`.
pub open spec fn node_ipos(s: Seq<Node>, refid: Seq<u8>, d: Seq<u8>) -> int
    decreases s.len(),
{
    if s.len() == 0 {
        0
    } else if lex_le(xor_bytes(refid, s[0].id@), d) {
        1 + node_ipos(s.drop_first(), refid, d)
    } else {
        0
    }
}

/// The contents after pushing each peer of `s` in turn: a peer whose
/// identifier is already present is ignored; any other is inserted at its
/// ascending-distance position.
pub open spec fn spec_push_all(c: Seq<Node>, refid: Seq<u8>, s: Seq<Node>) -> Seq<Node>
    decreases s.len(),
{
    if s.len() == 0 {
        c
    } else {
        let n = s[0];
        let c2 = if has_id(c, n.id@) {
            c
        } else {
            c.insert(node_ipos(c, refid, xor_bytes(refid, n.id@)), n)
        };
        spec_push_all(c2, refid, s.drop_first())
    }
}

/// A candidate peer together with its cached distance to the reference.
#[derive(Debug, Clone, Copy)]
struct HeapEntry {
    distance: NodeId,
    node: Node,
}

/// Entries ascend by distance.
spec fn entries_sorted(s: Seq<HeapEntry>) -> bool {
    forall|i: int, j: int|
        0 <= i <= j < s.len() ==> lex_le(#[trigger] s[i].distance@, #[trigger] s[j].distance@)
}

/// No two entries share an identifier.
spec fn entries_distinct(s: Seq<HeapEntry>) -> bool {
    forall|i: int, j: int| 0 <= i < j < s.len() ==> s[i].node.id@ != s[j].node.id@
}

/// Every cached distance is the XOR distance from `refid` to its peer.
spec fn entries_dist_ok(s: Seq<HeapEntry>, refid: Seq<u8>) -> bool {
    forall|i: int|
        0 <= i < s.len() ==> (#[trigger] s[i].distance@) == xor_bytes(refid, s[i].node.id@)
}

/// A working set of candidate peers for one lookup, ordered by XOR distance
/// to the reference peer. The internal collection is unbounded; only the
/// `max_size` closest entries are visible through the bounded accessors.
pub struct NodeHeap {
    node: Node,
    heap: Vec<HeapEntry>,
    contacted: Vec<NodeId>,
    max_size: usize,
}

impl NodeHeap {
    /// The lookup's reference peer.
    pub closed spec fn ref_node(self) -> Node {
        self.node
    }

    /// Every held peer, in ascending distance to the reference.
    pub closed spec fn contents(self) -> Seq<Node> {
        self.heap@.map_values(|e: HeapEntry| e.node)
    }

    /// The identifiers marked as contacted.
    pub closed spec fn contacted_ids(self) -> Set<Seq<u8>> {
        Set::new(|x: Seq<u8>| id_in_list(self.contacted@, x))
    }

    /// The visible-size bound.
    pub closed spec fn bound(self) -> int {
        self.max_size as int
    }

    /// The visible length: the true count, capped by the bound.
    pub open spec fn visible_len(self) -> int {
        if self.contents().len() < self.bound() {
            self.contents().len() as int
        } else {
            self.bound()
        }
    }

    /// The visible peers: the `bound` closest, in ascending distance.
    pub open spec fn visible(self) -> Seq<Node> {
        self.contents().take(self.visible_len())
    }

    /// The heap's invariant: entries ascend by distance to the reference,
    /// cache their true distances, and hold each identifier at most once, as
    /// does the contacted list.
    pub closed spec fn wf(self) -> bool {
        &&& entries_sorted(self.heap@)
        &&& entries_distinct(self.heap@)
        &&& entries_dist_ok(self.heap@, self.node.id@)
        &&& (forall|i: int, j: int|
            0 <= i < j < self.contacted@.len() ==> self.contacted@[i]@ != self.contacted@[j]@)
    }

    pub fn new(node: Node, max_size: usize) -> (r: NodeHeap)
        ensures
            r.wf(),
            r.ref_node() == node,
            r.contents() == Seq::<Node>::empty(),
            r.contacted_ids() == Set::<Seq<u8>>::empty(),
            r.bound() == max_size,
    {
        let r = NodeHeap { node, heap: Vec::new(), contacted: Vec::new(), max_size };
        proof {
            assert(r.contents() =~= Seq::<Node>::empty());
            assert(r.contacted_ids() =~= Set::<Seq<u8>>::empty());
        }
        r
    }

    /// The peer stored under the identifier, if any; the whole collection is
    /// searched, not only the visible part.
    pub fn get_node(&self, node_id: &NodeId) -> (r: Option<Node>)
        ensures
            r is Some <==> has_id(self.contents(), node_id@),
            r matches Some(v) ==> exists|i: int|
                0 <= i < self.contents().len() && self.contents()[i] == v && v.id@ == node_id@,
    {
        let mut i: usize = 0;
        while i < self.heap.len()
            invariant
                i <= self.heap@.len(),
                forall|j: int| 0 <= j < i ==> self.heap@[j].node.id@ != node_id@,
            decreases self.heap@.len() - i,
        {
            let e = self.heap[i];
            if e.node.id.equals(node_id) {
                proof {
                    assert(self.contents()[i as int] == e.node);
                }
                return Some(e.node);
            }
            i += 1;
        }
        proof {
            if has_id(self.contents(), node_id@) {
                let t = choose|t: int|
                    0 <= t < self.contents().len() && self.contents()[t].id@ == node_id@;
                assert(self.heap@[t].node.id@ == node_id@);
            }
        }
        None
    }

    /// Whether every visible peer has been marked contacted.
    pub fn have_contacted_all(&self) -> (r: bool)
        requires
            self.wf(),
        ensures
            r == (self.visible().filter(
                |n: Node| !self.contacted_ids().contains(n.id@),
            ).len() == 0),
    {
        let un = self.get_uncontacted();
        un.len() == 0
    }

    /// The identifiers of the visible peers, in ascending distance.
    pub fn get_ids(&self) -> (r: Vec<NodeId>)
        ensures
            r@ == self.visible().map_values(|n: Node| n.id),
    {
        let v = self.to_vec();
        let mut r: Vec<NodeId> = Vec::new();
        let mut i: usize = 0;
        while i < v.len()
            invariant
                i <= v@.len(),
                v@ == self.visible(),
                r@.len() == i,
                forall|j: int| 0 <= j < i ==> r@[j] == v@[j].id,
            decreases v@.len() - i,
        {
            r.push(v[i].id);
            i += 1;
        }
        proof {
            assert(r@ =~= self.visible().map_values(|n: Node| n.id));
        }
        r
    }

    /// Record the peer's identifier as contacted; the peer itself stays in
    /// the collection.
    pub fn mark_contacted(&mut self, node: &Node)
        requires
            old(self).wf(),
        ensures
            final(self).wf(),
            final(self).contents() == old(self).contents(),
            final(self).ref_node() == old(self).ref_node(),
            final(self).bound() == old(self).bound(),
            final(self).contacted_ids() == old(self).contacted_ids().insert(node.id@),
    {
        let present = id_in_vec(&self.contacted, &node.id);
        if !present {
            self.contacted.push(node.id);
        }
        proof {
            let oldc = old(self).contacted@;
            let newc = self.contacted@;
            assert forall|x: Seq<u8>| id_in_list(newc, x) implies id_in_list(oldc, x) || x
                == node.id@ by {
                let t = choose|t: int| 0 <= t < newc.len() && newc[t]@ == x;
                if t < oldc.len() {
                    assert(oldc[t]@ == x);
                }
            }
            assert forall|x: Seq<u8>| id_in_list(oldc, x) implies id_in_list(newc, x) by {
                let t = choose|t: int| 0 <= t < oldc.len() && oldc[t]@ == x;
                assert(newc[t]@ == x);
            }
            if !present {
                assert(newc[newc.len() - 1]@ == node.id@);
            }
            assert(self.contacted_ids() =~= old(self).contacted_ids().insert(node.id@));
        }
    }

    /// Remove and return the closest peer, or nothing if the collection is
    /// empty.
    pub fn pop_left(&mut self) -> (r: Option<Node>)
        requires
            old(self).wf(),
        ensures
            final(self).wf(),
            final(self).ref_node() == old(self).ref_node(),
            final(self).bound() == old(self).bound(),
            final(self).contacted_ids() == old(self).contacted_ids(),
            old(self).contents().len() == 0 ==> r is None && final(self).contents() == old(self).contents(),
            old(self).contents().len() > 0 ==> r == Some(old(self).contents()[0]) && final(self).contents() == old(self).contents().subrange(
                1,
                old(self).contents().len() as int,
            ),
    {
        if self.heap.len() == 0 {
            None
        } else {
            let e = self.heap.remove(0);
            proof {
                assert(self.heap@ =~= old(self).heap@.subrange(1, old(self).heap@.len() as int));
                assert(self.contents() =~= old(self).contents().subrange(
                    1,
                    old(self).contents().len() as int,
                ));
            }
            Some(e.node)
        }
    }

    /// Push each peer of `nodes` in turn, as `spec_push_all` states: a peer
    /// already present (by identifier) is ignored, and any other is inserted
    /// at its ascending-distance position.
    pub fn push(&mut self, nodes: Vec<Node>)
        requires
            old(self).wf(),
        ensures
            final(self).wf(),
            final(self).ref_node() == old(self).ref_node(),
            final(self).bound() == old(self).bound(),
            final(self).contacted_ids() == old(self).contacted_ids(),
            final(self).contents() == spec_push_all(
                old(self).contents(),
                old(self).ref_node().id@,
                nodes@,
            ),
    {
        let ghost c0 = self.contents();
        let ghost refid = self.node.id@;
        let ghost s = nodes@;
        proof {
            assert(s.skip(0) =~= s);
        }
        let mut i: usize = 0;
        while i < nodes.len()
            invariant
                i <= nodes@.len(),
                nodes@ == s,
                self.wf(),
                self.ref_node() == old(self).ref_node(),
                self.bound() == old(self).bound(),
                self.contacted_ids() == old(self).contacted_ids(),
                spec_push_all(self.contents(), refid, s.skip(i as int)) == spec_push_all(
                    c0,
                    refid,
                    s,
                ),
                refid == old(self).ref_node().id@,
                c0 == old(self).contents(),
            decreases nodes@.len() - i,
        {
            let ghost rest = s.skip(i as int);
            proof {
                assert(rest[0] == s[i as int]);
                assert(rest.drop_first() =~= s.skip(i as int + 1));
            }
            self.push_one(nodes[i]);
            i += 1;
        }
        proof {
            assert(s.skip(s.len() as int) =~= Seq::<Node>::empty());
        }
    }

    /// Push one peer: ignored if its identifier is already present, and
    /// otherwise inserted at its ascending-distance position.
    pub fn push_one(&mut self, node: Node)
        requires
            old(self).wf(),
        ensures
            final(self).wf(),
            final(self).ref_node() == old(self).ref_node(),
            final(self).bound() == old(self).bound(),
            final(self).contacted_ids() == old(self).contacted_ids(),
            has_id(old(self).contents(), node.id@) ==> final(self).contents() == old(self).contents(),
            !has_id(old(self).contents(), node.id@) ==> final(self).contents() == old(self).contents().insert(
                node_ipos(
                    old(self).contents(),
                    old(self).ref_node().id@,
                    xor_bytes(old(self).ref_node().id@, node.id@),
                ),
                node,
            ),
    {
        if self.contains(&node) {
            return ;
        }
        let d = self.node.distance_to(&node);
        let ghost c0 = self.contents();
        let ghost refid = self.node.id@;
        let mut i: usize = 0;
        while i < self.heap.len() && dist_le(&self.heap[i].distance, &d)
            invariant
                i <= self.heap@.len(),
                self == old(self),
                d@ == xor_bytes(old(self).node.id@, node.id@),
                forall|j: int| 0 <= j < i ==> lex_le(#[trigger] self.heap@[j].distance@, d@),
            decreases self.heap@.len() - i,
        {
            i += 1;
        }
        proof {
            assert forall|j: int| 0 <= j < i implies lex_le(
                xor_bytes(refid, c0[j].id@),
                d@,
            ) by {
                assert(self.heap@[j].distance@ == xor_bytes(refid, self.heap@[j].node.id@));
            }
            assert(i < c0.len() ==> !lex_le(xor_bytes(refid, c0[i as int].id@), d@)) by {
                if i < self.heap@.len() {
                    assert(self.heap@[i as int].distance@ == xor_bytes(
                        refid,
                        self.heap@[i as int].node.id@,
                    ));
                }
            }
            lemma_node_ipos_char(c0, refid, d@, i as int);
        }
        let e = HeapEntry { distance: d, node };
        let ghost h0 = self.heap@;
        self.heap.insert(i, e);
        proof {
            h0.insert_ensures(i as int, e);
            assert(self.contents() =~= c0.insert(i as int, node));
            let h1 = self.heap@;
            let ii = i as int;
            assert forall|p: int, q: int|
                0 <= p <= q < h1.len() implies lex_le(h1[p].distance@, h1[q].distance@) by {
                let pd = if p < ii {
                    h0[p].distance@
                } else if p == ii {
                    d@
                } else {
                    h0[p - 1].distance@
                };
                let qd = if q < ii {
                    h0[q].distance@
                } else if q == ii {
                    d@
                } else {
                    h0[q - 1].distance@
                };
                assert(h1[p].distance@ == pd && h1[q].distance@ == qd);
                if p == q {
                    lemma_lex_le_total(pd, pd);
                } else if q < ii {
                    assert(lex_le(h0[p].distance@, h0[q].distance@));
                } else if q == ii {
                    assert(lex_le(h0[p].distance@, d@));
                } else if p < ii {
                    assert(lex_le(h0[p].distance@, h0[q - 1].distance@));
                } else if p == ii {
                    assert(ii < h0.len());
                    lemma_lex_le_total(d@, h0[ii].distance@);
                    assert(lex_le(h0[ii].distance@, h0[q - 1].distance@));
                    lemma_lex_le_trans(d@, h0[ii].distance@, h0[q - 1].distance@);
                } else {
                    assert(lex_le(h0[p - 1].distance@, h0[q - 1].distance@));
                }
            }
            assert forall|p: int, q: int|
                0 <= p < q < h1.len() implies h1[p].node.id@ != h1[q].node.id@ by {
                if p == ii {
                    assert(h1[q] == h0[q - 1]);
                    if node.id@ == h0[q - 1].node.id@ {
                        assert(c0[q - 1].id@ == node.id@);
                        assert(has_id(c0, node.id@));
                    }
                } else if q == ii {
                    assert(h1[p] == h0[p]);
                    if h0[p].node.id@ == node.id@ {
                        assert(c0[p].id@ == node.id@);
                        assert(has_id(c0, node.id@));
                    }
                } else {
                    let p2 = if p < ii {
                        p
                    } else {
                        p - 1
                    };
                    let q2 = if q < ii {
                        q
                    } else {
                        q - 1
                    };
                    assert(h1[p] == h0[p2] && h1[q] == h0[q2]);
                }
            }
        }
    }

    /// The visible length: the true count, capped by the bound.
    pub fn len(&self) -> (r: usize)
        ensures
            r == self.visible_len(),
    {
        if self.heap.len() < self.max_size {
            self.heap.len()
        } else {
            self.max_size
        }
    }

    /// Whether the whole collection (not only the visible part) is empty.
    pub fn is_empty(&self) -> (r: bool)
        ensures
            r == (self.contents().len() == 0),
    {
        self.heap.len() == 0
    }

    /// Whether a peer with this peer's identifier is held, visibly or not.
    pub fn contains(&self, node: &Node) -> (r: bool)
        ensures
            r == has_id(self.contents(), node.id@),
    {
        let mut i: usize = 0;
        while i < self.heap.len()
            invariant
                i <= self.heap@.len(),
                forall|j: int| 0 <= j < i ==> self.heap@[j].node.id@ != node.id@,
            decreases self.heap@.len() - i,
        {
            let e = self.heap[i];
            if e.node.id.equals(&node.id) {
                proof {
                    assert(self.contents()[i as int].id@ == node.id@);
                }
                return true;
            }
            i += 1;
        }
        proof {
            if has_id(self.contents(), node.id@) {
                let t = choose|t: int|
                    0 <= t < self.contents().len() && self.contents()[t].id@ == node.id@;
                assert(self.heap@[t].node.id@ == node.id@);
            }
        }
        false
    }

    /// The visible peers not yet marked contacted, in ascending distance.
    pub fn get_uncontacted(&self) -> (r: Vec<Node>)
        requires
            self.wf(),
        ensures
            r@ == self.visible().filter(|n: Node| !self.contacted_ids().contains(n.id@)),
    {
        let v = self.to_vec();
        let mut r: Vec<Node> = Vec::new();
        let mut i: usize = 0;
        while i < v.len()
            invariant
                i <= v@.len(),
                v@ == self.visible(),
                r@ == v@.take(i as int).filter(
                    |n: Node| !self.contacted_ids().contains(n.id@),
                ),
            decreases v@.len() - i,
        {
            let ghost prefix = v@.take(i as int);
            proof {
                assert(v@.take(i as int + 1) =~= prefix.push(v@[i as int]));
            }
            let nd = v[i];
            let hit = id_in_vec(&self.contacted, &nd.id);
            proof {
                assert(hit == self.contacted_ids().contains(nd.id@));
            }
            if !hit {
                r.push(nd);
            }
            i += 1;
        }
        proof {
            assert(v@.take(v@.len() as int) =~= v@);
        }
        r
    }

    /// The visible peers, in ascending distance.
    pub fn iter(&self) -> (r: Vec<Node>)
        ensures
            r@ == self.visible(),
    {
        self.to_vec()
    }

    /// The visible peers, in ascending distance.
    pub fn to_vec(&self) -> (r: Vec<Node>)
        ensures
            r@ == self.visible(),
    {
        let n = self.len();
        let mut r: Vec<Node> = Vec::new();
        let mut i: usize = 0;
        while i < n
            invariant
                i <= n,
                n == self.visible_len(),
                n <= self.heap@.len(),
                r@.len() == i,
                forall|j: int| 0 <= j < i ==> r@[j] == self.contents()[j],
            decreases n - i,
        {
            let e = self.heap[i];
            r.push(e.node);
            i += 1;
        }
        proof {
            assert(r@ =~= self.visible());
        }
        r
    }

    /// The true size of the collection, visible or not.
    pub fn actual_size(&self) -> (r: usize)
        ensures
            r == self.contents().len(),
    {
        self.heap.len()
    }

    /// Forget every peer and every contacted mark.
    pub fn clear(&mut self)
        ensures
            final(self).wf(),
            final(self).contents() == Seq::<Node>::empty(),
            final(self).contacted_ids() == Set::<Seq<u8>>::empty(),
            final(self).ref_node() == old(self).ref_node(),
            final(self).bound() == old(self).bound(),
    {
        self.heap = Vec::new();
        self.contacted = Vec::new();
        proof {
            assert(self.contents() =~= Seq::<Node>::empty());
            assert(self.contacted_ids() =~= Set::<Seq<u8>>::empty());
        }
    }

    /// The lookup's reference peer.
    pub fn reference_node(&self) -> (r: &Node)
        ensures
            *r == self.ref_node(),
    {
        &self.node
    }

    /// Drop every peer whose identifier occurs in `peers`; an empty list is
    /// a no-op. The visible size may not shrink: farther peers hidden behind
    /// the bound become visible as nearer ones leave.
    pub fn remove(&mut self, peers: Vec<NodeId>)
        requires
            old(self).wf(),
        ensures
            final(self).wf(),
            final(self).ref_node() == old(self).ref_node(),
            final(self).bound() == old(self).bound(),
            final(self).contacted_ids() == old(self).contacted_ids(),
            final(self).contents() == old(self).contents().filter(
                |n: Node| !id_in_list(peers@, n.id@),
            ),
    {
        let ghost h0 = self.heap@;
        let ghost epred = |e: HeapEntry| !id_in_list(peers@, e.node.id@);
        let mut kept: Vec<HeapEntry> = Vec::new();
        let mut i: usize = 0;
        while i < self.heap.len()
            invariant
                i <= h0.len(),
                self == old(self),
                h0 == self.heap@,
                kept@ == h0.take(i as int).filter(
                    |e: HeapEntry| !id_in_list(peers@, e.node.id@),
                ),
            decreases h0.len() - i,
        {
            let ghost prefix = h0.take(i as int);
            proof {
                assert(h0.take(i as int + 1) =~= prefix.push(h0[i as int]));
            }
            let e = self.heap[i];
            let hit = id_in_vec(&peers, &e.node.id);
            if !hit {
                kept.push(e);
            }
            i += 1;
        }
        proof {
            assert(h0.take(h0.len() as int) =~= h0);
        }
        self.heap = kept;
        proof {
            lemma_filter_entry_keeps(h0, epred);
            assert(self.contents() =~= old(self).contents().filter(
                |n: Node| !id_in_list(peers@, n.id@),
            )) by {
                lemma_filter_map_nodes(h0, peers@);
            }
        }
    }
}

/// Whether the identifier occurs in the list, by bytewise equality.
fn id_in_vec(ids: &Vec<NodeId>, id: &NodeId) -> (r: bool)
    ensures
        r == id_in_list(ids@, id@),
{
    let mut i: usize = 0;
    while i < ids.len()
        invariant
            i <= ids@.len(),
            forall|j: int| 0 <= j < i ==> ids@[j]@ != id@,
        decreases ids@.len() - i,
    {
        if ids[i].equals(id) {
            return true;
        }
        i += 1;
    }
    false
}

/// Lexicographic comparison of two identifiers, bytewise from the front.
fn dist_le(a: &NodeId, b: &NodeId) -> (r: bool)
    ensures
        r == lex_le(a@, b@),
{
    let ab = a.as_bytes();
    let bb = b.as_bytes();
    let mut i: usize = 0;
    while i < 20
        invariant
            i <= 20,
            a@.len() == 20,
            b@.len() == 20,
            ab@ == a@,
            bb@ == b@,
            lex_le(a@, b@) == lex_le(a@.skip(i as int), b@.skip(i as int)),
        decreases 20 - i,
    {
        proof {
            assert(a@.skip(i as int)[0] == a@[i as int]);
            assert(b@.skip(i as int)[0] == b@[i as int]);
            assert(a@.skip(i as int).drop_first() =~= a@.skip(i as int + 1));
            assert(b@.skip(i as int).drop_first() =~= b@.skip(i as int + 1));
        }
        if ab[i] < bb[i] {
            return true;
        }
        if ab[i] > bb[i] {
            return false;
        }
        i += 1;
    }
    proof {
        assert(a@.skip(20) =~= Seq::<u8>::empty());
    }
    true
}

/// `node_ipos` is exactly the scan position: every earlier peer is at
/// distance at most `d`, and the peer at the position (if any) is farther.
proof fn lemma_node_ipos_char(s: Seq<Node>, refid: Seq<u8>, d: Seq<u8>, i: int)
    requires
        0 <= i <= s.len(),
        forall|j: int| 0 <= j < i ==> lex_le(xor_bytes(refid, s[j].id@), d),
        i < s.len() ==> !lex_le(xor_bytes(refid, s[i].id@), d),
    ensures
        node_ipos(s, refid, d) == i,
    decreases s.len(),
{
    if s.len() == 0 {
    } else if i == 0 {
    } else {
        assert(lex_le(xor_bytes(refid, s[0].id@), d));
        assert forall|j: int| 0 <= j < i - 1 implies lex_le(
            xor_bytes(refid, s.drop_first()[j].id@),
            d,
        ) by {
            assert(s.drop_first()[j] == s[j + 1]);
        }
        assert(i - 1 < s.drop_first().len() ==> !lex_le(
            xor_bytes(refid, s.drop_first()[i - 1].id@),
            d,
        )) by {
            if i < s.len() {
                assert(s.drop_first()[i - 1] == s[i]);
            }
        }
        lemma_node_ipos_char(s.drop_first(), refid, d, i - 1);
    }
}

/// Every entry a filter keeps is an entry of the original sequence, and the
/// filtered sequence keeps sortedness and identifier distinctness.
proof fn lemma_filter_entry_keeps(s: Seq<HeapEntry>, p: spec_fn(HeapEntry) -> bool)
    ensures
        forall|i: int|
            0 <= i < s.filter(p).len() ==> s.contains(#[trigger] s.filter(p)[i]),
        entries_sorted(s) ==> entries_sorted(s.filter(p)),
        entries_distinct(s) ==> entries_distinct(s.filter(p)),
    decreases s.len(),
{
    reveal(Seq::filter);
    if s.len() > 0 {
        let pre = s.drop_last();
        lemma_filter_entry_keeps(pre, p);
        assert(entries_sorted(s) ==> entries_sorted(pre));
        assert(entries_distinct(s) ==> entries_distinct(pre));
        let f = s.filter(p);
        let fp = pre.filter(p);
        assert forall|i: int| 0 <= i < f.len() implies s.contains(f[i]) by {
            if p(s.last()) {
                assert(f == fp.push(s.last()));
                if i < fp.len() {
                    assert(pre.contains(fp[i]));
                    let t = choose|t: int| 0 <= t < pre.len() && pre[t] == fp[i];
                    assert(s[t] == f[i]);
                } else {
                    assert(f[i] == s[s.len() - 1]);
                }
            } else {
                assert(f == fp);
                assert(pre.contains(fp[i]));
                let t = choose|t: int| 0 <= t < pre.len() && pre[t] == fp[i];
                assert(s[t] == f[i]);
            }
        }
        if entries_sorted(s) {
            assert forall|i: int, j: int|
                0 <= i <= j < f.len() implies lex_le(f[i].distance@, f[j].distance@) by {
                if p(s.last()) && j == f.len() - 1 && f == fp.push(s.last()) {
                    if i < fp.len() {
                        assert(pre.contains(fp[i]));
                        let t = choose|t: int| 0 <= t < pre.len() && pre[t] == fp[i];
                        assert(lex_le(s[t].distance@, s[s.len() - 1].distance@));
                    }
                }
            }
        }
        if entries_distinct(s) {
            assert forall|i: int, j: int|
                0 <= i < j < f.len() implies f[i].node.id@ != f[j].node.id@ by {
                if p(s.last()) && j == f.len() - 1 && f == fp.push(s.last()) {
                    assert(pre.contains(fp[i]));
                    let t = choose|t: int| 0 <= t < pre.len() && pre[t] == fp[i];
                    assert(s[t].node.id@ != s[s.len() - 1].node.id@);
                }
            }
        }
    }
}

/// Filtering entries by a predicate on their peers, then projecting to the
/// peers, is the same as projecting first and filtering the peers.
proof fn lemma_filter_map_nodes(s: Seq<HeapEntry>, ids: Seq<NodeId>)
    ensures
        s.filter(|e: HeapEntry| !id_in_list(ids, e.node.id@)).map_values(|e: HeapEntry| e.node)
            == s.map_values(|e: HeapEntry| e.node).filter(|n: Node| !id_in_list(ids, n.id@)),
    decreases s.len(),
{
    reveal(Seq::filter);
    let ep = |e: HeapEntry| !id_in_list(ids, e.node.id@);
    let np = |n: Node| !id_in_list(ids, n.id@);
    if s.len() == 0 {
        assert(s.filter(ep).map_values(|e: HeapEntry| e.node) =~= s.map_values(
            |e: HeapEntry| e.node,
        ).filter(np));
    } else {
        let pre = s.drop_last();
        lemma_filter_map_nodes(pre, ids);
        assert(s.map_values(|e: HeapEntry| e.node).drop_last() =~= pre.map_values(
            |e: HeapEntry| e.node,
        ));
        assert(s.map_values(|e: HeapEntry| e.node).last() == s.last().node);
        assert(s.filter(ep).map_values(|e: HeapEntry| e.node) =~= s.map_values(
            |e: HeapEntry| e.node,
        ).filter(np));
    }
}

/// Successive closest peers leave in non-decreasing distance order: within a
/// well-formed heap, any earlier peer is at most as far from the reference
/// as any later one.
pub proof fn lemma_contents_sorted_by_distance(h: NodeHeap, i: int, j: int)
    requires
        h.wf(),
        0 <= i <= j < h.contents().len(),
    ensures
        lex_le(
            xor_bytes(h.ref_node().id@, h.contents()[i].id@),
            xor_bytes(h.ref_node().id@, h.contents()[j].id@),
        ),
{
    let s = h.heap@;
    assert(h.contents()[i] == s[i].node);
    assert(h.contents()[j] == s[j].node);
    assert(lex_le(s[i].distance@, s[j].distance@));
    assert(s[i].distance@ == xor_bytes(h.ref_node().id@, s[i].node.id@));
    assert(s[j].distance@ == xor_bytes(h.ref_node().id@, s[j].node.id@));
}

} // verus!
