//! A capacity-bounded bucket covering a contiguous sub-range of identifier
//! space: up to `ksize` active peers in recency order, a bounded replacement
//! cache for overflow, and range-based splitting into two child buckets.

use std::time::Instant;
use vstd::prelude::*;

use crate::node::{bit_of, magnitude, node_id_to_u128, Node, NodeId};
use crate::peer_map::{
    disjoint_keys, distinct_keys, drop_key, has_key, imap_contains, imap_entries, imap_first,
    imap_get, imap_len, imap_new, imap_shift_remove, imap_shift_remove_first, imap_insert_new,
    imap_values, key_index, keys_match, PeerMap,
};

verus! {

/// Relies on std::time::Instant, an opaque monotonic timestamp.
#[verifier::external_type_specification]
#[verifier::external_body]
pub struct ExInstant(Instant);

/// Relies on Instant::now: the moment of the call. Nothing is promised of
/// the value.
#[verifier::external_body]
fn instant_now() -> Instant {
    Instant::now()
}

/// The newest `max` entries of `s`: what remains after removing entries from
/// the oldest end until the length is within `max`.
pub open spec fn trim_oldest(s: Seq<(NodeId, Node)>, max: int) -> Seq<(NodeId, Node)> {
    if s.len() > max {
        s.subrange(s.len() - max, s.len() as int)
    } else {
        s
    }
}

/// The effect of inserting `node` on a bucket's active and replacement
/// entries: (active after, replacement after, whether the peer is active).
/// An already-active peer is refreshed and moved to the most-recent position;
/// a new peer joins the active set if there is room, and otherwise the
/// replacement cache, whose oldest entries are trimmed to its bound.
pub open spec fn spec_add(
    a: Seq<(NodeId, Node)>,
    r: Seq<(NodeId, Node)>,
    k: int,
    maxr: int,
    node: Node,
) -> (Seq<(NodeId, Node)>, Seq<(NodeId, Node)>, bool) {
    if has_key(a, node.id@) {
        (drop_key(a, node.id@).push((node.id, node)), r, true)
    } else if a.len() < k {
        (a.push((node.id, node)), r, true)
    } else {
        (a, trim_oldest(drop_key(r, node.id@).push((node.id, node)), maxr), false)
    }
}

/// The effect of removing the peer with identifier view `id`: it always
/// leaves the replacement cache; if it was active, the oldest replacement
/// entry (if any) is promoted into the vacant active slot.
pub open spec fn spec_remove(a: Seq<(NodeId, Node)>, r: Seq<(NodeId, Node)>, id: Seq<u8>) -> (
    Seq<(NodeId, Node)>,
    Seq<(NodeId, Node)>,
) {
    let r1 = drop_key(r, id);
    if has_key(a, id) {
        let a1 = drop_key(a, id);
        if r1.len() > 0 {
            (a1.push(r1[0]), r1.subrange(1, r1.len() as int))
        } else {
            (a1, r1)
        }
    } else {
        (a, r1)
    }
}

/// The effect of distributing the peers of `s`, in order, over a left child
/// (magnitudes up to `mid`) and a right child (magnitudes above `mid`), each
/// child inserting as `spec_add` does.
pub open spec fn spec_split_fold(
    la: Seq<(NodeId, Node)>,
    lr: Seq<(NodeId, Node)>,
    ra: Seq<(NodeId, Node)>,
    rr: Seq<(NodeId, Node)>,
    s: Seq<Node>,
    mid: int,
    k: int,
    maxr: int,
) -> (Seq<(NodeId, Node)>, Seq<(NodeId, Node)>, Seq<(NodeId, Node)>, Seq<(NodeId, Node)>)
    decreases s.len(),
{
    if s.len() <= 0 {
        (la, lr, ra, rr)
    } else {
        let n = s[0];
        if magnitude(n.id@) <= mid {
            let t = spec_add(la, lr, k, maxr, n);
            spec_split_fold(t.0, t.1, ra, rr, s.drop_first(), mid, k, maxr)
        } else {
            let t = spec_add(ra, rr, k, maxr, n);
            spec_split_fold(la, lr, t.0, t.1, s.drop_first(), mid, k, maxr)
        }
    }
}

/// All peers of `s` agree on bit `j` of their identifiers.
pub open spec fn all_bits_agree_at(nodes: Seq<Node>, j: int) -> bool {
    forall|m: int|
        0 <= m < nodes.len() ==> (#[trigger] bit_of(nodes[m].id@, j)) == bit_of(nodes[0].id@, j)
}

/// All peers of `s` share their first `d` identifier bits.
pub open spec fn agree_upto(nodes: Seq<Node>, d: int) -> bool {
    forall|j: int| 0 <= j < d ==> all_bits_agree_at(nodes, j)
}

/// A bucket of known peers whose truncated identifier magnitudes fall in
/// `[rstart, rend]`: at most `ksize` active peers in recency order (oldest
/// first), and a replacement cache of at most `max_replacement_nodes` peers
/// awaiting a vacancy.
pub struct KBucket {
    rend: u128,
    rstart: u128,
    nodes: PeerMap,
    replacement_nodes: PeerMap,
    last_updated: Instant,
    ksize: usize,
    max_replacement_nodes: usize,
}

impl KBucket {
    /// The active entries, oldest first.
    pub closed spec fn active(self) -> Seq<(NodeId, Node)> {
        imap_entries(self.nodes)
    }

    /// The replacement entries, oldest first.
    pub closed spec fn repl(self) -> Seq<(NodeId, Node)> {
        imap_entries(self.replacement_nodes)
    }

    /// The active-set capacity.
    pub closed spec fn k(self) -> int {
        self.ksize as int
    }

    /// The replacement-cache capacity.
    pub closed spec fn max_repl(self) -> int {
        self.max_replacement_nodes as int
    }

    pub closed spec fn range_start(self) -> u128 {
        self.rstart
    }

    pub closed spec fn range_end(self) -> u128 {
        self.rend
    }

    pub closed spec fn timestamp(self) -> Instant {
        self.last_updated
    }

    /// The bucket's invariant: keys are unique, match their peers, and never
    /// appear in both sets; both sets respect their bounds; the replacement
    /// cache is only populated while the active set is full; and the
    /// replacement bound is a whole multiple of the active bound.
    pub open spec fn wf(self) -> bool {
        &&& distinct_keys(self.active())
        &&& distinct_keys(self.repl())
        &&& keys_match(self.active())
        &&& keys_match(self.repl())
        &&& disjoint_keys(self.active(), self.repl())
        &&& self.active().len() <= self.k()
        &&& self.repl().len() <= self.max_repl()
        &&& (self.repl().len() > 0 ==> self.active().len() == self.k())
        &&& (self.k() == 0 ==> self.max_repl() == 0)
        &&& (self.k() > 0 ==> self.max_repl() % self.k() == 0)
    }

    pub fn new(range_low: u128, range_upper: u128, ksize: usize, replacement_node_factor: usize)
        -> (r: KBucket)
        requires
            ksize * replacement_node_factor <= usize::MAX,
        ensures
            r.wf(),
            r.active() == Seq::<(NodeId, Node)>::empty(),
            r.repl() == Seq::<(NodeId, Node)>::empty(),
            r.range_start() == range_low,
            r.range_end() == range_upper,
            r.k() == ksize,
            r.max_repl() == ksize * replacement_node_factor,
    {
        proof {
            if ksize > 0 {
                vstd::arithmetic::div_mod::lemma_mod_multiples_basic(
                    replacement_node_factor as int,
                    ksize as int,
                );
            }
        }
        KBucket {
            rstart: range_low,
            rend: range_upper,
            nodes: imap_new(),
            replacement_nodes: imap_new(),
            last_updated: instant_now(),
            ksize,
            max_replacement_nodes: ksize * replacement_node_factor,
        }
    }

    /// Refresh the last-modified timestamp; everything else is untouched.
    pub fn update_ts(&mut self)
        ensures
            final(self).active() == old(self).active(),
            final(self).repl() == old(self).repl(),
            final(self).k() == old(self).k(),
            final(self).max_repl() == old(self).max_repl(),
            final(self).range_start() == old(self).range_start(),
            final(self).range_end() == old(self).range_end(),
    {
        self.last_updated = instant_now();
    }

    /// The active peers, oldest first (most recently seen last).
    pub fn get_nodes(&self) -> (r: Vec<Node>)
        ensures
            r@ == self.active().map_values(|p: (NodeId, Node)| p.1),
    {
        imap_values(&self.nodes)
    }

    /// Whether the peer's truncated magnitude falls within this bucket's
    /// range, both ends inclusive.
    pub fn has_in_range(&self, node: &Node) -> (r: bool)
        ensures
            r == (self.range_start() <= magnitude(node.id@) <= self.range_end()),
    {
        let idc = node_id_to_u128(&node.id);
        self.rstart <= idc && idc <= self.rend
    }

    /// Whether the peer is not yet an active entry.
    pub fn is_new_node(&self, node: &Node) -> (r: bool)
        ensures
            r == !has_key(self.active(), node.id@),
    {
        !imap_contains(&self.nodes, &node.id)
    }

    /// Insert a peer, as `spec_add` states: refresh it if already active,
    /// make it active if there is room, and otherwise retain it as the
    /// newest replacement candidate. Returns true iff the peer is in the
    /// active set afterwards; a full bucket never rejects a peer outright.
    pub fn add_node(&mut self, node: Node) -> (r: bool)
        requires
            old(self).wf(),
        ensures
            final(self).wf(),
            final(self).k() == old(self).k(),
            final(self).max_repl() == old(self).max_repl(),
            final(self).range_start() == old(self).range_start(),
            final(self).range_end() == old(self).range_end(),
            ({
                let t = spec_add(
                    old(self).active(),
                    old(self).repl(),
                    old(self).k(),
                    old(self).max_repl(),
                    node,
                );
                final(self).active() == t.0 && final(self).repl() == t.1 && r == t.2
            }),
    {
        let ghost a0 = self.active();
        let ghost r0 = self.repl();
        let ghost gn = node;
        let node_id = node.id;
        if imap_contains(&self.nodes, &node_id) {
            let _ = imap_shift_remove(&mut self.nodes, &node_id);
            proof {
                lemma_drop_key_props(a0, gn.id@);
            }
            imap_insert_new(&mut self.nodes, node_id, node);
            proof {
                lemma_push_key_props(drop_key(a0, gn.id@), gn.id, gn);
                assert forall|x: Seq<u8>| has_key(self.active(), x) implies has_key(a0, x) by {
                    if has_key(drop_key(a0, gn.id@), x) {
                    } else {
                        assert(x == gn.id@);
                    }
                }
                lemma_disjoint_from_subsets(a0, r0, self.active(), self.repl());
            }
            true
        } else if imap_len(&self.nodes) < self.ksize {
            imap_insert_new(&mut self.nodes, node_id, node);
            proof {
                lemma_push_key_props(a0, gn.id, gn);
                assert(r0.len() == 0);
            }
            true
        } else {
            let _ = imap_shift_remove(&mut self.replacement_nodes, &node_id);
            proof {
                lemma_drop_key_props(r0, gn.id@);
            }
            imap_insert_new(&mut self.replacement_nodes, node_id, node);
            let ghost r2 = drop_key(r0, gn.id@).push((gn.id, gn));
            proof {
                lemma_push_key_props(drop_key(r0, gn.id@), gn.id, gn);
                assert(r2 =~= r2.subrange(r2.len() - r2.len(), r2.len() as int));
            }
            while imap_len(&self.replacement_nodes) > self.max_replacement_nodes
                invariant
                    self.nodes == old(self).nodes,
                    self.ksize == old(self).ksize,
                    self.max_replacement_nodes == old(self).max_replacement_nodes,
                    self.rstart == old(self).rstart,
                    self.rend == old(self).rend,
                    self.last_updated == old(self).last_updated,
                    imap_entries(self.replacement_nodes).len() <= r2.len(),
                    imap_entries(self.replacement_nodes) == r2.subrange(
                        r2.len() - imap_entries(self.replacement_nodes).len(),
                        r2.len() as int,
                    ),
                    r2.len() > self.max_replacement_nodes
                        ==> imap_entries(self.replacement_nodes).len()
                        >= self.max_replacement_nodes,
                    r2.len() <= self.max_replacement_nodes ==> imap_entries(
                        self.replacement_nodes,
                    ) == r2,
                decreases imap_entries(self.replacement_nodes).len(),
            {
                let ghost before = imap_entries(self.replacement_nodes);
                let _ = imap_shift_remove_first(&mut self.replacement_nodes);
                proof {
                    let n = before.len() as int;
                    assert(before.subrange(1, n) =~= r2.subrange(r2.len() - (n - 1), r2.len() as int));
                }
            }
            proof {
                lemma_subrange_key_props(
                    r2,
                    r2.len() - imap_entries(self.replacement_nodes).len() as int,
                    r2.len() as int,
                );
                assert(self.repl() == trim_oldest(r2, self.max_repl()));
                assert(disjoint_keys(a0, r2)) by {
                    assert forall|i: int, j: int|
                        0 <= i < a0.len() && 0 <= j < r2.len() implies a0[i].0@ != r2[j].0@ by {
                        if j < r2.len() - 1 {
                            assert(r2[j] == drop_key(r0, gn.id@)[j]);
                            assert(has_key(drop_key(r0, gn.id@), r2[j].0@));
                            assert(has_key(r0, r2[j].0@));
                            let t = choose|t: int| 0 <= t < r0.len() && r0[t].0@ == r2[j].0@;
                            assert(a0[i].0@ != r0[t].0@);
                        } else {
                            assert(r2[j].0@ == gn.id@);
                            if a0[i].0@ == gn.id@ {
                                assert(has_key(a0, gn.id@));
                            }
                        }
                    }
                }
                lemma_disjoint_from_subsets(a0, r2, self.active(), self.repl());
            }
            false
        }
    }

    /// Drop a peer: it always leaves the replacement cache; if it was
    /// active, the oldest replacement entry (if any) takes its slot. A peer
    /// present nowhere is a no-op.
    pub fn remove_node(&mut self, node: &Node)
        requires
            old(self).wf(),
        ensures
            final(self).wf(),
            final(self).k() == old(self).k(),
            final(self).max_repl() == old(self).max_repl(),
            final(self).range_start() == old(self).range_start(),
            final(self).range_end() == old(self).range_end(),
            ({
                let t = spec_remove(old(self).active(), old(self).repl(), node.id@);
                final(self).active() == t.0 && final(self).repl() == t.1
            }),
    {
        let ghost a0 = self.active();
        let ghost r0 = self.repl();
        let _ = imap_shift_remove(&mut self.replacement_nodes, &node.id);
        proof {
            lemma_drop_key_props(r0, node.id@);
        }
        let removed = imap_shift_remove(&mut self.nodes, &node.id);
        proof {
            lemma_drop_key_props(a0, node.id@);
        }
        if removed.is_some() {
            let ghost r1 = self.repl();
            match imap_shift_remove_first(&mut self.replacement_nodes) {
                Some(pair) => {
                    let ghost gp = pair;
                    proof {
                        assert(r1[0] == gp);
                        assert(has_key(r1, gp.0@));
                        assert(has_key(r0, gp.0@));
                        assert(!has_key(drop_key(a0, node.id@), gp.0@)) by {
                            if has_key(drop_key(a0, node.id@), gp.0@) {
                                assert(has_key(a0, gp.0@));
                                let i = choose|i: int| 0 <= i < a0.len() && a0[i].0@ == gp.0@;
                                let j = choose|j: int| 0 <= j < r0.len() && r0[j].0@ == gp.0@;
                                assert(a0[i].0@ != r0[j].0@);
                            }
                        }
                        lemma_subrange_key_props(r1, 1, r1.len() as int);
                        assert(gp.0 == gp.1.id);
                    }
                    imap_insert_new(&mut self.nodes, pair.0, pair.1);
                    proof {
                        lemma_push_key_props(drop_key(a0, node.id@), gp.0, gp.1);
                        assert(disjoint_keys(self.active(), self.repl())) by {
                            let a2 = self.active();
                            let rtail = self.repl();
                            assert forall|i: int, j: int|
                                0 <= i < a2.len() && 0 <= j < rtail.len() implies a2[i].0@
                                != rtail[j].0@ by {
                                assert(rtail[j] == r1[j + 1]);
                                if i < a2.len() - 1 {
                                    assert(a2[i] == drop_key(a0, node.id@)[i]);
                                    assert(has_key(drop_key(a0, node.id@), a2[i].0@));
                                    assert(has_key(a0, a2[i].0@));
                                    assert(has_key(r1, rtail[j].0@));
                                    assert(has_key(r0, rtail[j].0@));
                                    let t = choose|t: int| 0 <= t < a0.len() && a0[t].0@ == a2[i].0@;
                                    let u = choose|u: int|
                                        0 <= u < r0.len() && r0[u].0@ == rtail[j].0@;
                                    assert(a0[t].0@ != r0[u].0@);
                                } else {
                                    assert(a2[i] == (gp.0, gp.1));
                                    assert(r1[0].0@ != r1[j + 1].0@);
                                }
                            }
                        }
                    }
                },
                None => {},
            }
        }
    }

    /// Split this bucket at the midpoint of its range: a left child covering
    /// `[rstart, mid]` and a right child covering `[mid + 1, rend]`, each
    /// with the same capacities, re-inserting every held peer (active first,
    /// then replacements) into the child whose range covers its truncated
    /// magnitude. The parent is discarded by the caller.
    pub fn split(&self) -> (r: (KBucket, KBucket))
        requires
            self.wf(),
            self.k() > 0,
            self.range_start() + self.range_end() <= u128::MAX,
        ensures
            r.0.wf(),
            r.1.wf(),
            r.0.range_start() == self.range_start(),
            r.0.range_end() == self.midpoint(),
            r.1.range_start() == self.midpoint() + 1,
            r.1.range_end() == self.range_end(),
            r.0.k() == self.k() && r.1.k() == self.k(),
            r.0.max_repl() == self.max_repl() && r.1.max_repl() == self.max_repl(),
            ({
                let t = spec_split_fold(
                    Seq::empty(),
                    Seq::empty(),
                    Seq::empty(),
                    Seq::empty(),
                    self.all_peers(),
                    self.midpoint(),
                    self.k(),
                    self.max_repl(),
                );
                r.0.active() == t.0 && r.0.repl() == t.1 && r.1.active() == t.2 && r.1.repl()
                    == t.3
            }),
    {
        proof {
            vstd::arithmetic::div_mod::lemma_fundamental_div_mod(
                self.max_repl(),
                self.k(),
            );
        }
        let midpoint = (self.rstart + self.rend) / 2;
        let mut one = KBucket::new(
            self.rstart,
            midpoint,
            self.ksize,
            self.max_replacement_nodes / self.ksize,
        );
        let mut two = KBucket::new(
            midpoint + 1,
            self.rend,
            self.ksize,
            self.max_replacement_nodes / self.ksize,
        );
        let mut all = imap_values(&self.nodes);
        let mut rep = imap_values(&self.replacement_nodes);
        all.append(&mut rep);
        let ghost s = all@;
        proof {
            assert(s =~= self.all_peers());
            assert(s.skip(0) =~= s);
        }
        let ghost k = self.k();
        let ghost maxr = self.max_repl();
        let ghost goal = spec_split_fold(
            Seq::empty(),
            Seq::empty(),
            Seq::empty(),
            Seq::empty(),
            s,
            self.midpoint(),
            k,
            maxr,
        );
        let mut i: usize = 0;
        while i < all.len()
            invariant
                i <= all.len(),
                all@ == s,
                one.wf(),
                two.wf(),
                one.k() == k && two.k() == k,
                one.max_repl() == maxr && two.max_repl() == maxr,
                one.range_start() == self.range_start() && one.range_end() == self.midpoint(),
                two.range_start() == self.midpoint() + 1 && two.range_end() == self.range_end(),
                midpoint == self.midpoint(),
                spec_split_fold(
                    one.active(),
                    one.repl(),
                    two.active(),
                    two.repl(),
                    s.skip(i as int),
                    self.midpoint(),
                    k,
                    maxr,
                ) == goal,
            decreases all.len() - i,
        {
            let nd = all[i];
            let ghost rest = s.skip(i as int);
            proof {
                assert(rest[0] == s[i as int]);
                assert(rest.drop_first() =~= s.skip(i as int + 1));
            }
            if node_id_to_u128(&nd.id) <= midpoint {
                let _ = one.add_node(nd);
            } else {
                let _ = two.add_node(nd);
            }
            i += 1;
        }
        proof {
            assert(s.skip(all@.len() as int) =~= Seq::<Node>::empty());
        }
        (one, two)
    }

    /// The midpoint at which this bucket's range splits.
    pub open spec fn midpoint(self) -> int {
        (self.range_start() + self.range_end()) / 2
    }

    /// Every peer this bucket holds: the active peers, oldest first,
    /// followed by the replacement peers, oldest first.
    pub open spec fn all_peers(self) -> Seq<Node> {
        self.active().map_values(|p: (NodeId, Node)| p.1) + self.repl().map_values(
            |p: (NodeId, Node)| p.1,
        )
    }

    /// The length, in bits, of the longest common prefix shared by the
    /// identifiers of all active peers; 0 if there are none.
    pub fn depth(&self) -> (r: usize)
        requires
            self.wf(),
        ensures
            self.active().len() == 0 ==> r == 0,
            self.active().len() > 0 ==> {
                let nodes = self.active().map_values(|p: (NodeId, Node)| p.1);
                r <= 160 && agree_upto(nodes, r as int) && (r < 160 ==> !all_bits_agree_at(
                    nodes,
                    r as int,
                ))
            },
    {
        let nodes = imap_values(&self.nodes);
        if nodes.len() == 0 {
            return 0;
        }
        let ghost ns = nodes@;
        let mut d: usize = 0;
        while d < 160
            invariant
                d <= 160,
                nodes@ == ns,
                ns.len() > 0,
                ns == self.active().map_values(|p: (NodeId, Node)| p.1),
                agree_upto(ns, d as int),
            decreases 160 - d,
        {
            let first_bit = nodes[0].id.bit(d);
            let mut m: usize = 1;
            while m < nodes.len()
                invariant
                    1 <= m <= nodes.len(),
                    d < 160,
                    nodes@ == ns,
                    ns.len() > 0,
                    ns == self.active().map_values(|p: (NodeId, Node)| p.1),
                    agree_upto(ns, d as int),
                    first_bit == bit_of(ns[0].id@, d as int),
                    forall|t: int|
                        0 <= t < m ==> (#[trigger] bit_of(ns[t].id@, d as int)) == bit_of(
                            ns[0].id@,
                            d as int,
                        ),
                decreases nodes.len() - m,
            {
                if nodes[m].id.bit(d) != first_bit {
                    return d;
                }
                m += 1;
            }
            d += 1;
        }
        160
    }

    /// The oldest active peer, if any.
    pub fn head(&self) -> (r: Option<Node>)
        ensures
            self.active().len() == 0 ==> r is None,
            self.active().len() > 0 ==> r == Some(self.active()[0].1),
    {
        imap_first(&self.nodes)
    }

    /// The active peer stored under the identifier, if any.
    pub fn get(&self, node_id: &NodeId) -> (r: Option<Node>)
        ensures
            r is Some <==> has_key(self.active(), node_id@),
            has_key(self.active(), node_id@) ==> r == Some(
                self.active()[key_index(self.active(), node_id@)].1,
            ),
    {
        imap_get(&self.nodes, node_id)
    }

    /// The number of active peers.
    pub fn len(&self) -> (r: usize)
        ensures
            r == self.active().len(),
    {
        imap_len(&self.nodes)
    }

    pub fn is_empty(&self) -> (r: bool)
        ensures
            r == (self.active().len() == 0),
    {
        self.len() == 0
    }

    /// Whether the active set is at capacity.
    pub fn is_full(&self) -> (r: bool)
        ensures
            r == (self.active().len() >= self.k()),
    {
        imap_len(&self.nodes) >= self.ksize
    }

    /// The inclusive range of truncated magnitudes this bucket covers.
    pub fn range(&self) -> (r: (u128, u128))
        ensures
            r == (self.range_start(), self.range_end()),
    {
        (self.rstart, self.rend)
    }

    /// The last-modified timestamp, as refreshed by `update_ts`.
    pub fn last_updated(&self) -> (r: Instant)
        ensures
            r == self.timestamp(),
    {
        self.last_updated
    }

    /// The number of replacement peers.
    pub fn replacement_count(&self) -> (r: usize)
        ensures
            r == self.repl().len(),
    {
        imap_len(&self.replacement_nodes)
    }

    /// The replacement peers, oldest first.
    pub fn get_replacement_nodes(&self) -> (r: Vec<Node>)
        ensures
            r@ == self.repl().map_values(|p: (NodeId, Node)| p.1),
    {
        imap_values(&self.replacement_nodes)
    }
}

/// The bucket contents after inserting each peer of `s` in turn, as
/// `spec_add` states, starting from active set `a` and replacement set `r`.
pub open spec fn spec_add_seq(
    a: Seq<(NodeId, Node)>,
    r: Seq<(NodeId, Node)>,
    k: int,
    maxr: int,
    s: Seq<Node>,
) -> (Seq<(NodeId, Node)>, Seq<(NodeId, Node)>)
    decreases s.len(),
{
    if s.len() == 0 {
        (a, r)
    } else {
        let t = spec_add(a, r, k, maxr, s[0]);
        spec_add_seq(t.0, t.1, k, maxr, s.drop_first())
    }
}

/// No two peers of `s` share an identifier.
pub open spec fn distinct_ids(s: Seq<Node>) -> bool {
    forall|i: int, j: int| 0 <= i < j < s.len() ==> s[i].id@ != s[j].id@
}

proof fn lemma_add_seq_concat(
    a: Seq<(NodeId, Node)>,
    r: Seq<(NodeId, Node)>,
    k: int,
    maxr: int,
    s1: Seq<Node>,
    s2: Seq<Node>,
)
    ensures
        spec_add_seq(a, r, k, maxr, s1 + s2) == spec_add_seq(
            spec_add_seq(a, r, k, maxr, s1).0,
            spec_add_seq(a, r, k, maxr, s1).1,
            k,
            maxr,
            s2,
        ),
    decreases s1.len(),
{
    if s1.len() == 0 {
        assert(s1 + s2 =~= s2);
    } else {
        assert((s1 + s2)[0] == s1[0]);
        assert((s1 + s2).drop_first() =~= s1.drop_first() + s2);
        let t = spec_add(a, r, k, maxr, s1[0]);
        lemma_add_seq_concat(t.0, t.1, k, maxr, s1.drop_first(), s2);
    }
}

proof fn lemma_fill_below(a: Seq<(NodeId, Node)>, k: int, maxr: int, s: Seq<Node>)
    requires
        a.len() + s.len() <= k,
        distinct_ids(s),
        forall|i: int| 0 <= i < s.len() ==> !has_key(a, s[i].id@),
    ensures
        spec_add_seq(a, Seq::empty(), k, maxr, s).0 == a + s.map_values(|n: Node| (n.id, n)),
        spec_add_seq(a, Seq::empty(), k, maxr, s).1 == Seq::<(NodeId, Node)>::empty(),
    decreases s.len(),
{
    if s.len() == 0 {
        assert(a + s.map_values(|n: Node| (n.id, n)) =~= a);
    } else {
        let n = s[0];
        assert(!has_key(a, n.id@));
        let a2 = a.push((n.id, n));
        assert forall|i: int| 0 <= i < s.drop_first().len() implies !has_key(
            a2,
            s.drop_first()[i].id@,
        ) by {
            assert(s.drop_first()[i] == s[i + 1]);
            if has_key(a2, s[i + 1].id@) {
                let t = choose|t: int| 0 <= t < a2.len() && a2[t].0@ == s[i + 1].id@;
                if t < a.len() {
                    assert(has_key(a, s[i + 1].id@));
                } else {
                    assert(a2[t].0@ == s[0].id@);
                }
            }
        }
        lemma_fill_below(a2, k, maxr, s.drop_first());
        assert(a2 + s.drop_first().map_values(|n: Node| (n.id, n)) =~= a + s.map_values(
            |n: Node| (n.id, n),
        ));
    }
}

/// Law: inserting `k + 1` peers with distinct identifiers into an empty
/// bucket leaves the first `k`, in order, as the active set, and exactly the
/// last as the sole replacement entry (the replacement bound permitting).
pub proof fn lemma_fill_empty_bucket(k: int, maxr: int, s: Seq<Node>)
    requires
        0 <= k,
        1 <= maxr,
        distinct_ids(s),
        s.len() == k + 1,
    ensures
        spec_add_seq(Seq::empty(), Seq::empty(), k, maxr, s).0 == s.take(k).map_values(
            |n: Node| (n.id, n),
        ),
        spec_add_seq(Seq::empty(), Seq::empty(), k, maxr, s).1 == seq![(s[k].id, s[k])],
        ({
            let t = spec_add_seq(Seq::empty(), Seq::empty(), k, maxr, s.take(k));
            !spec_add(t.0, t.1, k, maxr, s[k]).2
        }),
{
    let e = Seq::<(NodeId, Node)>::empty();
    let s1 = s.take(k);
    let s2 = s.skip(k);
    assert(s =~= s1 + s2);
    lemma_add_seq_concat(e, e, k, maxr, s1, s2);
    lemma_fill_below(e, k, maxr, s1);
    let a1 = spec_add_seq(e, e, k, maxr, s1).0;
    assert(a1 =~= s1.map_values(|n: Node| (n.id, n)));
    assert(s2[0] == s[k]);
    assert(!has_key(a1, s[k].id@)) by {
        if has_key(a1, s[k].id@) {
            let t = choose|t: int| 0 <= t < a1.len() && a1[t].0@ == s[k].id@;
            assert(s[t].id@ == s[k].id@);
        }
    }
    let t = spec_add(a1, e, k, maxr, s[k]);
    assert(!has_key(e, s[k].id@));
    assert(t.1 =~= seq![(s[k].id, s[k])]);
    assert(s2.drop_first() =~= Seq::<Node>::empty());
    assert(spec_add_seq(t.0, t.1, k, maxr, s2.drop_first()) == (t.0, t.1));
}

/// Law: re-inserting an already-active peer reports success, keeps the
/// active count unchanged, and leaves the replacement cache untouched.
pub proof fn lemma_reinsert_active_is_idempotent(
    a: Seq<(NodeId, Node)>,
    r: Seq<(NodeId, Node)>,
    k: int,
    maxr: int,
    node: Node,
)
    requires
        has_key(a, node.id@),
    ensures
        spec_add(a, r, k, maxr, node).0.len() == a.len(),
        spec_add(a, r, k, maxr, node).1 == r,
        spec_add(a, r, k, maxr, node).2,
        has_key(spec_add(a, r, k, maxr, node).0, node.id@),
{
    let ki = key_index(a, node.id@);
    assert(0 <= ki < a.len() && a[ki].0@ == node.id@);
    a.remove_ensures(ki);
    let t0 = spec_add(a, r, k, maxr, node).0;
    assert(t0[t0.len() - 1].0@ == node.id@);
}

/// Every peer of `s` has truncated magnitude at most `mid`.
pub open spec fn all_magnitudes_le(s: Seq<(NodeId, Node)>, mid: int) -> bool {
    forall|i: int| 0 <= i < s.len() ==> magnitude(#[trigger] s[i].1.id@) <= mid
}

/// Every peer of `s` has truncated magnitude above `mid`.
pub open spec fn all_magnitudes_gt(s: Seq<(NodeId, Node)>, mid: int) -> bool {
    forall|i: int| 0 <= i < s.len() ==> magnitude(#[trigger] s[i].1.id@) > mid
}

/// Every entry that `spec_add` leaves in either set was already in one of
/// the sets, or is the inserted peer itself.
proof fn lemma_spec_add_elems(
    a: Seq<(NodeId, Node)>,
    r: Seq<(NodeId, Node)>,
    k: int,
    maxr: int,
    node: Node,
)
    requires
        0 <= maxr,
    ensures
        forall|i: int|
            0 <= i < spec_add(a, r, k, maxr, node).0.len() ==> a.contains(
                #[trigger] spec_add(a, r, k, maxr, node).0[i],
            ) || spec_add(a, r, k, maxr, node).0[i] == (node.id, node),
        forall|i: int|
            0 <= i < spec_add(a, r, k, maxr, node).1.len() ==> r.contains(
                #[trigger] spec_add(a, r, k, maxr, node).1[i],
            ) || spec_add(a, r, k, maxr, node).1[i] == (node.id, node),
{
    if has_key(a, node.id@) {
        let ki = key_index(a, node.id@);
        a.remove_ensures(ki);
        let t0 = spec_add(a, r, k, maxr, node).0;
        assert forall|i: int|
            0 <= i < t0.len() implies a.contains(t0[i]) || t0[i] == (node.id, node) by {
            if i < t0.len() - 1 {
                let i2 = if i < ki {
                    i
                } else {
                    i + 1
                };
                assert(t0[i] == a[i2]);
            }
        }
        assert(forall|i: int| 0 <= i < r.len() ==> r.contains(#[trigger] r[i]));
    } else if a.len() < k {
        let t0 = spec_add(a, r, k, maxr, node).0;
        assert forall|i: int|
            0 <= i < t0.len() implies a.contains(t0[i]) || t0[i] == (node.id, node) by {
            if i < t0.len() - 1 {
                assert(t0[i] == a[i]);
            }
        }
        assert(forall|i: int| 0 <= i < r.len() ==> r.contains(#[trigger] r[i]));
    } else {
        assert(forall|i: int| 0 <= i < a.len() ==> a.contains(#[trigger] a[i]));
        if has_key(r, node.id@) {
            let ri = key_index(r, node.id@);
            r.remove_ensures(ri);
        }
        let r2 = drop_key(r, node.id@).push((node.id, node));
        assert forall|i: int|
            0 <= i < r2.len() implies r.contains(r2[i]) || r2[i] == (node.id, node) by {
            if i < r2.len() - 1 {
                if has_key(r, node.id@) {
                    let ri = key_index(r, node.id@);
                    let i2 = if i < ri {
                        i
                    } else {
                        i + 1
                    };
                    assert(r2[i] == r[i2]);
                } else {
                    assert(r2[i] == r[i]);
                }
            }
        }
        let t1 = spec_add(a, r, k, maxr, node).1;
        assert(t1 == trim_oldest(r2, maxr));
        assert forall|i: int|
            0 <= i < t1.len() implies r.contains(t1[i]) || t1[i] == (node.id, node) by {
            if r2.len() > maxr {
                assert(t1[i] == r2[r2.len() - maxr + i]);
            } else {
                assert(t1[i] == r2[i]);
            }
        }
    }
}

/// Law: splitting partitions peers by magnitude. Starting from child sets
/// that respect the midpoint, every peer the fold puts in the left child has
/// truncated magnitude at most `mid`, and every peer it puts in the right
/// child has truncated magnitude above `mid`.
pub proof fn lemma_split_fold_partitions(
    la: Seq<(NodeId, Node)>,
    lr: Seq<(NodeId, Node)>,
    ra: Seq<(NodeId, Node)>,
    rr: Seq<(NodeId, Node)>,
    s: Seq<Node>,
    mid: int,
    k: int,
    maxr: int,
)
    requires
        0 <= maxr,
        all_magnitudes_le(la, mid),
        all_magnitudes_le(lr, mid),
        all_magnitudes_gt(ra, mid),
        all_magnitudes_gt(rr, mid),
    ensures
        all_magnitudes_le(spec_split_fold(la, lr, ra, rr, s, mid, k, maxr).0, mid),
        all_magnitudes_le(spec_split_fold(la, lr, ra, rr, s, mid, k, maxr).1, mid),
        all_magnitudes_gt(spec_split_fold(la, lr, ra, rr, s, mid, k, maxr).2, mid),
        all_magnitudes_gt(spec_split_fold(la, lr, ra, rr, s, mid, k, maxr).3, mid),
    decreases s.len(),
{
    if s.len() > 0 {
        let n = s[0];
        if magnitude(n.id@) <= mid {
            let t = spec_add(la, lr, k, maxr, n);
            lemma_spec_add_elems(la, lr, k, maxr, n);
            assert forall|i: int| 0 <= i < t.0.len() implies magnitude(t.0[i].1.id@) <= mid by {
                if la.contains(t.0[i]) {
                    let w = choose|w: int| 0 <= w < la.len() && la[w] == t.0[i];
                    assert(magnitude(la[w].1.id@) <= mid);
                }
            }
            assert forall|i: int| 0 <= i < t.1.len() implies magnitude(t.1[i].1.id@) <= mid by {
                if lr.contains(t.1[i]) {
                    let w = choose|w: int| 0 <= w < lr.len() && lr[w] == t.1[i];
                    assert(magnitude(lr[w].1.id@) <= mid);
                }
            }
            lemma_split_fold_partitions(t.0, t.1, ra, rr, s.drop_first(), mid, k, maxr);
        } else {
            let t = spec_add(ra, rr, k, maxr, n);
            lemma_spec_add_elems(ra, rr, k, maxr, n);
            assert forall|i: int| 0 <= i < t.0.len() implies magnitude(t.0[i].1.id@) > mid by {
                if ra.contains(t.0[i]) {
                    let w = choose|w: int| 0 <= w < ra.len() && ra[w] == t.0[i];
                    assert(magnitude(ra[w].1.id@) > mid);
                }
            }
            assert forall|i: int| 0 <= i < t.1.len() implies magnitude(t.1[i].1.id@) > mid by {
                if rr.contains(t.1[i]) {
                    let w = choose|w: int| 0 <= w < rr.len() && rr[w] == t.1[i];
                    assert(magnitude(rr[w].1.id@) > mid);
                }
            }
            lemma_split_fold_partitions(la, lr, t.0, t.1, s.drop_first(), mid, k, maxr);
        }
    }
}

/// `drop_key` removes exactly the entry for `id` (when distinct keys hold):
/// the result keeps distinctness, key matching, a subset of the keys, and no
/// longer holds `id`.
proof fn lemma_drop_key_props(s: Seq<(NodeId, Node)>, id: Seq<u8>)
    requires
        distinct_keys(s),
        keys_match(s),
    ensures
        distinct_keys(drop_key(s, id)),
        keys_match(drop_key(s, id)),
        !has_key(drop_key(s, id), id),
        forall|x: Seq<u8>| has_key(drop_key(s, id), x) ==> has_key(s, x),
        has_key(s, id) ==> drop_key(s, id).len() == s.len() - 1,
        !has_key(s, id) ==> drop_key(s, id) == s,
{
    if has_key(s, id) {
        let ki = key_index(s, id);
        assert(0 <= ki < s.len() && s[ki].0@ == id);
        s.remove_ensures(ki);
        let t = s.remove(ki);
        assert forall|a: int, b: int| 0 <= a < b < t.len() implies t[a].0@ != t[b].0@ by {
            let a2 = if a < ki { a } else { a + 1 };
            let b2 = if b < ki { b } else { b + 1 };
            assert(t[a] == s[a2] && t[b] == s[b2]);
        }
        assert forall|x: Seq<u8>| has_key(t, x) implies has_key(s, x) by {
            let j = choose|j: int| 0 <= j < t.len() && t[j].0@ == x;
            let j2 = if j < ki { j } else { j + 1 };
            assert(s[j2].0@ == x);
        }
        assert(!has_key(t, id)) by {
            if has_key(t, id) {
                let j = choose|j: int| 0 <= j < t.len() && t[j].0@ == id;
                let j2 = if j < ki { j } else { j + 1 };
                assert(s[j2].0@ == id && j2 != ki);
            }
        }
        assert forall|i: int| 0 <= i < t.len() implies t[i].0 == t[i].1.id by {
            let i2 = if i < ki { i } else { i + 1 };
            assert(t[i] == s[i2]);
        }
    }
}

/// Pushing an entry with a fresh, matching key keeps distinctness and key
/// matching, and adds exactly that key.
proof fn lemma_push_key_props(s: Seq<(NodeId, Node)>, id: NodeId, node: Node)
    requires
        distinct_keys(s),
        keys_match(s),
        !has_key(s, id@),
        id == node.id,
    ensures
        distinct_keys(s.push((id, node))),
        keys_match(s.push((id, node))),
        has_key(s.push((id, node)), id@),
        forall|x: Seq<u8>|
            has_key(s.push((id, node)), x) ==> has_key(s, x) || x == id@,
{
    let t = s.push((id, node));
    assert(t[s.len() as int].0@ == id@);
    assert forall|a: int, b: int| 0 <= a < b < t.len() implies t[a].0@ != t[b].0@ by {
        if b < s.len() {
            assert(t[a] == s[a] && t[b] == s[b]);
        } else {
            assert(t[a] == s[a]);
            if t[a].0@ == id@ {
                assert(has_key(s, id@));
            }
        }
    }
    assert forall|x: Seq<u8>| has_key(t, x) implies has_key(s, x) || x == id@ by {
        let j = choose|j: int| 0 <= j < t.len() && t[j].0@ == x;
        if j < s.len() {
            assert(s[j].0@ == x);
        }
    }
}

/// Sequences whose keys are drawn from two key-disjoint sequences are
/// themselves key-disjoint.
proof fn lemma_disjoint_from_subsets(
    a: Seq<(NodeId, Node)>,
    b: Seq<(NodeId, Node)>,
    a2: Seq<(NodeId, Node)>,
    b2: Seq<(NodeId, Node)>,
)
    requires
        disjoint_keys(a, b),
        forall|x: Seq<u8>| has_key(a2, x) ==> has_key(a, x),
        forall|x: Seq<u8>| has_key(b2, x) ==> has_key(b, x),
    ensures
        disjoint_keys(a2, b2),
{
    assert forall|i: int, j: int|
        0 <= i < a2.len() && 0 <= j < b2.len() implies a2[i].0@ != b2[j].0@ by {
        if a2[i].0@ == b2[j].0@ {
            assert(has_key(a2, a2[i].0@));
            assert(has_key(b2, b2[j].0@));
            let ia = choose|t: int| 0 <= t < a.len() && a[t].0@ == a2[i].0@;
            let jb = choose|t: int| 0 <= t < b.len() && b[t].0@ == b2[j].0@;
            assert(a[ia].0@ != b[jb].0@);
        }
    }
}

/// A subrange keeps distinctness and key matching, and a subset of the keys.
proof fn lemma_subrange_key_props(s: Seq<(NodeId, Node)>, a: int, b: int)
    requires
        distinct_keys(s),
        keys_match(s),
        0 <= a <= b <= s.len(),
    ensures
        distinct_keys(s.subrange(a, b)),
        keys_match(s.subrange(a, b)),
        forall|x: Seq<u8>| has_key(s.subrange(a, b), x) ==> has_key(s, x),
{
    let t = s.subrange(a, b);
    assert forall|x: Seq<u8>| has_key(t, x) implies has_key(s, x) by {
        let j = choose|j: int| 0 <= j < t.len() && t[j].0@ == x;
        assert(s[a + j].0@ == x);
    }
}

} // verus!
