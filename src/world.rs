//! The entity store: an arena of entities with a fixed set of component slots.
use vstd::prelude::*;

verus! {

/// An opaque, stable handle of an entity of a [`World`].
#[derive(Clone, Copy, Debug, PartialEq, Eq, Structural, PartialOrd, Ord, Hash)]
pub struct Entity {
    pub id: u64,
}

/// A point of the underlay plane, in whole units.
#[derive(Clone, Copy, Debug, PartialEq, Eq, Structural)]
pub struct UnderlayPosition {
    pub x: u32,
    pub y: u32,
}

impl UnderlayPosition {
    pub fn new(x: u32, y: u32) -> (r: Self)
        ensures
            r.x == x,
            r.y == y,
    {
        UnderlayPosition { x, y }
    }
}

/// A straight segment of the underlay plane, from `start` to `end`.
#[derive(Clone, Copy, Debug, PartialEq, Eq, Structural)]
pub struct UnderlayLine {
    pub start: UnderlayPosition,
    pub end: UnderlayPosition,
}

/// The peers of one node, in the order in which they were added.
#[derive(Debug)]
pub struct PeerSet(pub Vec<Entity>);

impl PeerSet {
    /// A peer set holds each entity at most once.
    pub open spec fn wf(&self) -> bool {
        self.0@.no_duplicates()
    }

    pub open spec fn has(&self, e: Entity) -> bool {
        self.0@.contains(e)
    }

    pub fn new() -> (r: Self)
        ensures
            r.0@ == Seq::<Entity>::empty(),
    {
        PeerSet(Vec::new())
    }

    pub fn len(&self) -> (r: usize)
        ensures
            r == self.0@.len(),
    {
        self.0.len()
    }

    pub fn contains(&self, e: Entity) -> (r: bool)
        ensures
            r == self.has(e),
    {
        let mut i: usize = 0;
        while i < self.0.len()
            invariant
                0 <= i <= self.0@.len(),
                forall|k: int| 0 <= k < i ==> self.0@[k] != e,
            decreases self.0@.len() - i,
        {
            if self.0[i] == e {
                return true;
            }
            i = i + 1;
        }
        false
    }

    /// Adds `e` unless it is already there; returns whether it was added.
    pub fn insert(&mut self, e: Entity) -> (added: bool)
        requires
            old(self).wf(),
        ensures
            final(self).wf(),
            added == !old(self).has(e),
            final(self).0@ == (if added { old(self).0@.push(e) } else { old(self).0@ }),
    {
        if self.contains(e) {
            false
        } else {
            proof {
                assert forall|a: int, b: int|
                    0 <= a < b < self.0@.push(e).len() implies self.0@.push(e)[a] != self.0@.push(e)[b] by {
                    if b == self.0@.len() {
                        assert(self.0@[a] == self.0@.push(e)[a]);
                    }
                }
            }
            self.0.push(e);
            true
        }
    }
}

/// What an in-flight message carries besides its payload.
#[derive(Debug)]
pub struct Transit {
    pub source: Entity,
    pub dest: Entity,
    pub line: UnderlayLine,
    pub start: u64,
    pub end: u64,
    pub payload: String,
}

/// The entity store. The entity with id `i` owns slot `i` of each component
/// column. A node has a position; a message has a transit; every entity has a
/// peer set, which stays empty for messages.
#[derive(Debug)]
pub struct World {
    positions: Vec<Option<UnderlayPosition>>,
    peer_sets: Vec<PeerSet>,
    transits: Vec<Option<Transit>>,
}

impl World {
    pub closed spec fn len_spec(&self) -> nat {
        self.positions@.len()
    }

    /// The entity is alive in the store and is a node.
    pub closed spec fn node_spec(&self, e: Entity) -> bool {
        e.id < self.positions@.len() && self.positions@[e.id as int] is Some
    }

    /// The entity is alive in the store and is a message.
    pub closed spec fn message_spec(&self, e: Entity) -> bool {
        e.id < self.transits@.len() && self.transits@[e.id as int] is Some
    }

    pub closed spec fn position_spec(&self, e: Entity) -> UnderlayPosition {
        self.positions@[e.id as int]->Some_0
    }

    /// The peers of an entity, in insertion order.
    pub closed spec fn peers_spec(&self, e: Entity) -> Seq<Entity> {
        self.peer_sets@[e.id as int].0@
    }

    pub closed spec fn transit_spec(&self, e: Entity) -> Transit {
        self.transits@[e.id as int]->Some_0
    }

    /// The invariant of the store: the columns have one slot per entity, no
    /// entity is both a node and a message, each peer set holds distinct
    /// nodes and never its owner, and only nodes have peers.
    pub closed spec fn wf(&self) -> bool {
        &&& self.peer_sets@.len() == self.positions@.len()
        &&& self.transits@.len() == self.positions@.len()
        &&& self.positions@.len() < u64::MAX
        &&& forall|i: int|
            0 <= i < self.positions@.len() ==> !(self.positions@[i] is Some
                && self.transits@[i] is Some)
        &&& forall|i: int|
            0 <= i < self.positions@.len() ==> #[trigger] self.peer_sets@[i].wf()
        &&& forall|i: int, k: int|
            0 <= i < self.positions@.len() && 0 <= k < self.peer_sets@[i].0@.len() ==> {
                let p = #[trigger] self.peer_sets@[i].0@[k];
                &&& p.id != i
                &&& self.positions@[i] is Some
                &&& self.node_spec(p)
            }
    }

    /// The nodes among the first `n` entities, in order of creation.
    pub closed spec fn node_seq_upto(&self, n: nat) -> Seq<Entity>
        decreases n,
    {
        if n == 0 {
            Seq::empty()
        } else {
            let rest = self.node_seq_upto((n - 1) as nat);
            if self.node_spec(Entity { id: (n - 1) as u64 }) {
                rest.push(Entity { id: (n - 1) as u64 })
            } else {
                rest
            }
        }
    }

    /// Every node of the store, in order of creation.
    pub closed spec fn node_seq(&self) -> Seq<Entity> {
        self.node_seq_upto(self.positions@.len())
    }

    pub fn new() -> (w: Self)
        ensures
            w.wf(),
            w.len_spec() == 0,
    {
        World { positions: Vec::new(), peer_sets: Vec::new(), transits: Vec::new() }
    }

    pub fn len(&self) -> (r: usize)
        requires
            self.wf(),
        ensures
            r == self.len_spec(),
    {
        self.positions.len()
    }

    pub fn is_node(&self, e: Entity) -> (r: bool)
        requires
            self.wf(),
        ensures
            r == self.node_spec(e),
    {
        if e.id < self.positions.len() as u64 {
            self.positions[e.id as usize].is_some()
        } else {
            false
        }
    }
}

impl World {
    /// Adds a node at `position` with no peers.
    pub fn spawn_node(&mut self, position: UnderlayPosition) -> (e: Entity)
        requires
            old(self).wf(),
            old(self).len_spec() + 1 < u64::MAX,
        ensures
            final(self).wf(),
            e.id == old(self).len_spec(),
            final(self).len_spec() == old(self).len_spec() + 1,
            final(self).node_spec(e),
            final(self).position_spec(e) == position,
            final(self).peers_spec(e) == Seq::<Entity>::empty(),
            forall|x: Entity| #[trigger]
                old(self).node_spec(x) ==> final(self).node_spec(x) && final(self).position_spec(x)
                    == old(self).position_spec(x) && final(self).peers_spec(x) == old(self).peers_spec(x),
            forall|x: Entity| #[trigger]
                final(self).node_spec(x) ==> old(self).node_spec(x) || x == e,
            forall|x: Entity| #[trigger]
                final(self).message_spec(x) == old(self).message_spec(x),
            forall|x: Entity| #[trigger]
                old(self).message_spec(x) ==> final(self).transit_spec(x) == old(self).transit_spec(x),
    {
        let e = Entity { id: self.positions.len() as u64 };
        self.positions.push(Some(position));
        self.peer_sets.push(PeerSet::new());
        self.transits.push(None);
        proof {
            assert forall|i: int, k: int|
                0 <= i < self.positions@.len() && 0 <= k < self.peer_sets@[i].0@.len() implies {
                let p = #[trigger] self.peer_sets@[i].0@[k];
                &&& p.id != i
                &&& self.positions@[i] is Some
                &&& self.node_spec(p)
            } by {
                assert(i < old(self).positions@.len());
                assert(self.peer_sets@[i] == old(self).peer_sets@[i]);
            }
        }
        e
    }

    /// Adds a message entity carrying `transit`.
    pub fn spawn_message(&mut self, transit: Transit) -> (e: Entity)
        requires
            old(self).wf(),
            old(self).len_spec() + 1 < u64::MAX,
        ensures
            final(self).wf(),
            e.id == old(self).len_spec(),
            final(self).len_spec() == old(self).len_spec() + 1,
            final(self).message_spec(e),
            final(self).transit_spec(e) == transit,
            forall|x: Entity| #[trigger]
                final(self).node_spec(x) == old(self).node_spec(x),
            forall|x: Entity| #[trigger]
                old(self).node_spec(x) ==> final(self).position_spec(x) == old(self).position_spec(x) && final(self).peers_spec(x) == old(self).peers_spec(x),
            forall|x: Entity| #[trigger]
                old(self).message_spec(x) ==> final(self).message_spec(x) && final(self).transit_spec(x) == old(self).transit_spec(x),
    {
        let e = Entity { id: self.positions.len() as u64 };
        self.positions.push(None);
        self.peer_sets.push(PeerSet::new());
        self.transits.push(Some(transit));
        proof {
            assert forall|i: int, k: int|
                0 <= i < self.positions@.len() && 0 <= k < self.peer_sets@[i].0@.len() implies {
                let p = #[trigger] self.peer_sets@[i].0@[k];
                &&& p.id != i
                &&& self.positions@[i] is Some
                &&& self.node_spec(p)
            } by {
                assert(i < old(self).positions@.len());
                assert(self.peer_sets@[i] == old(self).peer_sets@[i]);
            }
        }
        e
    }

    pub fn position(&self, e: Entity) -> (r: UnderlayPosition)
        requires
            self.wf(),
            self.node_spec(e),
        ensures
            r == self.position_spec(e),
    {
        assert(e.id < self.positions.len());
        let i = e.id as usize;
        self.positions[i].unwrap()
    }

    pub fn peers(&self, e: Entity) -> (r: &PeerSet)
        requires
            self.wf(),
            self.node_spec(e),
        ensures
            r.0@ == self.peers_spec(e),
            r.wf(),
    {
        assert(e.id < self.positions.len());
        let i = e.id as usize;
        &self.peer_sets[i]
    }

    pub fn transit(&self, e: Entity) -> (r: &Transit)
        requires
            self.wf(),
            self.message_spec(e),
        ensures
            *r == self.transit_spec(e),
    {
        assert(e.id < self.positions.len());
        let i = e.id as usize;
        self.transits[i].as_ref().unwrap()
    }

    /// Makes `peer` a peer of `node`, unless it is one already or is `node`
    /// itself. Returns whether the peer set grew.
    pub fn add_peer(&mut self, node: Entity, peer: Entity) -> (added: bool)
        requires
            old(self).wf(),
            old(self).node_spec(node),
            old(self).node_spec(peer),
        ensures
            final(self).wf(),
            added == (node != peer && !old(self).peers_spec(node).contains(peer)),
            final(self).peers_spec(node) == (if added {
                old(self).peers_spec(node).push(peer)
            } else {
                old(self).peers_spec(node)
            }),
            forall|y: Entity|
                #[trigger] final(self).peers_spec(node).contains(y) <==> (old(self).peers_spec(
                    node,
                ).contains(y) || (node != peer && y == peer)),
            final(self).len_spec() == old(self).len_spec(),
            forall|x: Entity| #[trigger]
                final(self).node_spec(x) == old(self).node_spec(x),
            forall|x: Entity| #[trigger]
                final(self).message_spec(x) == old(self).message_spec(x),
            forall|x: Entity| #[trigger]
                old(self).message_spec(x) ==> final(self).transit_spec(x) == old(self).transit_spec(x),
            forall|x: Entity| #[trigger]
                old(self).node_spec(x) ==> final(self).position_spec(x) == old(self).position_spec(x),
            forall|x: Entity|
                old(self).node_spec(x) && x != node ==> #[trigger] final(self).peers_spec(x)
                    == old(self).peers_spec(x),
    {
        if node == peer {
            return false;
        }
        assert(node.id < self.positions.len());
        let i = node.id as usize;
        let ghost before = self.peer_sets@[i as int];
        let added = self.peer_sets[i].insert(peer);
        proof {
            assert forall|j: int, k: int|
                0 <= j < self.positions@.len() && 0 <= k < self.peer_sets@[j].0@.len() implies {
                let p = #[trigger] self.peer_sets@[j].0@[k];
                &&& p.id != j
                &&& self.positions@[j] is Some
                &&& self.node_spec(p)
            } by {
                if j == i && k == before.0@.len() {
                } else if j == i {
                    assert(self.peer_sets@[j].0@[k] == before.0@[k]);
                    assert(old(self).peer_sets@[j].0@[k] == before.0@[k]);
                } else {
                    assert(self.peer_sets@[j] == old(self).peer_sets@[j]);
                }
            }
            assert forall|j: int|
                0 <= j < self.positions@.len() implies #[trigger] self.peer_sets@[j].wf() by {
                if j != i {
                    assert(self.peer_sets@[j] == old(self).peer_sets@[j]);
                }
            }
        }
        proof {
            assert forall|y: Entity|
                #[trigger] self.peers_spec(node).contains(y) <==> (old(self).peers_spec(
                    node,
                ).contains(y) || (node != peer && y == peer)) by {
                let o = old(self).peers_spec(node);
                if added {
                    assert(self.peers_spec(node) == o.push(peer));
                    if o.contains(y) {
                        let k = choose|k: int| 0 <= k < o.len() && o[k] == y;
                        assert(o.push(peer)[k] == y);
                    }
                    if y == peer {
                        assert(o.push(peer)[o.len() as int] == y);
                    }
                    if o.push(peer).contains(y) {
                        let k = choose|k: int| 0 <= k < o.len() + 1 && o.push(peer)[k] == y;
                        if k < o.len() {
                            assert(o[k] == y);
                        }
                    }
                }
            }
        }
        added
    }

    /// Empties the peer set of `node`.
    pub fn clear_peers(&mut self, node: Entity)
        requires
            old(self).wf(),
            old(self).node_spec(node),
        ensures
            final(self).wf(),
            final(self).peers_spec(node) == Seq::<Entity>::empty(),
            final(self).len_spec() == old(self).len_spec(),
            forall|x: Entity| #[trigger]
                final(self).node_spec(x) == old(self).node_spec(x),
            forall|x: Entity| #[trigger]
                final(self).message_spec(x) == old(self).message_spec(x),
            forall|x: Entity| #[trigger]
                old(self).message_spec(x) ==> final(self).transit_spec(x) == old(self).transit_spec(x),
            forall|x: Entity| #[trigger]
                old(self).node_spec(x) ==> final(self).position_spec(x) == old(self).position_spec(x),
            forall|x: Entity|
                old(self).node_spec(x) && x != node ==> #[trigger] final(self).peers_spec(x)
                    == old(self).peers_spec(x),
    {
        assert(node.id < self.positions.len());
        let i = node.id as usize;
        self.peer_sets[i] = PeerSet::new();
        proof {
            assert forall|j: int, k: int|
                0 <= j < self.positions@.len() && 0 <= k < self.peer_sets@[j].0@.len() implies {
                let p = #[trigger] self.peer_sets@[j].0@[k];
                &&& p.id != j
                &&& self.positions@[j] is Some
                &&& self.node_spec(p)
            } by {
                if j == i {
                    assert(self.peer_sets@[j].0@.len() == 0);
                }
                assert(self.peer_sets@[j] == old(self).peer_sets@[j]);
                assert(old(self).peer_sets@[j].0@[k] == self.peer_sets@[j].0@[k]);
            }
            assert forall|j: int|
                0 <= j < self.positions@.len() implies #[trigger] self.peer_sets@[j].wf() by {
                if j != i {
                    assert(self.peer_sets@[j] == old(self).peer_sets@[j]);
                }
            }
        }
    }

    /// Every node of the store, in order of creation.
    pub fn nodes(&self) -> (r: Vec<Entity>)
        requires
            self.wf(),
        ensures
            r@ == self.node_seq(),
            forall|x: Entity| r@.contains(x) <==> self.node_spec(x),
            r@.no_duplicates(),
            forall|a: int, b: int| 0 <= a < b < r@.len() ==> r@[a].id < r@[b].id,
    {
        let mut r: Vec<Entity> = Vec::new();
        let mut i: usize = 0;
        while i < self.positions.len()
            invariant
                self.wf(),
                0 <= i <= self.positions@.len(),
                forall|x: Entity| r@.contains(x) <==> (self.node_spec(x) && x.id < i),
                forall|a: int, b: int| 0 <= a < b < r@.len() ==> r@[a].id < r@[b].id,
                forall|a: int| 0 <= a < r@.len() ==> r@[a].id < i,
                r@ == self.node_seq_upto(i as nat),
                self.positions@.len() < u64::MAX,
            decreases self.positions@.len() - i,
        {
            assert(self.node_spec(Entity { id: i as u64 }) == self.positions@[i as int] is Some);
            if self.positions[i].is_some() {
                let e = Entity { id: i as u64 };
                proof {
                    assert forall|x: Entity| r@.push(e).contains(x) <==> (self.node_spec(x)
                        && x.id < i + 1) by {
                        if r@.push(e).contains(x) && x != e {
                            let k = choose|k: int| 0 <= k < r@.push(e).len() && r@.push(e)[k] == x;
                            assert(r@[k] == x);
                        }
                        if x == e {
                            assert(r@.push(e)[r@.len() as int] == e);
                        } else if r@.contains(x) {
                            let k = choose|k: int| 0 <= k < r@.len() && r@[k] == x;
                            assert(r@.push(e)[k] == x);
                        }
                    }
                }
                r.push(e);
            }
            i = i + 1;
        }
        proof {
            assert forall|a: int, b: int| 0 <= a < b < r@.len() implies r@[a] != r@[b] by {
                assert(r@[a].id < r@[b].id);
            }
        }
        r
    }
}

/// In a well-formed store, every peer of a node is another node: no node is
/// ever its own peer.
pub proof fn lemma_peers_are_other_nodes(w: &World, n: Entity, p: Entity)
    requires
        w.wf(),
        w.node_spec(n),
        w.peers_spec(n).contains(p),
    ensures
        w.node_spec(p),
        p != n,
{
    let k = choose|k: int| 0 <= k < w.peers_spec(n).len() && w.peers_spec(n)[k] == p;
    assert(w.peer_sets@[n.id as int].0@[k] == p);
}

/// No node is its own peer.
pub proof fn lemma_peers_irreflexive(w: &World, n: Entity)
    requires
        w.wf(),
        w.node_spec(n),
    ensures
        !w.peers_spec(n).contains(n),
{
    if w.peers_spec(n).contains(n) {
        lemma_peers_are_other_nodes(w, n, n);
    }
}

} // verus!
