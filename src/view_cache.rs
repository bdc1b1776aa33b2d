//! The edge map that a renderer draws: every linked pair of nodes once, with
//! the direction of its link.
use crate::events::Event;
use crate::simulation::Simulation;
use crate::world::{lemma_peers_are_other_nodes, Entity, UnderlayLine, World};
use vstd::prelude::*;

verus! {

/// An unordered pair of entities, stored with the smaller id on the left.
#[derive(Clone, Copy, Debug, PartialEq, Eq, Structural, PartialOrd, Ord, Hash)]
pub struct EdgeEndpoints {
    left: Entity,
    right: Entity,
}

impl View for EdgeEndpoints {
    type V = (Entity, Entity);

    closed spec fn view(&self) -> (Entity, Entity) {
        (self.left, self.right)
    }
}

/// The pair `{a, b}` with the smaller id first.
pub open spec fn canonical(a: Entity, b: Entity) -> (Entity, Entity) {
    if a.id <= b.id {
        (a, b)
    } else {
        (b, a)
    }
}

/// The canonical form of a pair does not depend on the order of its members.
pub proof fn lemma_canonical_symmetric(a: Entity, b: Entity)
    ensures
        canonical(a, b) == canonical(b, a),
{
}

impl EdgeEndpoints {
    pub fn new(node1: Entity, node2: Entity) -> (r: Self)
        ensures
            r@ == canonical(node1, node2),
    {
        let (left, right) = if node1.id <= node2.id {
            (node1, node2)
        } else {
            (node2, node1)
        };
        EdgeEndpoints { left, right }
    }

    pub fn left(&self) -> (r: Entity)
        ensures
            r == self@.0,
    {
        self.left
    }

    pub fn right(&self) -> (r: Entity)
        ensures
            r == self@.1,
    {
        self.right
    }
}

/// Which way a pair of nodes is linked.
#[derive(Clone, Copy, Debug, PartialEq, Eq, Structural)]
pub enum EdgeType {
    /// Both ways.
    Undirected,
    /// From the left (smaller id) node to the right one only.
    LeftRight,
    /// From the right (larger id) node to the left one only.
    RightLeft,
}

/// One entry of the edge map.
#[derive(Clone, Copy, Debug, PartialEq, Eq, Structural)]
pub struct Edge {
    pub endpoints: EdgeEndpoints,
    pub kind: EdgeType,
    pub line: UnderlayLine,
}

/// `b` is a peer of the node `a`.
pub open spec fn linked(w: &World, a: Entity, b: Entity) -> bool {
    w.node_spec(a) && w.peers_spec(a).contains(b)
}

/// The kind of the edge between `l` and `r`, given whether `l` links to `r`
/// and whether `r` links to `l`; `None` where neither does.
pub open spec fn edge_kind(lr: bool, rl: bool) -> Option<EdgeType> {
    if lr && rl {
        Some(EdgeType::Undirected)
    } else if lr {
        Some(EdgeType::LeftRight)
    } else if rl {
        Some(EdgeType::RightLeft)
    } else {
        None
    }
}

/// The kind of the edge between `k.0` and `k.1` in `w`.
pub open spec fn classify(w: &World, k: (Entity, Entity)) -> Option<EdgeType> {
    edge_kind(linked(w, k.0, k.1), linked(w, k.1, k.0))
}

/// The line drawn for an edge: from the node a one-way link leaves, and from
/// left to right for a two-way one.
pub open spec fn edge_line(w: &World, k: (Entity, Entity), kind: EdgeType) -> UnderlayLine {
    if kind == EdgeType::RightLeft {
        UnderlayLine { start: w.position_spec(k.1), end: w.position_spec(k.0) }
    } else {
        UnderlayLine { start: w.position_spec(k.0), end: w.position_spec(k.1) }
    }
}

/// `edges` is the edge map of `w`: one entry per linked pair, under its
/// canonical endpoints, with its kind and line.
pub open spec fn is_edge_map_of(edges: Seq<Edge>, w: &World) -> bool {
    &&& forall|a: int, b: int|
        0 <= a < b < edges.len() ==> edges[a].endpoints@ != edges[b].endpoints@
    &&& forall|a: int|
        0 <= a < edges.len() ==> {
            let k = #[trigger] edges[a].endpoints@;
            &&& k.0.id <= k.1.id
            &&& classify(w, k) == Some(edges[a].kind)
            &&& edges[a].line == edge_line(w, k, edges[a].kind)
        }
    &&& forall|l: Entity, r: Entity|
        l.id <= r.id && #[trigger] classify(w, (l, r)) is Some ==> exists|a: int|
            0 <= a < edges.len() && #[trigger] edges[a].endpoints@ == (l, r)
}

/// `edges` is the edge map of the directed links in `done`, drawn with the
/// positions of `w`.
spec fn tracks(edges: Seq<Edge>, done: Set<(Entity, Entity)>, w: &World) -> bool {
    &&& forall|a: int, b: int|
        0 <= a < b < edges.len() ==> edges[a].endpoints@ != edges[b].endpoints@
    &&& forall|a: int|
        0 <= a < edges.len() ==> {
            let k = #[trigger] edges[a].endpoints@;
            &&& k.0.id <= k.1.id
            &&& edge_kind(done.contains(k), done.contains((k.1, k.0))) == Some(edges[a].kind)
            &&& edges[a].line == edge_line(w, k, edges[a].kind)
        }
    &&& forall|l: Entity, r: Entity|
        l.id <= r.id && #[trigger] edge_kind(done.contains((l, r)), done.contains((r, l))) is Some
            ==> exists|a: int| 0 <= a < edges.len() && #[trigger] edges[a].endpoints@ == (l, r)
}

/// The position of `endpoints` in `edges`, if any.
fn find_edge(edges: &Vec<Edge>, endpoints: EdgeEndpoints) -> (r: Option<usize>)
    ensures
        r matches Some(i) ==> i < edges@.len() && edges@[i as int].endpoints@ == endpoints@,
        r is None ==> forall|i: int| 0 <= i < edges@.len() ==> edges@[i].endpoints@ != endpoints@,
{
    let mut i: usize = 0;
    while i < edges.len()
        invariant
            0 <= i <= edges@.len(),
            forall|k: int| 0 <= k < i ==> edges@[k].endpoints@ != endpoints@,
        decreases edges@.len() - i,
    {
        if edges[i].endpoints == endpoints {
            return Some(i);
        }
        i = i + 1;
    }
    None
}

/// The derived edge map that a renderer draws, rebuilt on every command.
#[derive(Debug)]
pub struct ViewCache {
    edges: Vec<Edge>,
}

impl ViewCache {
    pub closed spec fn entries(&self) -> Seq<Edge> {
        self.edges@
    }

    pub fn new() -> (r: Self)
        ensures
            r.entries() == Seq::<Edge>::empty(),
    {
        ViewCache { edges: Vec::new() }
    }

    pub fn edges(&self) -> (r: &Vec<Edge>)
        ensures
            r@ == self.entries(),
    {
        &self.edges
    }

    /// The entry for `endpoints`, if there is one.
    pub fn get(&self, endpoints: EdgeEndpoints) -> (r: Option<Edge>)
        ensures
            r is None <==> forall|i: int|
                0 <= i < self.entries().len() ==> self.entries()[i].endpoints@ != endpoints@,
            r matches Some(e) ==> exists|i: int|
                0 <= i < self.entries().len() && self.entries()[i] == e && e.endpoints@
                    == endpoints@,
    {
        match find_edge(&self.edges, endpoints) {
            Some(i) => Some(self.edges[i]),
            None => None,
        }
    }

    /// Whether there is an entry for `endpoints`.
    pub fn contains_key(&self, endpoints: EdgeEndpoints) -> (r: bool)
        ensures
            r <==> exists|i: int|
                0 <= i < self.entries().len() && self.entries()[i].endpoints@ == endpoints@,
    {
        find_edge(&self.edges, endpoints).is_some()
    }

    /// Replaces the whole map by the edge map of `world`.
    pub fn rebuild_edges(&mut self, world: &World)
        requires
            world.wf(),
        ensures
            is_edge_map_of(final(self).entries(), world),
    {
        self.edges = Vec::new();
        let nodes = world.nodes();
        let ghost mut done: Set<(Entity, Entity)> = Set::empty();
        let mut i: usize = 0;
        while i < nodes.len()
            invariant
                world.wf(),
                forall|x: Entity| nodes@.contains(x) <==> world.node_spec(x),
                nodes@.no_duplicates(),
                0 <= i <= nodes@.len(),
                forall|a: Entity, b: Entity|
                    #[trigger] done.contains((a, b)) <==> (linked(world, a, b) && exists|k: int|
                        0 <= k < i && nodes@[k] == a),
                tracks(self.edges@, done, world),
            decreases nodes@.len() - i,
        {
            let n = nodes[i];
            assert(nodes@.contains(n));
            let ps = world.peers(n);
            let mut j: usize = 0;
            while j < ps.0.len()
                invariant
                    world.wf(),
                    world.node_spec(n),
                    n == nodes@[i as int],
                    0 <= i < nodes@.len(),
                    nodes@.no_duplicates(),
                    ps.0@ == world.peers_spec(n),
                    ps.wf(),
                    0 <= j <= ps.0@.len(),
                    forall|a: Entity, b: Entity|
                        #[trigger] done.contains((a, b)) <==> (linked(world, a, b) && ((exists|k: int|
                            0 <= k < i && nodes@[k] == a) || (a == n && exists|m: int|
                            0 <= m < j && ps.0@[m] == b))),
                    tracks(self.edges@, done, world),
                decreases ps.0@.len() - j,
            {
                let p = ps.0[j];
                proof {
                    assert(world.peers_spec(n).contains(p));
                    lemma_peers_are_other_nodes(world, n, p);
                    if done.contains((n, p)) {
                        if exists|k: int| 0 <= k < i && nodes@[k] == n {
                            let k = choose|k: int| 0 <= k < i && nodes@[k] == n;
                            assert(nodes@[k] == nodes@[i as int]);
                        } else {
                            let m = choose|m: int| 0 <= m < j && ps.0@[m] == p;
                            assert(ps.0@[m] == ps.0@[j as int]);
                        }
                    }
                    assert(!done.contains((n, p)));
                }
                let key = EdgeEndpoints::new(n, p);
                let ghost old_edges = self.edges@;
                let ghost new_done = done.insert((n, p));
                proof {
                    assert forall|l: Entity, r: Entity|
                        l.id <= r.id && (l, r) != key@ implies new_done.contains((l, r))
                        == done.contains((l, r)) && new_done.contains((r, l)) == done.contains(
                        (r, l),
                    ) by {
                        if (r, l) == (n, p) {
                            assert(p.id <= n.id);
                        }
                    }
                }
                match find_edge(&self.edges, key) {
                    Some(idx) => {
                        let line = UnderlayLine {
                            start: world.position(key.left()),
                            end: world.position(key.right()),
                        };
                        proof {
                            let k = old_edges[idx as int].endpoints@;
                            assert(edge_kind(done.contains(k), done.contains((k.1, k.0))) is Some);
                            if key@ == (n, p) {
                                assert(done.contains((p, n)));
                            } else {
                                assert(done.contains((p, n)));
                            }
                        }
                        self.edges[idx] = Edge { endpoints: key, kind: EdgeType::Undirected, line };
                        proof {
                            let e = self.edges@;
                            assert forall|a: int| 0 <= a < e.len() && a != idx implies e[a]
                                == old_edges[a] by {}
                            assert forall|a: int, b: int|
                                0 <= a < b < e.len() implies e[a].endpoints@
                                != e[b].endpoints@ by {
                                if a != idx && b != idx {
                                    assert(old_edges[a].endpoints@ != old_edges[b].endpoints@);
                                } else if a == idx {
                                    assert(old_edges[a].endpoints@ != old_edges[b].endpoints@);
                                } else {
                                    assert(old_edges[a].endpoints@ != old_edges[b].endpoints@);
                                }
                            }
                            assert forall|a: int| 0 <= a < e.len() implies {
                                let k = #[trigger] e[a].endpoints@;
                                &&& k.0.id <= k.1.id
                                &&& edge_kind(new_done.contains(k), new_done.contains((k.1, k.0)))
                                    == Some(e[a].kind)
                                &&& e[a].line == edge_line(world, k, e[a].kind)
                            } by {
                                if a != idx {
                                    let k = old_edges[a].endpoints@;
                                    assert(k != key@);
                                    assert(k.0.id <= k.1.id);
                                }
                            }
                            assert forall|l: Entity, r: Entity|
                                l.id <= r.id && #[trigger] edge_kind(
                                    new_done.contains((l, r)),
                                    new_done.contains((r, l)),
                                ) is Some implies exists|a: int|
                                0 <= a < e.len() && #[trigger] e[a].endpoints@ == (l, r) by {
                                if (l, r) == key@ {
                                    assert(e[idx as int].endpoints@ == (l, r));
                                } else {
                                    assert(edge_kind(done.contains((l, r)), done.contains((r, l))) is Some);
                                    let a = choose|a: int|
                                        0 <= a < old_edges.len() && #[trigger] old_edges[a].endpoints@
                                            == (l, r);
                                    assert(e[a].endpoints@ == (l, r));
                                }
                            }
                        }
                    },
                    None => {
                        let kind = if key.left() == n {
                            EdgeType::LeftRight
                        } else {
                            EdgeType::RightLeft
                        };
                        let line = UnderlayLine {
                            start: world.position(n),
                            end: world.position(p),
                        };
                        proof {
                            if done.contains((p, n)) {
                                let kk = key@;
                                assert(edge_kind(done.contains(kk), done.contains((kk.1, kk.0))) is Some);
                            }
                        }
                        self.edges.push(Edge { endpoints: key, kind, line });
                        proof {
                            let e = self.edges@;
                            assert forall|a: int| 0 <= a < old_edges.len() implies e[a]
                                == old_edges[a] by {}
                            assert forall|a: int, b: int|
                                0 <= a < b < e.len() implies e[a].endpoints@
                                != e[b].endpoints@ by {
                                if b < old_edges.len() {
                                    assert(old_edges[a].endpoints@ != old_edges[b].endpoints@);
                                }
                            }
                            assert forall|a: int| 0 <= a < e.len() implies {
                                let k = #[trigger] e[a].endpoints@;
                                &&& k.0.id <= k.1.id
                                &&& edge_kind(new_done.contains(k), new_done.contains((k.1, k.0)))
                                    == Some(e[a].kind)
                                &&& e[a].line == edge_line(world, k, e[a].kind)
                            } by {
                                if a < old_edges.len() {
                                    let k = old_edges[a].endpoints@;
                                    assert(k != key@);
                                    assert(k.0.id <= k.1.id);
                                }
                            }
                            assert forall|l: Entity, r: Entity|
                                l.id <= r.id && #[trigger] edge_kind(
                                    new_done.contains((l, r)),
                                    new_done.contains((r, l)),
                                ) is Some implies exists|a: int|
                                0 <= a < e.len() && #[trigger] e[a].endpoints@ == (l, r) by {
                                if (l, r) == key@ {
                                    assert(e[old_edges.len() as int].endpoints@ == (l, r));
                                } else {
                                    assert(edge_kind(done.contains((l, r)), done.contains((r, l))) is Some);
                                    let a = choose|a: int|
                                        0 <= a < old_edges.len() && #[trigger] old_edges[a].endpoints@
                                            == (l, r);
                                    assert(e[a].endpoints@ == (l, r));
                                }
                            }
                        }
                    },
                }
                proof {
                    done = new_done;
                    assert forall|a: Entity, b: Entity|
                        #[trigger] done.contains((a, b)) <==> (linked(world, a, b) && ((exists|k: int|
                            0 <= k < i && nodes@[k] == a) || (a == n && exists|m: int|
                            0 <= m < j + 1 && ps.0@[m] == b))) by {
                        if a == n && b == p {
                            assert(ps.0@[j as int] == b);
                        }
                        if a == n && exists|m: int| 0 <= m < j + 1 && ps.0@[m] == b {
                            let m = choose|m: int| 0 <= m < j + 1 && ps.0@[m] == b;
                            if m < j {
                            }
                        }
                    }
                }
                j = j + 1;
            }
            proof {
                assert forall|a: Entity, b: Entity|
                    #[trigger] done.contains((a, b)) <==> (linked(world, a, b) && exists|k: int|
                        0 <= k < i + 1 && nodes@[k] == a) by {
                    if exists|k: int| 0 <= k < i + 1 && nodes@[k] == a {
                        let k = choose|k: int| 0 <= k < i + 1 && nodes@[k] == a;
                        if k < i {
                            assert(exists|k: int| 0 <= k < i && nodes@[k] == a);
                        } else if linked(world, a, b) {
                            assert(world.peers_spec(n).contains(b));
                            let m = choose|m: int| 0 <= m < ps.0@.len() && ps.0@[m] == b;
                        }
                    }
                    if done.contains((a, b)) {
                        if exists|k: int| 0 <= k < i && nodes@[k] == a {
                            let k = choose|k: int| 0 <= k < i && nodes@[k] == a;
                            assert(0 <= k < i + 1 && nodes@[k] == a);
                        } else {
                            assert(nodes@[i as int] == a);
                        }
                    }
                }
            }
            i = i + 1;
        }
        proof {
            assert forall|a: Entity, b: Entity| #[trigger] done.contains((a, b)) == linked(
                world,
                a,
                b,
            ) by {
                if linked(world, a, b) {
                    assert(nodes@.contains(a));
                    let k = choose|k: int| 0 <= k < nodes@.len() && nodes@[k] == a;
                    assert(exists|k: int| 0 <= k < i && nodes@[k] == a);
                }
            }
            let e = self.edges@;
            assert forall|a: int| 0 <= a < e.len() implies {
                let k = #[trigger] e[a].endpoints@;
                &&& k.0.id <= k.1.id
                &&& classify(world, k) == Some(e[a].kind)
                &&& e[a].line == edge_line(world, k, e[a].kind)
            } by {
                let k = e[a].endpoints@;
                assert(done.contains(k) == linked(world, k.0, k.1));
                assert(done.contains((k.1, k.0)) == linked(world, k.1, k.0));
            }
            assert forall|l: Entity, r: Entity|
                l.id <= r.id && #[trigger] classify(world, (l, r)) is Some implies exists|a: int|
                0 <= a < e.len() && #[trigger] e[a].endpoints@ == (l, r) by {
                assert(done.contains((l, r)) == linked(world, l, r));
                assert(done.contains((r, l)) == linked(world, r, l));
                assert(edge_kind(done.contains((l, r)), done.contains((r, l))) is Some);
            }
        }
    }

    /// Rebuilds the map on a command; other events leave it as it is.
    pub fn handle_event(&mut self, sim: &Simulation, event: &Event)
        requires
            sim.wf(),
        ensures
            event is Command ==> is_edge_map_of(final(self).entries(), &sim.world),
            !(event is Command) ==> final(self).entries() == old(self).entries(),
    {
        if let Event::Command(_) = event {
            self.rebuild_edges(&sim.world);
        }
    }
}

} // verus!
