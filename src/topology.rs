//! Peer relations between nodes: single edges, random growth, random choice,
//! and a planar topology built from a Delaunay triangulation of the nodes'
//! positions.
use crate::events::{inserted_in_order, Event, Scheduled};
use crate::random::{choose_one, choose_several, draw_in_range};
use crate::simulation::Simulation;
use crate::world::{lemma_peers_are_other_nodes, lemma_peers_irreflexive, Entity, PeerSet, World};
use vstd::prelude::*;

verus! {

/// What a topology operation could not do.
#[derive(Clone, Copy, Debug, PartialEq, Eq, Structural)]
pub enum TopologyError {
    /// The node has no peer to send to.
    NoPeersAvailable,
    /// No triangulation exists for the nodes' positions (fewer than three
    /// distinct points, or all of them on one line).
    NoTriangulation,
}

/// Everything of the store but the peer sets is the same in `a` and `b`.
pub open spec fn only_peers_changed(a: &World, b: &World) -> bool {
    &&& b.len_spec() == a.len_spec()
    &&& forall|x: Entity| #[trigger] b.node_spec(x) == a.node_spec(x)
    &&& forall|x: Entity| #[trigger] b.message_spec(x) == a.message_spec(x)
    &&& forall|x: Entity| #[trigger]
        a.node_spec(x) ==> b.position_spec(x) == a.position_spec(x)
    &&& forall|x: Entity| #[trigger]
        a.message_spec(x) ==> b.transit_spec(x) == a.transit_spec(x)
}

/// Everything of the simulation but its store and its random stream is the
/// same in `a` and `b`.
pub open spec fn only_world_changed(a: &Simulation, b: &Simulation) -> bool {
    &&& b.queue == a.queue
    &&& b.logger == a.logger
    &&& b.time == a.time
    &&& b.width == a.width
    &&& b.height == a.height
    &&& b.message_delay == a.message_delay
}

/// The peers of `node`.
pub fn peers(sim: &Simulation, node: Entity) -> (r: &PeerSet)
    requires
        sim.wf(),
        sim.world.node_spec(node),
    ensures
        r.0@ == sim.world.peers_spec(node),
        r.wf(),
{
    sim.world.peers(node)
}

/// Makes `peer` a peer of `node` (one direction only). Adding a peer twice,
/// or a node to itself, changes nothing.
pub fn add_peer(sim: &mut Simulation, node: Entity, peer: Entity)
    requires
        old(sim).wf(),
        old(sim).world.node_spec(node),
        old(sim).world.node_spec(peer),
    ensures
        final(sim).wf(),
        final(sim).world.peers_spec(node) == (if node != peer && !old(sim).world.peers_spec(node).contains(peer) {
            old(sim).world.peers_spec(node).push(peer)
        } else {
            old(sim).world.peers_spec(node)
        }),
        forall|y: Entity|
            #[trigger] final(sim).world.peers_spec(node).contains(y) <==> (old(sim).world.peers_spec(node).contains(y) || (node != peer && y == peer)),
        forall|x: Entity|
            old(sim).world.node_spec(x) && x != node ==> #[trigger] final(sim).world.peers_spec(x)
                == old(sim).world.peers_spec(x),
        only_peers_changed(&old(sim).world, &final(sim).world),
        only_world_changed(&*old(sim), &*final(sim)),
        final(sim).rng == old(sim).rng,
{
    sim.world.add_peer(node, peer);
}

/// A peer of `node` chosen at random; `None` if it has none.
pub fn pick_random_peer(sim: &mut Simulation, node: Entity) -> (r: Option<Entity>)
    requires
        old(sim).wf(),
        old(sim).world.node_spec(node),
    ensures
        final(sim).wf(),
        final(sim).world == old(sim).world,
        only_world_changed(&*old(sim), &*final(sim)),
        r is None <==> old(sim).world.peers_spec(node).len() == 0,
        r matches Some(p) ==> old(sim).world.peers_spec(node).contains(p),
{
    choose_one(&mut sim.rng, &sim.world.peers(node).0)
}

proof fn lemma_only_peers_changed_trans(a: &World, b: &World, c: &World)
    requires
        only_peers_changed(a, b),
        only_peers_changed(b, c),
    ensures
        only_peers_changed(a, c),
{
    assert forall|x: Entity| a.node_spec(x) implies #[trigger] c.position_spec(x) == a.position_spec(
        x,
    ) by {
        assert(b.node_spec(x));
    }
    assert forall|x: Entity| a.message_spec(x) implies #[trigger] c.transit_spec(x) == a.transit_spec(
        x,
    ) by {
        assert(b.message_spec(x));
    }
}

/// Sends `payload` from `source` to one of its peers chosen at random; fails
/// with `NoPeersAvailable`, changing nothing, where it has none.
pub fn send_message_to_random_peer(sim: &mut Simulation, source: Entity, payload: String) -> (r:
    Result<Entity, TopologyError>)
    requires
        old(sim).wf(),
        old(sim).world.node_spec(source),
        old(sim).world.len_spec() + 1 < u64::MAX,
        old(sim).time.now_spec() + old(sim).message_delay <= u64::MAX,
        old(sim).queue.next_seq_spec() < u64::MAX,
    ensures
        final(sim).wf(),
        final(sim).time == old(sim).time,
        final(sim).logger == old(sim).logger,
        r is Err <==> old(sim).world.peers_spec(source).len() == 0,
        r matches Err(e) ==> e == TopologyError::NoPeersAvailable && final(sim).world == old(sim).world && final(sim).queue == old(sim).queue,
        r matches Ok(m) ==> {
            &&& m.id == old(sim).world.len_spec()
            &&& final(sim).world.message_spec(m)
            &&& final(sim).world.transit_spec(m).source == source
            &&& old(sim).world.peers_spec(source).contains(final(sim).world.transit_spec(m).dest)
            &&& final(sim).world.transit_spec(m).payload == payload
            &&& final(sim).world.transit_spec(m).start == old(sim).time.now_spec()
            &&& final(sim).world.transit_spec(m).end == old(sim).time.now_spec() + old(sim).message_delay
            &&& inserted_in_order(
                old(sim).queue.view_entries(),
                final(sim).queue.view_entries(),
                Scheduled {
                    at: final(sim).world.transit_spec(m).end,
                    seq: old(sim).queue.next_seq_spec(),
                    event: Event::MessageArrived(m),
                },
            )
        },
        forall|x: Entity| #[trigger]
            old(sim).world.node_spec(x) ==> final(sim).world.node_spec(x) && final(sim).world.peers_spec(x) == old(sim).world.peers_spec(x),
{
    match pick_random_peer(sim, source) {
        Some(dest) => {
            proof {
                lemma_peers_are_other_nodes(&sim.world, source, dest);
            }
            Ok(sim.send_message(source, dest, payload))
        },
        None => Err(TopologyError::NoPeersAvailable),
    }
}

/// `x` could become a new peer of `node`: another node that is not a peer yet.
pub open spec fn is_candidate(w: &World, node: Entity, x: Entity) -> bool {
    w.node_spec(x) && x != node && !w.peers_spec(node).contains(x)
}

/// How many nodes could become new peers of `node`.
pub open spec fn candidate_count(w: &World, node: Entity) -> nat {
    Set::new(|x: Entity| is_candidate(w, node, x)).len()
}

/// `n` capped at `k`.
pub open spec fn capped(n: usize, k: nat) -> int {
    if n < k {
        n as int
    } else {
        k as int
    }
}

/// Gives `node` new peers chosen at random, without repetition, among the
/// other nodes that are not its peers yet. With `k` such candidates, `lo` the
/// smaller of `new_peers_min` and `k`, and `hi` the smaller of `new_peers_max`
/// and `k`, the number added is drawn from `lo..hi`; where that range is
/// empty it is `lo` (so nothing is added when there is no candidate). The new
/// peers follow the old ones.
pub fn add_random_nodes_as_peers(
    sim: &mut Simulation,
    node: Entity,
    new_peers_min: usize,
    new_peers_max: usize,
)
    requires
        old(sim).wf(),
        old(sim).world.node_spec(node),
    ensures
        final(sim).wf(),
        only_peers_changed(&old(sim).world, &final(sim).world),
        only_world_changed(&*old(sim), &*final(sim)),
        forall|x: Entity|
            old(sim).world.node_spec(x) && x != node ==> #[trigger] final(sim).world.peers_spec(x)
                == old(sim).world.peers_spec(x),
        ({
            let before = old(sim).world.peers_spec(node);
            let after = final(sim).world.peers_spec(node);
            let added = after.len() - before.len();
            let k = candidate_count(&old(sim).world, node);
            let lo = capped(new_peers_min, k);
            let hi = capped(new_peers_max, k);
            &&& before.len() <= after.len()
            &&& after.subrange(0, before.len() as int) == before
            &&& forall|i: int|
                before.len() <= i < after.len() ==> is_candidate(
                    &old(sim).world,
                    node,
                    #[trigger] after[i],
                )
            &&& lo <= added
            &&& lo < hi ==> added < hi
            &&& hi <= lo ==> added == lo
        }),
        !final(sim).world.peers_spec(node).contains(node),
{
    let others = sim.all_other_nodes(node);
    let ghost w0 = sim.world;
    let ghost p0 = sim.world.peers_spec(node);
    let mut candidates: Vec<Entity> = Vec::new();
    let mut i: usize = 0;
    while i < others.len()
        invariant
            sim.wf(),
            sim.world == w0,
            sim.world.node_spec(node),
            p0 == sim.world.peers_spec(node),
            0 <= i <= others@.len(),
            others@.no_duplicates(),
            forall|x: Entity| others@.contains(x) <==> (w0.node_spec(x) && x != node),
            forall|x: Entity|
                candidates@.contains(x) <==> (exists|k: int|
                    0 <= k < i && others@[k] == x && !p0.contains(x)),
            candidates@.no_duplicates(),
        decreases others@.len() - i,
    {
        let e = others[i];
        if !sim.world.peers(node).contains(e) {
            proof {
                assert forall|x: Entity|
                    candidates@.push(e).contains(x) <==> (exists|k: int|
                        0 <= k < i + 1 && others@[k] == x && !p0.contains(x)) by {
                    if candidates@.push(e).contains(x) {
                        let j = choose|j: int|
                            0 <= j < candidates@.push(e).len() && candidates@.push(e)[j] == x;
                        if j < candidates@.len() {
                            assert(candidates@[j] == x);
                            assert(candidates@.contains(x));
                            let k = choose|k: int| 0 <= k < i && others@[k] == x && !p0.contains(x);
                            assert(0 <= k < i + 1 && others@[k] == x && !p0.contains(x));
                        } else {
                            assert(others@[i as int] == x);
                        }
                    }
                    if exists|k: int| 0 <= k < i + 1 && others@[k] == x && !p0.contains(x) {
                        let k = choose|k: int| 0 <= k < i + 1 && others@[k] == x && !p0.contains(x);
                        if k < i {
                            assert(candidates@.contains(x));
                            let j = choose|j: int| 0 <= j < candidates@.len() && candidates@[j] == x;
                            assert(candidates@.push(e)[j] == x);
                        } else {
                            assert(candidates@.push(e)[candidates@.len() as int] == x);
                        }
                    }
                }
                assert forall|a: int, b: int|
                    0 <= a < b < candidates@.push(e).len() implies candidates@.push(e)[a]
                    != candidates@.push(e)[b] by {
                    if b == candidates@.len() {
                        if candidates@[a] == e {
                            assert(candidates@.contains(e));
                            let k = choose|k: int| 0 <= k < i && others@[k] == e && !p0.contains(e);
                            assert(others@[k] == others@[i as int]);
                        }
                    }
                }
            }
            candidates.push(e);
        } else {
            proof {
                assert forall|x: Entity|
                    candidates@.contains(x) <==> (exists|k: int|
                        0 <= k < i + 1 && others@[k] == x && !p0.contains(x)) by {
                    if exists|k: int| 0 <= k < i + 1 && others@[k] == x && !p0.contains(x) {
                        let k = choose|k: int| 0 <= k < i + 1 && others@[k] == x && !p0.contains(x);
                        assert(k < i);
                    }
                }
            }
        }
        i = i + 1;
    }
    proof {
        assert forall|x: Entity| candidates@.contains(x) <==> is_candidate(&w0, node, x) by {
            if is_candidate(&w0, node, x) {
                assert(others@.contains(x));
                let k = choose|k: int| 0 <= k < others@.len() && others@[k] == x;
                assert(exists|k: int| 0 <= k < i && others@[k] == x && !p0.contains(x));
            }
            if candidates@.contains(x) {
                let k = choose|k: int| 0 <= k < i && others@[k] == x && !p0.contains(x);
                assert(others@.contains(x));
            }
        }
        assert(candidates@.to_set() =~= Set::new(|x: Entity| is_candidate(&w0, node, x)));
        candidates@.unique_seq_to_set();
    }
    let k = candidates.len();
    let lo = if new_peers_min < k {
        new_peers_min
    } else {
        k
    };
    let hi = if new_peers_max < k {
        new_peers_max
    } else {
        k
    };
    let count = if lo < hi {
        draw_in_range(&mut sim.rng, lo, hi)
    } else {
        lo
    };
    let chosen = choose_several(&mut sim.rng, &candidates, count);
    let ghost s0 = *sim;
    let mut j: usize = 0;
    while j < chosen.len()
        invariant
            sim.wf(),
            s0.wf(),
            s0.world == w0,
            only_world_changed(&s0, &*sim),
            only_peers_changed(&w0, &sim.world),
            sim.world.node_spec(node),
            0 <= j <= chosen@.len(),
            chosen@.len() == count,
            chosen@.no_duplicates(),
            forall|a: int| 0 <= a < chosen@.len() ==> candidates@.contains(#[trigger] chosen@[a]),
            forall|x: Entity| candidates@.contains(x) <==> is_candidate(&w0, node, x),
            sim.world.peers_spec(node) == p0 + chosen@.subrange(0, j as int),
            p0 == w0.peers_spec(node),
            forall|x: Entity|
                w0.node_spec(x) && x != node ==> #[trigger] sim.world.peers_spec(x)
                    == w0.peers_spec(x),
        decreases chosen@.len() - j,
    {
        let e = chosen[j];
        let ghost cur = sim.world.peers_spec(node);
        let ghost wb = sim.world;
        proof {
            assert(candidates@.contains(e));
            assert(is_candidate(&w0, node, e));
            if cur.contains(e) {
                let m = choose|m: int| 0 <= m < cur.len() && cur[m] == e;
                if m < p0.len() {
                    assert(cur[m] == p0[m]);
                    assert(p0[m] == e);
                    assert(p0.contains(e));
                } else {
                    assert(m - p0.len() < j);
                    assert(cur[m] == chosen@.subrange(0, j as int)[m - p0.len()]);
                    assert(chosen@[m - p0.len()] == e);
                    assert(chosen@[m - p0.len()] != chosen@[j as int]);
                }
            }
            assert(!cur.contains(e));
        }
        add_peer(sim, node, e);
        proof {
            assert(sim.world.peers_spec(node) == cur.push(e));
            assert(sim.world.peers_spec(node) =~= p0 + chosen@.subrange(0, j + 1));
            lemma_only_peers_changed_trans(&w0, &wb, &sim.world);
        }
        j = j + 1;
    }
    proof {
        let after = sim.world.peers_spec(node);
        assert(after.subrange(0, p0.len() as int) =~= p0);
        assert forall|m: int| p0.len() <= m < after.len() implies is_candidate(
            &w0,
            node,
            #[trigger] after[m],
        ) by {
            assert(after[m] == chosen@[m - p0.len()]);
            assert(candidates@.contains(chosen@[m - p0.len()]));
        }
        lemma_peers_irreflexive(&sim.world, node);
    }
}

/// What delaunator's triangulation makes of a list of points: `None` where
/// none exists, else the point indices of its triangles, three per triangle.
pub uninterp spec fn delaunay_of(points: Seq<(u32, u32)>) -> Option<Seq<usize>>;

/// Relies on delaunator's `triangulate` (0.2): `None` when no triangulation
/// exists, else a `Triangulation` whose `triangles` field lists point indices,
/// pushed three at a time, one triple per triangle. The coordinates widen
/// exactly from `u32`.
#[verifier::external_body]
fn triangulate_points(points: &Vec<(u32, u32)>) -> (r: Option<Vec<usize>>)
    ensures
        r matches Some(t) ==> delaunay_of(points@) == Some(t@),
        r is None ==> delaunay_of(points@) is None,
        r matches Some(t) ==> t@.len() % 3 == 0,
        r matches Some(t) ==> forall|i: int| 0 <= i < t@.len() ==> #[trigger] t@[i] < points@.len(),
{
    let pts: Vec<delaunator::Point> = points.iter().map(
        |&(x, y)| delaunator::Point { x: x.into(), y: y.into() },
    ).collect();
    delaunator::triangulate(&pts).map(|t| t.triangles)
}

/// The points of `nodes`, in that order.
pub open spec fn points_of(w: &World, nodes: Seq<Entity>) -> Seq<(u32, u32)> {
    nodes.map_values(|e: Entity| (w.position_spec(e).x, w.position_spec(e).y))
}

/// `x` and `y` are two distinct corners of triangle `q` of `t`, whose entries
/// index `nodes`.
pub open spec fn in_triangle(nodes: Seq<Entity>, t: Seq<usize>, q: int, x: Entity, y: Entity) -> bool {
    let a = nodes[t[3 * q] as int];
    let b = nodes[t[3 * q + 1] as int];
    let c = nodes[t[3 * q + 2] as int];
    &&& x != y
    &&& (x == a || x == b || x == c)
    &&& (y == a || y == b || y == c)
}

/// `x` and `y` share one of the first `q` triangles of `t`.
pub open spec fn adjacent_upto(nodes: Seq<Entity>, t: Seq<usize>, q: nat, x: Entity, y: Entity) -> bool
    decreases q,
{
    if q == 0 {
        false
    } else {
        adjacent_upto(nodes, t, (q - 1) as nat, x, y) || in_triangle(nodes, t, q - 1, x, y)
    }
}

/// `x` and `y` share a triangle of `t`.
pub open spec fn triangle_adjacent(nodes: Seq<Entity>, t: Seq<usize>, x: Entity, y: Entity) -> bool {
    adjacent_upto(nodes, t, t.len() / 3, x, y)
}

/// Replaces every peer set by the edges of the triangles `triangles`, whose
/// entries index `nodes`: afterwards each node's peers are exactly the nodes
/// it shares a triangle with.
pub fn connect_triangles(sim: &mut Simulation, nodes: &Vec<Entity>, triangles: &Vec<usize>)
    requires
        old(sim).wf(),
        forall|k: int| 0 <= k < nodes@.len() ==> old(sim).world.node_spec(#[trigger] nodes@[k]),
        forall|x: Entity| old(sim).world.node_spec(x) ==> nodes@.contains(x),
        triangles@.len() % 3 == 0,
        forall|i: int| 0 <= i < triangles@.len() ==> #[trigger] triangles@[i] < nodes@.len(),
    ensures
        final(sim).wf(),
        only_peers_changed(&old(sim).world, &final(sim).world),
        only_world_changed(&*old(sim), &*final(sim)),
        final(sim).rng == old(sim).rng,
        forall|x: Entity, y: Entity|
            final(sim).world.node_spec(x) ==> (#[trigger] final(sim).world.peers_spec(x).contains(y)
                <==> triangle_adjacent(nodes@, triangles@, x, y)),
{
    let ghost s0 = *sim;
    let mut i: usize = 0;
    while i < nodes.len()
        invariant
            sim.wf(),
            0 <= i <= nodes@.len(),
            forall|k: int| 0 <= k < nodes@.len() ==> s0.world.node_spec(#[trigger] nodes@[k]),
            only_peers_changed(&s0.world, &sim.world),
            only_world_changed(&s0, &*sim),
            sim.rng == s0.rng,
            forall|k: int| 0 <= k < i ==> sim.world.peers_spec(#[trigger] nodes@[k]).len() == 0,
        decreases nodes@.len() - i,
    {
        let ghost wb = sim.world;
        sim.world.clear_peers(nodes[i]);
        proof {
            lemma_only_peers_changed_trans(&s0.world, &wb, &sim.world);
            assert forall|k: int| 0 <= k < i + 1 implies sim.world.peers_spec(
                #[trigger] nodes@[k],
            ).len() == 0 by {
                if k < i && nodes@[k] != nodes@[i as int] {
                    assert(wb.peers_spec(nodes@[k]).len() == 0);
                }
            }
        }
        i = i + 1;
    }
    proof {
        assert forall|x: Entity, y: Entity|
            sim.world.node_spec(x) implies !(#[trigger] sim.world.peers_spec(x).contains(y)) by {
            assert(nodes@.contains(x));
            let k = choose|k: int| 0 <= k < nodes@.len() && nodes@[k] == x;
            assert(sim.world.peers_spec(nodes@[k]).len() == 0);
        }
    }
    let n_triangles = triangles.len() / 3;
    let mut q: usize = 0;
    while q < n_triangles
        invariant
            sim.wf(),
            0 <= q <= n_triangles,
            n_triangles == triangles@.len() / 3,
            triangles@.len() % 3 == 0,
            forall|k: int| 0 <= k < nodes@.len() ==> s0.world.node_spec(#[trigger] nodes@[k]),
            forall|i: int| 0 <= i < triangles@.len() ==> #[trigger] triangles@[i] < nodes@.len(),
            only_peers_changed(&s0.world, &sim.world),
            only_world_changed(&s0, &*sim),
            sim.rng == s0.rng,
            forall|x: Entity, y: Entity|
                sim.world.node_spec(x) ==> (#[trigger] sim.world.peers_spec(x).contains(y)
                    <==> adjacent_upto(nodes@, triangles@, q as nat, x, y)),
        decreases n_triangles - q,
    {
        let ghost wb = sim.world;
        assert(3 * q + 2 < triangles.len()) by (nonlinear_arith)
            requires
                q < n_triangles,
                n_triangles == triangles.len() / 3,
        ;
        let a = nodes[triangles[3 * q]];
        let b = nodes[triangles[3 * q + 1]];
        let c = nodes[triangles[3 * q + 2]];
        add_peer(sim, a, b);
        let ghost w1 = sim.world;
        add_peer(sim, a, c);
        let ghost w2 = sim.world;
        add_peer(sim, b, a);
        let ghost w3 = sim.world;
        add_peer(sim, b, c);
        let ghost w4 = sim.world;
        add_peer(sim, c, a);
        let ghost w5 = sim.world;
        add_peer(sim, c, b);
        proof {
            lemma_only_peers_changed_trans(&wb, &w1, &w2);
            lemma_only_peers_changed_trans(&wb, &w2, &w3);
            lemma_only_peers_changed_trans(&wb, &w3, &w4);
            lemma_only_peers_changed_trans(&wb, &w4, &w5);
            lemma_only_peers_changed_trans(&wb, &w5, &sim.world);
            lemma_only_peers_changed_trans(&s0.world, &wb, &sim.world);
            assert forall|x: Entity, y: Entity|
                sim.world.node_spec(x) implies (#[trigger] sim.world.peers_spec(x).contains(y)
                <==> adjacent_upto(nodes@, triangles@, (q + 1) as nat, x, y)) by {
                assert(wb.node_spec(x));
                assert(wb.peers_spec(x).contains(y) <==> adjacent_upto(
                    nodes@,
                    triangles@,
                    q as nat,
                    x,
                    y,
                ));
            }
        }
        q = q + 1;
    }
}

/// Rebuilds every peer set from a Delaunay triangulation of the nodes'
/// positions: each node's peers become exactly the nodes it shares a
/// triangle with, so every triangle edge is linked both ways. Where no
/// triangulation exists, nothing changes and `NoTriangulation` comes back.
pub fn make_delaunay_network(sim: &mut Simulation) -> (r: Result<(), TopologyError>)
    requires
        old(sim).wf(),
    ensures
        final(sim).wf(),
        only_peers_changed(&old(sim).world, &final(sim).world),
        only_world_changed(&*old(sim), &*final(sim)),
        ({
            let nodes = old(sim).world.node_seq();
            let points = points_of(&old(sim).world, nodes);
            match r {
                Err(e) => e == TopologyError::NoTriangulation && delaunay_of(points) is None
                    && final(sim).world == old(sim).world,
                Ok(_) => delaunay_of(points) is Some && forall|x: Entity, y: Entity|
                    final(sim).world.node_spec(x) ==> (
                    #[trigger] final(sim).world.peers_spec(x).contains(y) <==> triangle_adjacent(
                        nodes,
                        delaunay_of(points)->Some_0,
                        x,
                        y,
                    )),
            }
        }),
        r is Ok ==> forall|q: int, u: Entity, v: Entity|
            0 <= q < delaunay_of(points_of(&old(sim).world, old(sim).world.node_seq()))->Some_0.len()
                / 3 && #[trigger] in_triangle(
                old(sim).world.node_seq(),
                delaunay_of(points_of(&old(sim).world, old(sim).world.node_seq()))->Some_0,
                q,
                u,
                v,
            ) ==> final(sim).world.peers_spec(u).contains(v) && final(sim).world.peers_spec(
                v,
            ).contains(u),
{
    let nodes = sim.world.nodes();
    let mut points: Vec<(u32, u32)> = Vec::new();
    let mut i: usize = 0;
    while i < nodes.len()
        invariant
            sim.wf(),
            0 <= i <= nodes@.len(),
            forall|x: Entity| nodes@.contains(x) <==> sim.world.node_spec(x),
            points@.len() == i,
            forall|k: int|
                0 <= k < i ==> #[trigger] points@[k] == (
                sim.world.position_spec(nodes@[k]).x,
                sim.world.position_spec(nodes@[k]).y,
            ),
        decreases nodes@.len() - i,
    {
        let e = nodes[i];
        assert(nodes@.contains(e));
        let pos = sim.world.position(e);
        points.push((pos.x, pos.y));
        i = i + 1;
    }
    assert(points@ =~= points_of(&sim.world, nodes@));
    match triangulate_points(&points) {
        None => Err(TopologyError::NoTriangulation),
        Some(t) => {
            proof {
                assert forall|k: int| 0 <= k < nodes@.len() implies sim.world.node_spec(
                    #[trigger] nodes@[k],
                ) by {
                    assert(nodes@.contains(nodes@[k]));
                }
            }
            connect_triangles(sim, &nodes, &t);
            proof {
                assert forall|q: int, u: Entity, v: Entity|
                    0 <= q < t@.len() / 3 && #[trigger] in_triangle(
                        nodes@,
                        t@,
                        q,
                        u,
                        v,
                    ) implies sim.world.peers_spec(u).contains(v) && sim.world.peers_spec(
                    v,
                ).contains(u) by {
                    lemma_triangle_edge_adjacent(nodes@, t@, q, u, v);
                    assert(sim.world.node_spec(u)) by {
                        assert(nodes@.contains(nodes@[t@[3 * q] as int]));
                        assert(nodes@.contains(nodes@[t@[3 * q + 1] as int]));
                        assert(nodes@.contains(nodes@[t@[3 * q + 2] as int]));
                    }
                    assert(sim.world.node_spec(v)) by {
                        assert(nodes@.contains(nodes@[t@[3 * q] as int]));
                        assert(nodes@.contains(nodes@[t@[3 * q + 1] as int]));
                        assert(nodes@.contains(nodes@[t@[3 * q + 2] as int]));
                    }
                }
            }
            Ok(())
        },
    }
}

/// Two corners of a triangle of `t` are adjacent, both ways round.
pub proof fn lemma_triangle_edge_adjacent(nodes: Seq<Entity>, t: Seq<usize>, q: int, u: Entity, v: Entity)
    requires
        0 <= q < t.len() / 3,
        in_triangle(nodes, t, q, u, v),
    ensures
        triangle_adjacent(nodes, t, u, v),
        triangle_adjacent(nodes, t, v, u),
{
    lemma_adjacent_upto_from(nodes, t, q, (t.len() / 3) as nat, u, v);
    lemma_adjacent_upto_from(nodes, t, q, (t.len() / 3) as nat, v, u);
}

proof fn lemma_adjacent_upto_from(nodes: Seq<Entity>, t: Seq<usize>, q: int, n: nat, u: Entity, v: Entity)
    requires
        0 <= q < n,
        in_triangle(nodes, t, q, u, v) || in_triangle(nodes, t, q, v, u),
    ensures
        adjacent_upto(nodes, t, n, u, v),
    decreases n,
{
    if q < n - 1 {
        lemma_adjacent_upto_from(nodes, t, q, (n - 1) as nat, u, v);
    }
}

/// Sharing a triangle is symmetric, so a topology built from a triangulation
/// links every pair of its nodes both ways or not at all.
pub proof fn lemma_triangle_adjacent_symmetric(nodes: Seq<Entity>, t: Seq<usize>, x: Entity, y: Entity)
    ensures
        triangle_adjacent(nodes, t, x, y) == triangle_adjacent(nodes, t, y, x),
{
    lemma_adjacent_upto_symmetric(nodes, t, t.len() / 3, x, y);
}

proof fn lemma_adjacent_upto_symmetric(nodes: Seq<Entity>, t: Seq<usize>, n: nat, x: Entity, y: Entity)
    ensures
        adjacent_upto(nodes, t, n, x, y) == adjacent_upto(nodes, t, n, y, x),
    decreases n,
{
    if n > 0 {
        lemma_adjacent_upto_symmetric(nodes, t, (n - 1) as nat, x, y);
    }
}

} // verus!
