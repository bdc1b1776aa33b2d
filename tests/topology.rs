use isds::{
    add_peer, add_random_nodes_as_peers, make_delaunay_network, peers, pick_random_peer,
    send_message_to_random_peer, Entity, Simulation, TopologyError, UnderlayPosition,
};

fn sim() -> Simulation {
    Simulation::new(7, 100, 100)
}

#[test]
fn add_peer_adds_peer() {
    let mut sim = sim();
    let node1 = sim.spawn_random_node();
    let node2 = sim.spawn_random_node();
    add_peer(&mut sim, node1, node2);

    assert_eq!(peers(&sim, node1).0, vec![node2]);
    assert!(peers(&sim, node2).0.is_empty());
}

#[test]
fn add_peer_is_idempotent_and_ignores_self() {
    let mut sim = sim();
    let a = sim.spawn_random_node();
    let b = sim.spawn_random_node();
    add_peer(&mut sim, a, b);
    add_peer(&mut sim, a, b);
    add_peer(&mut sim, a, a);
    assert_eq!(peers(&sim, a).0, vec![b]);
}

#[test]
fn add_random_other_nodes_as_peers_adds_peers() {
    let mut sim = sim();
    let node1 = sim.spawn_random_node();
    sim.spawn_random_node();
    sim.spawn_random_node();
    sim.spawn_random_node();
    sim.spawn_random_node();

    add_random_nodes_as_peers(&mut sim, node1, 2, 3);

    let peers = peers(&sim, node1);
    let actual = peers.0.len();
    let expected_min = 2;
    let expected_max = 3;

    assert!(expected_min <= actual);
    assert!(actual <= expected_max);
    assert!(!peers.0.contains(&node1));
}

#[test]
fn add_random_peers_draws_from_half_open_range() {
    // Four candidates, range 2..3: exactly two are added.
    for seed in 0..20u64 {
        let mut sim = Simulation::new(seed, 100, 100);
        let nodes: Vec<Entity> = (0..5).map(|_| sim.spawn_random_node()).collect();
        add_random_nodes_as_peers(&mut sim, nodes[0], 2, 3);
        let p = &peers(&sim, nodes[0]).0;
        assert_eq!(p.len(), 2);
        assert_ne!(p[0], p[1]);
        assert!(!p.contains(&nodes[0]));
    }
}

#[test]
fn add_random_peers_clamps_to_candidates() {
    // Three candidates, one of them already a peer: two are left, and the
    // range 5..9 clamps to 2..2, which adds both.
    let mut sim = sim();
    let nodes: Vec<Entity> = (0..4).map(|_| sim.spawn_random_node()).collect();
    add_peer(&mut sim, nodes[0], nodes[1]);
    add_random_nodes_as_peers(&mut sim, nodes[0], 5, 9);
    let p = &peers(&sim, nodes[0]).0;
    assert_eq!(p.len(), 3);
    assert_eq!(p[0], nodes[1]);
    assert!(p.contains(&nodes[2]));
    assert!(p.contains(&nodes[3]));
}

#[test]
fn add_random_peers_without_candidates_adds_nothing() {
    let mut sim = sim();
    let only = sim.spawn_random_node();
    add_random_nodes_as_peers(&mut sim, only, 1, 3);
    assert!(peers(&sim, only).0.is_empty());

    let other = sim.spawn_random_node();
    add_peer(&mut sim, only, other);
    add_random_nodes_as_peers(&mut sim, only, 1, 3);
    assert_eq!(peers(&sim, only).0, vec![other]);
}

#[test]
fn pick_random_peer_none_without_peers() {
    let mut sim = sim();
    let a = sim.spawn_random_node();
    sim.spawn_random_node();
    assert_eq!(pick_random_peer(&mut sim, a), None);
}

#[test]
fn pick_random_peer_returns_a_peer() {
    let mut sim = sim();
    let a = sim.spawn_random_node();
    let b = sim.spawn_random_node();
    let c = sim.spawn_random_node();
    sim.spawn_random_node();
    add_peer(&mut sim, a, b);
    add_peer(&mut sim, a, c);
    for _ in 0..20 {
        let p = pick_random_peer(&mut sim, a).unwrap();
        assert!(p == b || p == c);
    }
}

#[test]
fn send_message_to_random_peer_without_peers_fails() {
    let mut sim = sim();
    let a = sim.spawn_random_node();
    sim.spawn_random_node();
    let before = sim.world.len();
    assert_eq!(
        send_message_to_random_peer(&mut sim, a, "hello".to_string()),
        Err(TopologyError::NoPeersAvailable)
    );
    assert_eq!(sim.world.len(), before);
    assert_eq!(sim.queue.len(), 0);
}

#[test]
fn send_message_to_random_peer_reaches_the_peer() {
    let mut sim = sim();
    let a = sim.spawn_node(UnderlayPosition::new(1, 2));
    let b = sim.spawn_node(UnderlayPosition::new(30, 40));
    add_peer(&mut sim, a, b);
    let m = send_message_to_random_peer(&mut sim, a, "hello".to_string()).unwrap();
    let t = sim.world.transit(m);
    assert_eq!(t.source, a);
    assert_eq!(t.dest, b);
    assert_eq!(t.line.start, UnderlayPosition::new(1, 2));
    assert_eq!(t.line.end, UnderlayPosition::new(30, 40));
    assert_eq!(t.payload, "hello");
    assert_eq!(t.start, 0);
    assert_eq!(t.end, 1000);
}

#[test]
fn delaunay_network_links_triangle_edges_both_ways() {
    let mut sim = sim();
    let a = sim.spawn_node(UnderlayPosition::new(0, 0));
    let b = sim.spawn_node(UnderlayPosition::new(10, 0));
    let c = sim.spawn_node(UnderlayPosition::new(5, 10));
    let far = sim.spawn_node(UnderlayPosition::new(5, 40));
    add_peer(&mut sim, a, far);

    assert_eq!(make_delaunay_network(&mut sim), Ok(()));

    let nodes = [a, b, c, far];
    let mut edges = 0;
    for &x in nodes.iter() {
        let px = &peers(&sim, x).0;
        assert!(!px.contains(&x));
        for &y in px.iter() {
            assert!(peers(&sim, y).0.contains(&x));
            edges += 1;
        }
    }
    // The triangle a-b-c, plus far joined to the hull edge b-c and to a.
    assert!(peers(&sim, a).0.contains(&b));
    assert!(peers(&sim, b).0.contains(&c));
    assert!(peers(&sim, c).0.contains(&a));
    assert!(peers(&sim, far).0.contains(&c));
    assert!(edges >= 6);
}

#[test]
fn delaunay_network_replaces_old_peers() {
    let mut sim = sim();
    let a = sim.spawn_node(UnderlayPosition::new(0, 0));
    sim.spawn_node(UnderlayPosition::new(100, 0));
    sim.spawn_node(UnderlayPosition::new(0, 100));
    let d = sim.spawn_node(UnderlayPosition::new(100, 100));
    let center = sim.spawn_node(UnderlayPosition::new(50, 50));
    // a and d are opposite corners: with a point in the middle they share no
    // triangle.
    add_peer(&mut sim, a, d);
    assert_eq!(make_delaunay_network(&mut sim), Ok(()));
    assert!(!peers(&sim, a).0.contains(&d));
    assert!(peers(&sim, a).0.contains(&center));
    assert!(peers(&sim, center).0.contains(&a));
    assert_eq!(peers(&sim, center).0.len(), 4);
}

#[test]
fn delaunay_network_on_collinear_points_fails_unchanged() {
    let mut sim = sim();
    let a = sim.spawn_node(UnderlayPosition::new(0, 0));
    let b = sim.spawn_node(UnderlayPosition::new(5, 0));
    let c = sim.spawn_node(UnderlayPosition::new(10, 0));
    add_peer(&mut sim, a, b);
    assert_eq!(
        make_delaunay_network(&mut sim),
        Err(TopologyError::NoTriangulation)
    );
    assert_eq!(peers(&sim, a).0, vec![b]);
    assert!(peers(&sim, c).0.is_empty());
}

#[test]
fn delaunay_network_on_too_few_nodes_fails() {
    let mut sim = sim();
    sim.spawn_node(UnderlayPosition::new(0, 0));
    sim.spawn_node(UnderlayPosition::new(5, 7));
    assert_eq!(
        make_delaunay_network(&mut sim),
        Err(TopologyError::NoTriangulation)
    );
}

#[test]
fn spawn_random_node_stays_in_bounds() {
    let mut sim = Simulation::new(3, 20, 1);
    for _ in 0..50 {
        let e = sim.spawn_random_node();
        let p = sim.world.position(e);
        assert!(p.x < 20);
        assert_eq!(p.y, 0);
    }
    let mut flat = Simulation::new(3, 0, 0);
    let e = flat.spawn_random_node();
    assert_eq!(flat.world.position(e), UnderlayPosition::new(0, 0));
}

#[test]
fn same_seed_gives_same_run() {
    let run = |seed: u64| {
        let mut sim = Simulation::new(seed, 1000, 1000);
        let nodes: Vec<Entity> = (0..6).map(|_| sim.spawn_random_node()).collect();
        add_random_nodes_as_peers(&mut sim, nodes[0], 1, 5);
        let positions: Vec<UnderlayPosition> =
            nodes.iter().map(|&n| sim.world.position(n)).collect();
        (positions, peers(&sim, nodes[0]).0.clone())
    };
    assert_eq!(run(11), run(11));
}

#[test]
fn all_other_nodes_excludes_the_node_and_messages() {
    let mut sim = sim();
    let a = sim.spawn_random_node();
    let b = sim.spawn_random_node();
    let m = sim.send_message(a, b, "x".to_string());
    let c = sim.spawn_random_node();
    assert_eq!(sim.all_other_nodes(b), vec![a, c]);
    assert!(!sim.all_other_nodes(a).contains(&m));
}
