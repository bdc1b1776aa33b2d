use isds::{
    add_peer, EdgeEndpoints, EdgeType, Entity, Event, EventQueue, Simulation, TimeSpan,
    UnderlayLine, UnderlayPosition, ViewCache,
};

#[test]
fn rebuild_edges_builds_edges() {
    let mut sim = Simulation::new(1, 100, 100);
    let node1 = sim.spawn_node(UnderlayPosition::new(23, 42));
    let node2 = sim.spawn_node(UnderlayPosition::new(13, 13));
    add_peer(&mut sim, node2, node1);
    let mut view_cache = ViewCache::new();

    view_cache.rebuild_edges(&sim.world);

    assert!(view_cache.contains_key(EdgeEndpoints::new(node1, node2)));
}

#[test]
fn update_connection_lines_set_direction() {
    let mut sim = Simulation::new(1, 100, 100);
    let node1 = sim.spawn_node(UnderlayPosition::new(23, 42));
    let node2 = sim.spawn_node(UnderlayPosition::new(13, 13));
    add_peer(&mut sim, node2, node1);
    let mut view_cache = ViewCache::new();

    view_cache.rebuild_edges(&sim.world);

    assert_ne!(
        EdgeType::Undirected,
        view_cache
            .get(EdgeEndpoints::new(node1, node2))
            .unwrap()
            .kind
    );
}

#[test]
fn one_way_link_is_directed() {
    let mut sim = Simulation::new(1, 100, 100);
    let a = sim.spawn_node(UnderlayPosition::new(0, 0));
    let b = sim.spawn_node(UnderlayPosition::new(10, 0));
    add_peer(&mut sim, a, b);
    let mut cache = ViewCache::new();
    cache.rebuild_edges(&sim.world);
    assert_eq!(cache.edges().len(), 1);
    let e = cache.get(EdgeEndpoints::new(a, b)).unwrap();
    assert_eq!(e.kind, EdgeType::LeftRight);
    assert_eq!(
        e.line,
        UnderlayLine { start: UnderlayPosition::new(0, 0), end: UnderlayPosition::new(10, 0) }
    );
}

#[test]
fn reverse_link_makes_edge_undirected() {
    let mut sim = Simulation::new(1, 100, 100);
    let a = sim.spawn_node(UnderlayPosition::new(0, 0));
    let b = sim.spawn_node(UnderlayPosition::new(10, 0));
    add_peer(&mut sim, a, b);
    let mut cache = ViewCache::new();
    cache.rebuild_edges(&sim.world);
    add_peer(&mut sim, b, a);
    cache.rebuild_edges(&sim.world);
    assert_eq!(cache.edges().len(), 1);
    assert_eq!(
        cache.get(EdgeEndpoints::new(b, a)).unwrap().kind,
        EdgeType::Undirected
    );
}

#[test]
fn link_from_larger_id_is_right_left() {
    let mut sim = Simulation::new(1, 100, 100);
    let a = sim.spawn_node(UnderlayPosition::new(0, 0));
    let b = sim.spawn_node(UnderlayPosition::new(10, 5));
    add_peer(&mut sim, b, a);
    let mut cache = ViewCache::new();
    cache.rebuild_edges(&sim.world);
    let e = cache.get(EdgeEndpoints::new(a, b)).unwrap();
    assert_eq!(e.kind, EdgeType::RightLeft);
    assert_eq!(e.line.start, UnderlayPosition::new(10, 5));
    assert_eq!(e.line.end, UnderlayPosition::new(0, 0));
}

#[test]
fn rebuild_overwrites_previous_map() {
    let mut sim = Simulation::new(1, 100, 100);
    let a = sim.spawn_random_node();
    let b = sim.spawn_random_node();
    add_peer(&mut sim, a, b);
    let mut cache = ViewCache::new();
    cache.rebuild_edges(&sim.world);
    assert_eq!(cache.edges().len(), 1);
    let empty = Simulation::new(1, 100, 100);
    cache.rebuild_edges(&empty.world);
    assert!(cache.edges().is_empty());
}

#[test]
fn handle_event_rebuilds_only_on_commands() {
    let mut sim = Simulation::new(1, 100, 100);
    let a = sim.spawn_random_node();
    let b = sim.spawn_random_node();
    add_peer(&mut sim, a, b);
    let mut cache = ViewCache::new();
    cache.handle_event(&sim, &Event::MessageArrived(a));
    assert!(cache.edges().is_empty());
    cache.handle_event(&sim, &Event::Command("link".to_string()));
    assert_eq!(cache.edges().len(), 1);
}

#[test]
fn edge_endpoints_are_canonical() {
    let a = Entity { id: 3 };
    let b = Entity { id: 9 };
    assert_eq!(EdgeEndpoints::new(a, b), EdgeEndpoints::new(b, a));
    assert_eq!(EdgeEndpoints::new(b, a).left(), a);
    assert_eq!(EdgeEndpoints::new(b, a).right(), b);
    assert_eq!(EdgeEndpoints::new(a, a).left(), a);
}

#[test]
fn zero_delay_event_fires_on_first_catch_up() {
    let mut sim = Simulation::new(1, 100, 100);
    sim.do_now(Event::Command("setup".to_string()));
    let fired = sim.catch_up(0);
    assert_eq!(fired.len(), 1);
    assert!(matches!(&fired[0].event, Event::Command(d) if d == "setup"));
    assert_eq!(sim.logger.entries(), &vec![(0u64, "setup".to_string())]);
    assert_eq!(sim.queue.len(), 0);
}

#[test]
fn catch_up_advances_by_elapsed_times_speed() {
    let mut sim = Simulation::new(1, 100, 100);
    sim.time.set_speed(3);
    sim.catch_up(5);
    assert_eq!(sim.time.now(), 15);
    sim.time.toggle_pause();
    assert!(sim.time.paused());
    sim.catch_up(7);
    assert_eq!(sim.time.now(), 15);
    sim.time.toggle_pause();
    sim.catch_up(1);
    assert_eq!(sim.time.now(), 18);
}

#[test]
fn paused_clock_fires_nothing() {
    let mut sim = Simulation::new(1, 100, 100);
    sim.do_now(Event::Command("a".to_string()));
    sim.time.toggle_pause();
    assert!(sim.catch_up(100).is_empty());
    assert_eq!(sim.queue.len(), 1);
    assert!(sim.logger.entries().is_empty());
}

#[test]
fn events_fire_in_time_then_schedule_order() {
    let mut sim = Simulation::new(1, 100, 100);
    sim.schedule(Event::Command("late".to_string()), 20);
    sim.schedule(Event::Command("first".to_string()), 10);
    sim.schedule(Event::Command("second".to_string()), 10);
    sim.schedule(Event::Command("future".to_string()), 50);
    let fired = sim.catch_up(20);
    let at: Vec<u64> = fired.iter().map(|s| s.at).collect();
    assert_eq!(at, vec![10, 10, 20]);
    let texts: Vec<String> = sim.logger.entries().iter().map(|e| e.1.clone()).collect();
    assert_eq!(texts, vec!["first", "second", "late"]);
    assert_eq!(sim.logger.entries()[2].0, 20);
    assert_eq!(sim.queue.len(), 1);
    assert_eq!(sim.time.now(), 20);
}

#[test]
fn message_arrives_after_its_delay() {
    let mut sim = Simulation::new(1, 100, 100);
    let a = sim.spawn_random_node();
    let b = sim.spawn_random_node();
    let m = sim.send_message(a, b, "ping".to_string());
    assert!(sim.catch_up(999).is_empty());
    let fired = sim.catch_up(1);
    assert_eq!(fired.len(), 1);
    assert!(matches!(fired[0].event, Event::MessageArrived(e) if e == m));
    assert_eq!(fired[0].at, 1000);
    assert!(sim.logger.entries().is_empty());
}

#[test]
fn queue_drains_prefix_in_key_order() {
    let mut q = EventQueue::new();
    q.schedule(Event::Command("b".to_string()), 5);
    q.schedule(Event::Command("a".to_string()), 3);
    q.schedule(Event::Command("c".to_string()), 5);
    let due = q.drain_due(4);
    assert_eq!(due.len(), 1);
    assert_eq!((due[0].at, due[0].seq), (3, 1));
    let due = q.drain_due(5);
    let keys: Vec<(u64, u64)> = due.iter().map(|s| (s.at, s.seq)).collect();
    assert_eq!(keys, vec![(5, 0), (5, 2)]);
    assert_eq!(q.len(), 0);
}

#[test]
fn time_span_progress_is_clamped() {
    let span = TimeSpan::new(10, 30);
    assert_eq!(span.duration(), 20);
    assert_eq!(span.elapsed(0), 0);
    assert_eq!(span.elapsed(15), 5);
    assert_eq!(span.elapsed(99), 20);
    assert!(!span.is_complete(29));
    assert!(span.is_complete(30));
    let instant = TimeSpan::new(4, 4);
    assert_eq!(instant.elapsed(4), 0);
    assert!(instant.is_complete(4));
}
