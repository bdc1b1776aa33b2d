//! An in-process simulator of distributed-systems protocols: nodes placed on
//! an underlay plane, directed peer relations between them, and messages that
//! travel between nodes over simulated time.
pub mod clock;
pub mod events;
pub mod random;
pub mod simulation;
pub mod topology;
pub mod view_cache;
pub mod world;

pub use clock::{SimulationTime, TimeSpan};
pub use events::{Event, EventQueue, Scheduled};
pub use simulation::{Logger, Simulation, DEFAULT_MESSAGE_DELAY};
pub use topology::{
    add_peer, add_random_nodes_as_peers, connect_triangles, make_delaunay_network, peers,
    pick_random_peer, send_message_to_random_peer, TopologyError,
};
pub use view_cache::{Edge, EdgeEndpoints, EdgeType, ViewCache};
pub use world::{Entity, PeerSet, Transit, UnderlayLine, UnderlayPosition, World};
