//! The simulation: the entity store, the random stream, the clock, the event
//! queue and the log, and the operations that drive them.
use crate::clock::{SimulationTime, TimeSpan};
use crate::events::{inserted_in_order, Event, EventQueue, Scheduled};
use crate::random::{draw_in_range, seeded_rng};
use crate::world::{Entity, Transit, UnderlayLine, UnderlayPosition, World};
use vstd::prelude::*;

verus! {

/// Simulated ticks a message takes from sender to receiver unless set otherwise.
pub const DEFAULT_MESSAGE_DELAY: u64 = 1000;

/// An append-only log of `(simulated time, text)` entries.
#[derive(Debug)]
pub struct Logger {
    entries: Vec<(u64, String)>,
}

impl Logger {
    pub closed spec fn view_entries(&self) -> Seq<(u64, Seq<char>)> {
        self.entries@.map_values(|e: (u64, String)| (e.0, e.1@))
    }

    pub fn new() -> (r: Self)
        ensures
            r.view_entries() == Seq::<(u64, Seq<char>)>::empty(),
    {
        Logger { entries: Vec::new() }
    }

    pub fn log(&mut self, time: u64, text: String)
        ensures
            final(self).view_entries() == old(self).view_entries().push((time, text@)),
    {
        self.entries.push((time, text));
        proof {
            assert(self.view_entries() =~= old(self).view_entries().push((time, text@)));
        }
    }

    /// The entries, oldest first.
    pub fn entries(&self) -> (r: &Vec<(u64, String)>)
        ensures
            r@.map_values(|e: (u64, String)| (e.0, e.1@)) == self.view_entries(),
    {
        &self.entries
    }
}

/// The log entries that a run of events writes: one per command, with its
/// time and description, in order.
pub open spec fn command_log(s: Seq<Scheduled>) -> Seq<(u64, Seq<char>)>
    decreases s.len(),
{
    if s.len() == 0 {
        Seq::empty()
    } else {
        let rest = command_log(s.drop_last());
        match s.last().event {
            Event::Command(d) => rest.push((s.last().at, d@)),
            Event::MessageArrived(_) => rest,
        }
    }
}

/// The orchestrator of one simulation run.
#[derive(Debug)]
pub struct Simulation {
    pub world: World,
    pub rng: rand::rngs::StdRng,
    pub time: SimulationTime,
    pub queue: EventQueue,
    pub logger: Logger,
    pub width: u32,
    pub height: u32,
    pub message_delay: u64,
}

impl Simulation {
    pub open spec fn wf(&self) -> bool {
        &&& self.world.wf()
        &&& self.queue.wf()
    }

    /// A simulation at time zero with no entities, whose random stream is
    /// seeded with `seed` and whose underlay spans `width` by `height`.
    pub fn new(seed: u64, width: u32, height: u32) -> (r: Self)
        ensures
            r.wf(),
            r.world.len_spec() == 0,
            r.queue.view_entries() == Seq::<Scheduled>::empty(),
            r.queue.next_seq_spec() == 0,
            r.logger.view_entries() == Seq::<(u64, Seq<char>)>::empty(),
            r.time.now_spec() == 0,
            !r.time.paused_spec(),
            r.time.speed_spec() == 1,
            r.width == width,
            r.height == height,
            r.message_delay == DEFAULT_MESSAGE_DELAY,
    {
        Simulation {
            world: World::new(),
            rng: seeded_rng(seed),
            time: SimulationTime::new(1),
            queue: EventQueue::new(),
            logger: Logger::new(),
            width,
            height,
            message_delay: DEFAULT_MESSAGE_DELAY,
        }
    }

    pub fn world(&self) -> (r: &World)
        ensures
            *r == self.world,
    {
        &self.world
    }

    pub fn time(&self) -> (r: &SimulationTime)
        ensures
            *r == self.time,
    {
        &self.time
    }

    pub fn logger(&self) -> (r: &Logger)
        ensures
            *r == self.logger,
    {
        &self.logger
    }

    pub fn underlay_width(&self) -> (r: u32)
        ensures
            r == self.width,
    {
        self.width
    }

    pub fn underlay_height(&self) -> (r: u32)
        ensures
            r == self.height,
    {
        self.height
    }

    /// Adds a node at `position`, with no peers.
    pub fn spawn_node(&mut self, position: UnderlayPosition) -> (e: Entity)
        requires
            old(self).wf(),
            old(self).world.len_spec() + 1 < u64::MAX,
        ensures
            final(self).wf(),
            e.id == old(self).world.len_spec(),
            final(self).world.len_spec() == old(self).world.len_spec() + 1,
            final(self).world.node_spec(e),
            final(self).world.position_spec(e) == position,
            final(self).world.peers_spec(e) == Seq::<Entity>::empty(),
            forall|x: Entity| #[trigger]
                old(self).world.node_spec(x) ==> final(self).world.node_spec(x)
                    && final(self).world.position_spec(x) == old(self).world.position_spec(x)
                    && final(self).world.peers_spec(x) == old(self).world.peers_spec(x),
            forall|x: Entity| #[trigger]
                final(self).world.node_spec(x) ==> old(self).world.node_spec(x) || x == e,
            final(self).queue == old(self).queue,
            final(self).logger == old(self).logger,
            final(self).time == old(self).time,
            final(self).rng == old(self).rng,
    {
        self.world.spawn_node(position)
    }

    /// Adds a node at a random point of the underlay, with no peers.
    pub fn spawn_random_node(&mut self) -> (e: Entity)
        requires
            old(self).wf(),
            old(self).world.len_spec() + 1 < u64::MAX,
        ensures
            final(self).wf(),
            e.id == old(self).world.len_spec(),
            final(self).world.len_spec() == old(self).world.len_spec() + 1,
            final(self).world.node_spec(e),
            final(self).world.peers_spec(e) == Seq::<Entity>::empty(),
            old(self).width == 0 ==> final(self).world.position_spec(e).x == 0,
            old(self).width > 0 ==> final(self).world.position_spec(e).x < old(self).width,
            old(self).height == 0 ==> final(self).world.position_spec(e).y == 0,
            old(self).height > 0 ==> final(self).world.position_spec(e).y < old(self).height,
            forall|x: Entity| #[trigger]
                old(self).world.node_spec(x) ==> final(self).world.node_spec(x)
                    && final(self).world.position_spec(x) == old(self).world.position_spec(x)
                    && final(self).world.peers_spec(x) == old(self).world.peers_spec(x),
            forall|x: Entity| #[trigger]
                final(self).world.node_spec(x) ==> old(self).world.node_spec(x) || x == e,
            final(self).queue == old(self).queue,
            final(self).logger == old(self).logger,
            final(self).time == old(self).time,
            final(self).width == old(self).width,
            final(self).height == old(self).height,
            final(self).message_delay == old(self).message_delay,
    {
        let x: u32 = if self.width > 0 {
            draw_in_range(&mut self.rng, 0, self.width as usize) as u32
        } else {
            0
        };
        let y: u32 = if self.height > 0 {
            draw_in_range(&mut self.rng, 0, self.height as usize) as u32
        } else {
            0
        };
        self.world.spawn_node(UnderlayPosition::new(x, y))
    }

    /// Every node but `node`, in order of creation.
    pub fn all_other_nodes(&self, node: Entity) -> (r: Vec<Entity>)
        requires
            self.wf(),
        ensures
            forall|x: Entity| r@.contains(x) <==> (self.world.node_spec(x) && x != node),
            r@.no_duplicates(),
    {
        let all = self.world.nodes();
        let mut r: Vec<Entity> = Vec::new();
        let mut i: usize = 0;
        while i < all.len()
            invariant
                0 <= i <= all@.len(),
                all@.no_duplicates(),
                forall|x: Entity| all@.contains(x) <==> self.world.node_spec(x),
                forall|x: Entity|
                    r@.contains(x) <==> (exists|k: int| 0 <= k < i && all@[k] == x && x != node),
                r@.no_duplicates(),
            decreases all@.len() - i,
        {
            let e = all[i];
            if e != node {
                proof {
                    assert forall|x: Entity|
                        r@.push(e).contains(x) <==> (exists|k: int|
                            0 <= k < i + 1 && all@[k] == x && x != node) by {
                        if r@.push(e).contains(x) {
                            let j = choose|j: int| 0 <= j < r@.push(e).len() && r@.push(e)[j] == x;
                            if j < r@.len() {
                                assert(r@[j] == x);
                                assert(r@.contains(x));
                                let k = choose|k: int| 0 <= k < i && all@[k] == x && x != node;
                                assert(0 <= k < i + 1 && all@[k] == x && x != node);
                            } else {
                                assert(all@[i as int] == x);
                            }
                        }
                        if exists|k: int| 0 <= k < i + 1 && all@[k] == x && x != node {
                            let k = choose|k: int| 0 <= k < i + 1 && all@[k] == x && x != node;
                            if k < i {
                                assert(r@.contains(x));
                                let j = choose|j: int| 0 <= j < r@.len() && r@[j] == x;
                                assert(r@.push(e)[j] == x);
                            } else {
                                assert(r@.push(e)[r@.len() as int] == x);
                            }
                        }
                    }
                    assert forall|a: int, b: int|
                        0 <= a < b < r@.push(e).len() implies r@.push(e)[a] != r@.push(e)[b] by {
                        if b == r@.len() {
                            if r@[a] == e {
                                assert(r@.contains(e));
                                let k = choose|k: int| 0 <= k < i && all@[k] == e && e != node;
                                assert(all@[k] == all@[i as int]);
                            }
                        }
                    }
                }
                r.push(e);
            } else {
                proof {
                    assert forall|x: Entity|
                        r@.contains(x) <==> (exists|k: int|
                            0 <= k < i + 1 && all@[k] == x && x != node) by {
                        if exists|k: int| 0 <= k < i + 1 && all@[k] == x && x != node {
                            let k = choose|k: int| 0 <= k < i + 1 && all@[k] == x && x != node;
                            assert(k < i);
                        }
                    }
                }
            }
            i = i + 1;
        }
        proof {
            assert forall|x: Entity| r@.contains(x) <==> (self.world.node_spec(x) && x != node) by {
                if self.world.node_spec(x) && x != node {
                    assert(all@.contains(x));
                    let k = choose|k: int| 0 <= k < all@.len() && all@[k] == x;
                    assert(exists|k: int| 0 <= k < i && all@[k] == x && x != node);
                }
                if r@.contains(x) {
                    let k = choose|k: int| 0 <= k < i && all@[k] == x && x != node;
                    assert(all@.contains(x));
                }
            }
        }
        r
    }
}

impl Simulation {
    /// Schedules `event` to happen at simulated time `at`.
    pub fn schedule(&mut self, event: Event, at: u64)
        requires
            old(self).wf(),
            old(self).queue.next_seq_spec() < u64::MAX,
        ensures
            final(self).wf(),
            final(self).queue.next_seq_spec() == old(self).queue.next_seq_spec() + 1,
            inserted_in_order(
                old(self).queue.view_entries(),
                final(self).queue.view_entries(),
                Scheduled { at, seq: old(self).queue.next_seq_spec(), event },
            ),
            final(self).world == old(self).world,
            final(self).logger == old(self).logger,
            final(self).time == old(self).time,
            final(self).rng == old(self).rng,
    {
        self.queue.schedule(event, at);
    }

    /// Schedules `event` to happen at the current simulated time; the next
    /// `catch_up` dispatches it, even one that advances by nothing.
    pub fn do_now(&mut self, event: Event)
        requires
            old(self).wf(),
            old(self).queue.next_seq_spec() < u64::MAX,
        ensures
            final(self).wf(),
            final(self).queue.next_seq_spec() == old(self).queue.next_seq_spec() + 1,
            inserted_in_order(
                old(self).queue.view_entries(),
                final(self).queue.view_entries(),
                Scheduled { at: old(self).time.now_spec(), seq: old(self).queue.next_seq_spec(), event },
            ),
            final(self).world == old(self).world,
            final(self).logger == old(self).logger,
            final(self).time == old(self).time,
            final(self).rng == old(self).rng,
    {
        let now = self.time.now();
        self.queue.schedule(event, now);
    }

    /// Sends a message from `source` to `dest`: a new message entity whose
    /// line runs from the sender's position to the receiver's and whose time
    /// span runs from now for `message_delay` ticks, and an arrival event at
    /// the end of that span.
    pub fn send_message(&mut self, source: Entity, dest: Entity, payload: String) -> (e: Entity)
        requires
            old(self).wf(),
            old(self).world.node_spec(source),
            old(self).world.node_spec(dest),
            old(self).world.len_spec() + 1 < u64::MAX,
            old(self).time.now_spec() + old(self).message_delay <= u64::MAX,
            old(self).queue.next_seq_spec() < u64::MAX,
        ensures
            final(self).wf(),
            e.id == old(self).world.len_spec(),
            final(self).world.message_spec(e),
            final(self).world.transit_spec(e) == (Transit {
                source,
                dest,
                line: UnderlayLine {
                    start: old(self).world.position_spec(source),
                    end: old(self).world.position_spec(dest),
                },
                start: old(self).time.now_spec(),
                end: (old(self).time.now_spec() + old(self).message_delay) as u64,
                payload,
            }),
            forall|x: Entity| #[trigger]
                final(self).world.node_spec(x) == old(self).world.node_spec(x),
            forall|x: Entity| #[trigger]
                old(self).world.node_spec(x) ==> final(self).world.peers_spec(x) == old(self).world.peers_spec(x) && final(self).world.position_spec(x) == old(self).world.position_spec(x),
            inserted_in_order(
                old(self).queue.view_entries(),
                final(self).queue.view_entries(),
                Scheduled {
                    at: (old(self).time.now_spec() + old(self).message_delay) as u64,
                    seq: old(self).queue.next_seq_spec(),
                    event: Event::MessageArrived(e),
                },
            ),
            final(self).logger == old(self).logger,
            final(self).time == old(self).time,
            final(self).rng == old(self).rng,
            final(self).width == old(self).width,
            final(self).height == old(self).height,
            final(self).message_delay == old(self).message_delay,
    {
        let line = UnderlayLine {
            start: self.world.position(source),
            end: self.world.position(dest),
        };
        let start = self.time.now();
        let end = start + self.message_delay;
        let e = self.world.spawn_message(Transit { source, dest, line, start, end, payload });
        self.queue.schedule(Event::MessageArrived(e), end);
        e
    }

    /// Advances simulated time by `elapsed * speed` real ticks' worth and
    /// dispatches, in queue order, every event due by then: each command's
    /// description goes to the log with its time. Returns the dispatched
    /// events, for the observers. While paused nothing happens. A message
    /// entity stays in the store after it arrives; its time span shows it
    /// complete.
    pub fn catch_up(&mut self, elapsed: u64) -> (r: Vec<Scheduled>)
        requires
            old(self).wf(),
            old(self).time.target_spec(elapsed) <= u64::MAX,
        ensures
            final(self).wf(),
            final(self).time.now_spec() == old(self).time.target_spec(elapsed),
            final(self).time.paused_spec() == old(self).time.paused_spec(),
            final(self).time.speed_spec() == old(self).time.speed_spec(),
            final(self).world == old(self).world,
            final(self).rng == old(self).rng,
            final(self).width == old(self).width,
            final(self).height == old(self).height,
            final(self).message_delay == old(self).message_delay,
            old(self).time.paused_spec() ==> r@.len() == 0 && final(self).queue == old(self).queue
                && final(self).logger == old(self).logger,
            !old(self).time.paused_spec() ==> {
                &&& r@ + final(self).queue.view_entries() == old(self).queue.view_entries()
                &&& forall|k: int| 0 <= k < r@.len() ==> r@[k].at <= final(self).time.now_spec()
                &&& forall|k: int|
                    0 <= k < final(self).queue.view_entries().len() ==> final(self).queue.view_entries()[k].at > final(self).time.now_spec()
                &&& final(self).logger.view_entries() == old(self).logger.view_entries()
                    + command_log(r@)
            },
    {
        if self.time.paused() {
            return Vec::new();
        }
        let target = self.time.target(elapsed);
        let due = self.queue.drain_due(target);
        let ghost log0 = self.logger.view_entries();
        let ghost q1 = self.queue;
        let mut i: usize = 0;
        while i < due.len()
            invariant
                0 <= i <= due@.len(),
                self.wf(),
                self.queue == q1,
                self.time == old(self).time,
                self.world == old(self).world,
                self.rng == old(self).rng,
                self.width == old(self).width,
                self.height == old(self).height,
                self.message_delay == old(self).message_delay,
                self.logger.view_entries() == log0 + command_log(due@.subrange(0, i as int)),
            decreases due@.len() - i,
        {
            let ghost before = due@.subrange(0, i as int);
            proof {
                assert(due@.subrange(0, i + 1).drop_last() =~= before);
            }
            match &due[i].event {
                Event::Command(d) => {
                    self.logger.log(due[i].at, d.clone());
                },
                Event::MessageArrived(_) => {},
            }
            proof {
                assert(self.logger.view_entries() =~= log0 + command_log(due@.subrange(0, i + 1)));
            }
            i = i + 1;
        }
        proof {
            assert(due@.subrange(0, due@.len() as int) =~= due@);
        }
        self.time.commit(target);
        due
    }
}

} // verus!
