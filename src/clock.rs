//! Simulated time: the clock that real elapsed time drives, and the spans of
//! simulated time that messages take to travel.
use vstd::prelude::*;

verus! {

/// Simulated time in ticks, with a pause switch and a playback speed: each
/// tick of real time is worth `speed` ticks of simulated time.
#[derive(Debug)]
pub struct SimulationTime {
    now: u64,
    paused: bool,
    speed: u64,
}

impl SimulationTime {
    pub closed spec fn now_spec(&self) -> u64 {
        self.now
    }

    pub closed spec fn paused_spec(&self) -> bool {
        self.paused
    }

    pub closed spec fn speed_spec(&self) -> u64 {
        self.speed
    }

    /// A running clock at time zero.
    pub fn new(speed: u64) -> (r: Self)
        ensures
            r.now_spec() == 0,
            !r.paused_spec(),
            r.speed_spec() == speed,
    {
        SimulationTime { now: 0, paused: false, speed }
    }

    pub fn now(&self) -> (r: u64)
        ensures
            r == self.now_spec(),
    {
        self.now
    }

    pub fn paused(&self) -> (r: bool)
        ensures
            r == self.paused_spec(),
    {
        self.paused
    }

    pub fn speed(&self) -> (r: u64)
        ensures
            r == self.speed_spec(),
    {
        self.speed
    }

    pub fn toggle_pause(&mut self)
        ensures
            final(self).paused_spec() == !old(self).paused_spec(),
            final(self).now_spec() == old(self).now_spec(),
            final(self).speed_spec() == old(self).speed_spec(),
    {
        self.paused = !self.paused;
    }

    pub fn set_speed(&mut self, speed: u64)
        ensures
            final(self).speed_spec() == speed,
            final(self).now_spec() == old(self).now_spec(),
            final(self).paused_spec() == old(self).paused_spec(),
    {
        self.speed = speed;
    }

    /// The simulated time that `elapsed` real ticks lead to: unchanged while
    /// paused, else `now + elapsed * speed`.
    pub open spec fn target_spec(&self, elapsed: u64) -> int {
        if self.paused_spec() {
            self.now_spec() as int
        } else {
            self.now_spec() + elapsed * self.speed_spec()
        }
    }

    pub fn target(&self, elapsed: u64) -> (r: u64)
        requires
            self.target_spec(elapsed) <= u64::MAX,
        ensures
            r == self.target_spec(elapsed),
    {
        if self.paused {
            self.now
        } else {
            proof {
                assert(0 <= elapsed * self.speed <= u64::MAX) by (nonlinear_arith)
                    requires
                        self.now + elapsed * self.speed <= u64::MAX,
                ;
            }
            self.now + elapsed * self.speed
        }
    }

    /// Moves the clock forward to `t`.
    pub(crate) fn commit(&mut self, t: u64)
        ensures
            final(self).now_spec() == t,
            final(self).paused_spec() == old(self).paused_spec(),
            final(self).speed_spec() == old(self).speed_spec(),
    {
        self.now = t;
    }
}

/// An interval of simulated time, from `start` to `end`.
#[derive(Clone, Copy, Debug, PartialEq, Eq, Structural)]
pub struct TimeSpan {
    pub start: u64,
    pub end: u64,
}

impl TimeSpan {
    pub open spec fn wf(&self) -> bool {
        self.start <= self.end
    }

    pub fn new(start: u64, end: u64) -> (r: Self)
        requires
            start <= end,
        ensures
            r.start == start,
            r.end == end,
            r.wf(),
    {
        TimeSpan { start, end }
    }

    pub fn duration(&self) -> (r: u64)
        requires
            self.wf(),
        ensures
            r == self.end - self.start,
    {
        self.end - self.start
    }

    /// How much of the span has passed at `now`, clamped to `0..=duration`.
    pub fn elapsed(&self, now: u64) -> (r: u64)
        requires
            self.wf(),
        ensures
            r == if now <= self.start {
                0
            } else if now >= self.end {
                self.end - self.start
            } else {
                now - self.start
            },
    {
        if now <= self.start {
            0
        } else if now >= self.end {
            self.end - self.start
        } else {
            now - self.start
        }
    }

    /// The span has fully passed at `now`.
    pub fn is_complete(&self, now: u64) -> (r: bool)
        ensures
            r == (now >= self.end),
    {
        now >= self.end
    }
}

} // verus!
