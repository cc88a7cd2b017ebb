//! Click-to-move bookkeeping: which goal requests a player's movement state
//! accepts, in the order the client numbers them, and who may move at all.
use vstd::prelude::*;

verus! {

/// How far request `id` is ahead of `last`, counting around `u32`.
pub open spec fn request_distance(id: u32, last: u32) -> int {
    if id >= last { id - last } else { id - last + 0x1_0000_0000 }
}

/// Request `id` comes after `last`: at most half the id space ahead of it,
/// so numbering may wrap past `u32::MAX`.
pub open spec fn newer_request(id: u32, last: u32) -> bool {
    0 < request_distance(id, last) < 0x8000_0000
}

/// One player's goal movement: the last request accepted, a generation that
/// every accepted request or cancel bumps (so that a stale search can tell
/// it lost), whether a goal owns the player's movement, the goal waiting for
/// a route search, whether a search task runs, and the route being walked.
pub struct GoalMovement<G, P> {
    pub last_id: u32,
    pub generation: u64,
    pub owned: bool,
    pub pending: Option<G>,
    pub running: bool,
    pub plan: Option<P>,
}

impl<G, P> GoalMovement<G, P> {
    /// The state a player's first request finds: it accepts `request_id`.
    pub fn new(request_id: u32) -> (m: Self)
        ensures
            newer_request(request_id, m.last_id),
            m.generation == 0,
            !m.owned,
            m.pending is None,
            !m.running,
            m.plan is None,
    {
        GoalMovement {
            last_id: request_id.wrapping_sub(1),
            generation: 0,
            owned: false,
            pending: None,
            running: false,
            plan: None,
        }
    }

    /// Take request `id` if it is newer than the last one accepted: it then
    /// becomes the last, owns the movement, and drops the pending goal and
    /// the route. Repeats and older requests change nothing.
    pub fn accept(&mut self, id: u32) -> (accepted: bool)
        ensures
            accepted == newer_request(id, old(self).last_id),
            accepted ==> final(self).last_id == id
                && final(self).generation == (if old(self).generation == u64::MAX { 0 } else { old(self).generation + 1 })
                && final(self).pending is None
                && final(self).plan is None
                && final(self).owned
                && final(self).running == old(self).running,
            !accepted ==> *final(self) == *old(self),
    {
        let delta = id.wrapping_sub(self.last_id);
        if delta == 0 || delta >= 0x8000_0000u32 {
            return false;
        }
        self.last_id = id;
        self.generation = self.generation.wrapping_add(1);
        self.pending = None;
        self.plan = None;
        self.owned = true;
        true
    }

    /// Drop the goal and the route and bump the generation. When a goal
    /// owned the movement, it is released and the last request id comes
    /// back, for the client to be told that movement stopped.
    pub fn cancel(&mut self) -> (stopped: Option<u32>)
        ensures
            final(self).generation == (if old(self).generation == u64::MAX { 0 } else { old(self).generation + 1 }),
            final(self).pending is None,
            final(self).plan is None,
            !final(self).owned,
            final(self).last_id == old(self).last_id,
            final(self).running == old(self).running,
            stopped == if old(self).owned { Some(old(self).last_id) } else { None::<u32> },
    {
        self.generation = self.generation.wrapping_add(1);
        self.pending = None;
        self.plan = None;
        if self.owned {
            self.owned = false;
            Some(self.last_id)
        } else {
            None
        }
    }
}

/// A request is never newer than itself: a repeated request is refused.
pub proof fn law_repeated_request_refused(id: u32)
    ensures
        !newer_request(id, id),
{
}

/// Of two requests at most one is newer than the other, so once the later
/// one is accepted the earlier one is refused, across the wrap too.
pub proof fn law_older_request_refused(earlier: u32, later: u32)
    requires
        newer_request(later, earlier),
    ensures
        !newer_request(earlier, later),
{
}

/// A player may be steered only alive, on foot and not using an object.
pub fn eligible(health: i32, mounted: bool, using_object: bool) -> (r: bool)
    ensures
        r == (health > 0 && !mounted && !using_object),
{
    health > 0 && !mounted && !using_object
}

/// The kinds of movers a load run is made of.
pub enum Mix {
    Click,
    Keyboard,
    MountedKeyboard,
    Mixed,
}

impl Mix {
    /// Whether mover `index` steers by keyboard, and whether it rides.
    pub fn player_mode(&self, index: usize) -> (r: (bool, bool))
        ensures
            r == match self {
                Mix::Click => (false, false),
                Mix::Keyboard => (true, false),
                Mix::MountedKeyboard => (true, true),
                Mix::Mixed => (index % 4 >= 2, index % 2 == 1),
            },
    {
        match self {
            Mix::Click => (false, false),
            Mix::Keyboard => (true, false),
            Mix::MountedKeyboard => (true, true),
            Mix::Mixed => (index % 4 >= 2, index % 2 == 1),
        }
    }
}


/// One measured lock: how long it was waited for and held, in nanoseconds.
#[derive(Clone, Copy)]
pub struct LockSample {
    pub wait_ns: u64,
    pub hold_ns: u64,
}

/// Lock timing for load runs: off until a run starts, then every lock
/// taken records how long it was waited for and held.
pub struct LockMeasurement {
    pub enabled: bool,
    pub samples: Vec<LockSample>,
}

/// A lock being held while measured: when it was acquired and how long the
/// wait was.
#[derive(Clone, Copy)]
pub struct LockTiming {
    pub acquired_ns: u64,
    pub wait_ns: u64,
}

/// `a - b`, or zero when `b` is later: how long from `b` to `a`.
pub open spec fn elapsed(a: u64, b: u64) -> u64 {
    if a >= b { (a - b) as u64 } else { 0 }
}

impl LockMeasurement {
    pub fn new() -> (m: Self)
        ensures
            !m.enabled,
            m.samples@.len() == 0,
    {
        LockMeasurement { enabled: false, samples: Vec::new() }
    }

    /// Start a run: forget earlier samples and measure from now on.
    pub fn start_measurement(&mut self)
        ensures
            final(self).enabled,
            final(self).samples@.len() == 0,
    {
        self.samples = Vec::new();
        self.enabled = true;
    }

    /// End a run: stop measuring and hand over the samples taken.
    pub fn finish_measurement(&mut self) -> (samples: Vec<LockSample>)
        ensures
            !final(self).enabled,
            final(self).samples@.len() == 0,
            samples@ == old(self).samples@,
    {
        self.enabled = false;
        let mut taken: Vec<LockSample> = Vec::new();
        std::mem::swap(&mut taken, &mut self.samples);
        taken
    }

    /// A lock is requested at `now_ns`: when measuring, the time to wait
    /// from.
    pub fn start(&self, now_ns: u64) -> (started: Option<u64>)
        ensures
            started == if self.enabled { Some(now_ns) } else { None::<u64> },
    {
        if self.enabled { Some(now_ns) } else { None }
    }

    /// The lock requested at `started` was acquired at `now_ns`.
    pub fn acquired(&self, started: Option<u64>, now_ns: u64) -> (t: Option<LockTiming>)
        ensures
            t == match started {
                Some(s) => Some(LockTiming { acquired_ns: now_ns, wait_ns: elapsed(now_ns, s) }),
                None => None::<LockTiming>,
            },
    {
        match started {
            Some(s) => Some(LockTiming { acquired_ns: now_ns, wait_ns: now_ns.saturating_sub(s) }),
            None => None,
        }
    }
}

impl LockTiming {
    /// The lock is released at `now_ns`: record the wait and the hold.
    pub fn release(self, measurement: &mut LockMeasurement, now_ns: u64)
        ensures
            final(measurement).enabled == old(measurement).enabled,
            final(measurement).samples@ == old(measurement).samples@.push(
                LockSample { wait_ns: self.wait_ns, hold_ns: elapsed(now_ns, self.acquired_ns) }),
    {
        measurement.samples.push(LockSample { wait_ns: self.wait_ns, hold_ns: now_ns.saturating_sub(self.acquired_ns) });
    }
}

} // verus!
