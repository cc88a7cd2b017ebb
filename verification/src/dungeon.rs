//! Dungeon bookkeeping: respawn pacing, the nightly reset, door and lock
//! state, spawn slots and floor occupancy, stair-room cover, and the nightly
//! treasure chest claims.
use vstd::prelude::*;
use vstd::string::*;
use crate::consent::PlayerId;
use crate::chance::random_in_range;
use crate::keyed::{IdMap, StrSet};
use crate::text::views;

verus! {

/// Monster respawn delay by how many live players share the floor band:
/// one player, two, three, four, five or more.
pub const MONSTER_RESPAWN_MS_BY_PLAYER_COUNT: [u64; 5] = [300_000, 240_000, 180_000, 150_000, 120_000];
/// A guardian's slot is held until the nightly reset.
pub const BOSS_RESPAWN_NEVER: u64 = u64::MAX;
/// Retry delay after a failed spawn (e.g. the global monster cap).
pub const SPAWN_RETRY_MS: u64 = 10_000;
/// How long after arriving a player in a floor's stair room stays out of
/// monster sight: the floor's loading hitch, not a hideout.
pub const STAIR_ROOM_ARRIVAL_GRACE_MS: u64 = 10_000;
/// Seconds a door opened with a key stays open before it locks again.
pub const LOCKED_DOOR_OPEN_SECONDS: u64 = 30;

/// The respawn delay for `player_count` players in the band, the count
/// taken between one and five.
pub open spec fn respawn_delay(player_count: usize) -> u64 {
    if player_count <= 1 {
        300_000
    } else if player_count == 2 {
        240_000
    } else if player_count == 3 {
        180_000
    } else if player_count == 4 {
        150_000
    } else {
        120_000
    }
}

/// How long a slain dungeon monster's slot waits: fewer players, slower.
pub fn monster_respawn_ms(player_count: usize) -> (ms: u64)
    ensures
        ms == respawn_delay(player_count),
{
    let index = if player_count < 1 {
        0
    } else if player_count > 5 {
        4
    } else {
        player_count - 1
    };
    MONSTER_RESPAWN_MS_BY_PLAYER_COUNT[index]
}

/// The band of five floors `depth` belongs to (1-5, 6-10, ...), as its
/// first and last depth: players anywhere in it pace each other's respawns.
pub fn dungeon_depth_band(depth: u8) -> (band: (u8, u8))
    requires
        1 <= depth,
    ensures
        band.0 == (depth - 1) / 5 * 5 + 1,
        band.1 == band.0 + 4,
        band.0 <= depth <= band.1,
{
    let start = ((depth - 1) / 5) * 5 + 1;
    (start, start + 4)
}

/// The way from a prop against a wall to the open side: the first wall found
/// among north, south, west and east (the order clients orient chests in),
/// stepping away from it; no step when the cell has no wall beside it.
pub fn prop_wall_opposite_dir(north_carved: bool, south_carved: bool, west_carved: bool, east_carved: bool)
    -> (dir: (i32, i32))
    ensures
        dir == if !north_carved {
            (0i32, 1i32)
        } else if !south_carved {
            (0i32, -1i32)
        } else if !west_carved {
            (1i32, 0i32)
        } else if !east_carved {
            (-1i32, 0i32)
        } else {
            (0i32, 0i32)
        },
{
    if !north_carved {
        (0, 1)
    } else if !south_carved {
        (0, -1)
    } else if !west_carved {
        (1, 0)
    } else if !east_carved {
        (-1, 0)
    } else {
        (0, 0)
    }
}

/// When the nightly reset last started and finished, by night epoch.
pub struct DungeonResetState {
    pub started_epoch: Option<i64>,
    pub completed_epoch: Option<i64>,
}

impl DungeonResetState {
    pub fn new() -> (s: Self)
        ensures
            s.started_epoch is None,
            s.completed_epoch is None,
    {
        DungeonResetState { started_epoch: None, completed_epoch: None }
    }

    /// At night `epoch`, whether the dungeons are to be reset now. The first
    /// tick after start only records the night: nothing ran before it.
    pub fn tick(&mut self, epoch: i64) -> (reset: bool)
        ensures
            reset == tick_resets(*old(self), epoch),
            *final(self) == after_tick(*old(self), epoch),
    {
        match self.started_epoch {
            None => {
                self.started_epoch = Some(epoch);
                self.completed_epoch = Some(epoch);
                false
            },
            Some(seen) => {
                if seen >= epoch {
                    false
                } else {
                    self.started_epoch = Some(epoch);
                    true
                }
            },
        }
    }

    /// Record that the reset for night `epoch` finished.
    pub fn complete(&mut self, epoch: i64)
        ensures
            final(self).started_epoch == old(self).started_epoch,
            final(self).completed_epoch == Some(epoch),
    {
        self.completed_epoch = Some(epoch);
    }

    /// The night a save belongs to: warning-time saves still belong to the
    /// visit being evicted, so the last completed reset wins over `tonight`.
    pub fn save_epoch(&self, tonight: i64) -> (e: i64)
        ensures
            e == match self.completed_epoch {
                Some(c) => c,
                None => tonight,
            },
    {
        match self.completed_epoch {
            Some(c) => c,
            None => tonight,
        }
    }
}

/// Whether a tick at night `epoch` resets: only after a start was seen, and
/// only for a later night than the last one started.
pub open spec fn tick_resets(s: DungeonResetState, epoch: i64) -> bool {
    match s.started_epoch {
        None => false,
        Some(seen) => seen < epoch,
    }
}

/// The reset state after a tick at night `epoch`.
pub open spec fn after_tick(s: DungeonResetState, epoch: i64) -> DungeonResetState {
    match s.started_epoch {
        None => DungeonResetState { started_epoch: Some(epoch), completed_epoch: Some(epoch) },
        Some(seen) => if seen >= epoch {
            s
        } else {
            DungeonResetState { started_epoch: Some(epoch), completed_epoch: s.completed_epoch }
        },
    }
}

/// The dungeons reset at most once a night: after a tick at night `epoch`,
/// no tick in that night or an earlier one resets again.
pub proof fn law_one_reset_per_night(s: DungeonResetState, epoch: i64, later: i64)
    requires
        later <= epoch,
    ensures
        !tick_resets(after_tick(s, epoch), later),
{
}

/// A visit saved at night `saved_epoch` (if any) is over by `tonight`: the
/// player comes back at the entrance.
pub fn visit_expired(saved_epoch: Option<i64>, tonight: i64) -> (r: bool)
    ensures
        r == match saved_epoch {
            None => true,
            Some(saved) => saved < tonight,
        },
{
    match saved_epoch {
        None => true,
        Some(saved) => saved < tonight,
    }
}

/// A restored visit stands only on a floor the dungeon has.
pub fn valid_floor(floor_level: i8, floors: usize) -> (r: bool)
    ensures
        r == (1 <= -(floor_level as int) <= floors),
{
    let depth = -(floor_level as i16);
    depth >= 1 && (depth as usize) <= floors
}

/// A door: its depth (0 for the surface entrance) and its id on that floor.
pub type DoorKey = (u8, u32);

/// The doors of one dungeon as sets and maps: which stand open, which
/// opening each open locked door is on, and the last opening handed out.
#[verifier::ext_equal]
pub struct DoorsModel {
    pub open: Set<DoorKey>,
    pub opens: Map<DoorKey, u64>,
    pub generation: u64,
}

/// Toggle door `k` (`locked` if it takes a key): the new model, whether it
/// now stands open, and for a locked door just opened, the opening's number.
pub open spec fn toggle_model(m: DoorsModel, k: DoorKey, locked: bool) -> (DoorsModel, bool, Option<u64>) {
    let is_open = !m.open.contains(k);
    let open = if is_open { m.open.insert(k) } else { m.open.remove(k) };
    if locked && is_open {
        let g = (m.generation + 1) as u64;
        (DoorsModel { open, opens: m.opens.insert(k, g), generation: g }, is_open, Some(g))
    } else if locked {
        (DoorsModel { open, opens: m.opens.remove(k), generation: m.generation }, is_open, None)
    } else {
        (DoorsModel { open, opens: m.opens, generation: m.generation }, is_open, None)
    }
}

/// The timed close of opening `g` of door `k`: the new model, and whether
/// the door shut. An opening that is no longer current changes nothing.
pub open spec fn close_model(m: DoorsModel, k: DoorKey, g: u64) -> (DoorsModel, bool) {
    if !(m.opens.contains_key(k) && m.opens[k] == g) {
        (m, false)
    } else if m.open.contains(k) {
        (DoorsModel { open: m.open.remove(k), opens: m.opens.remove(k), generation: m.generation }, true)
    } else {
        (DoorsModel { open: m.open, opens: m.opens.remove(k), generation: m.generation }, false)
    }
}

/// Every opening recorded is one already handed out.
pub open spec fn openings_issued(m: DoorsModel) -> bool {
    forall|k: DoorKey| #[trigger] m.opens.contains_key(k) ==> m.opens[k] <= m.generation
}

/// A set of (depth, id) pairs: open doors, broken or opened props.
pub struct PairSet {
    pub items: Vec<DoorKey>,
}

impl PairSet {
    pub open spec fn wf(&self) -> bool {
        self.items@.no_duplicates()
    }

    pub open spec fn view(&self) -> Set<DoorKey> {
        self.items@.to_set()
    }

    pub fn new() -> (s: Self)
        ensures
            s.wf(),
            s@ == Set::<DoorKey>::empty(),
    {
        let s = PairSet { items: Vec::new() };
        assert(s@ =~= Set::<DoorKey>::empty());
        s
    }

    fn index_of(&self, k: DoorKey) -> (r: Option<usize>)
        ensures
            match r {
                Some(i) => i < self.items@.len() && self.items@[i as int] == k,
                None => !self@.contains(k),
            },
    {
        let mut i: usize = 0;
        while i < self.items.len()
            invariant
                i <= self.items@.len(),
                forall|j: int| 0 <= j < i ==> self.items@[j] != k,
            decreases self.items@.len() - i,
        {
            let e = self.items[i];
            if e.0 == k.0 && e.1 == k.1 {
                return Some(i);
            }
            i = i + 1;
        }
        None
    }

    pub fn contains(&self, k: DoorKey) -> (r: bool)
        ensures
            r == self@.contains(k),
    {
        self.index_of(k).is_some()
    }

    /// Add `k`; whether it was not there yet.
    pub fn insert(&mut self, k: DoorKey) -> (added: bool)
        requires
            old(self).wf(),
        ensures
            final(self).wf(),
            final(self)@ == old(self)@.insert(k),
            added == !old(self)@.contains(k),
    {
        if self.index_of(k).is_some() {
            assert(self@ =~= old(self)@.insert(k));
            return false;
        }
        self.items.push(k);
        proof {
            old(self).items@.lemma_push_to_set_commute(k);
        }
        true
    }

    /// Remove `k`; whether it was there.
    pub fn remove(&mut self, k: DoorKey) -> (removed: bool)
        requires
            old(self).wf(),
        ensures
            final(self).wf(),
            final(self)@ == old(self)@.remove(k),
            removed == old(self)@.contains(k),
    {
        let i = match self.index_of(k) {
            Some(i) => i,
            None => {
                assert(self@ =~= old(self)@.remove(k));
                return false;
            },
        };
        self.items.remove(i);
        proof {
            let o = old(self).items@;
            let n = self.items@;
            assert(n =~= o.subrange(0, i as int) + o.subrange(i + 1, o.len() as int));
            assert forall|a: int, b: int| 0 <= a < n.len() && 0 <= b < n.len() && a != b implies n[a] != n[b] by {
                let a2 = if a < i { a } else { a + 1 };
                let b2 = if b < i { b } else { b + 1 };
                assert(n[a] == o[a2] && n[b] == o[b2]);
            }
            assert forall|x: DoorKey| #[trigger] n.to_set().contains(x) <==> o.to_set().remove(k).contains(x) by {
                if n.to_set().contains(x) {
                    let w = choose|w: int| 0 <= w < n.len() && n[w] == x;
                    let w2 = if w < i { w } else { w + 1 };
                    assert(o[w2] == x);
                    assert(w2 != i);
                }
                if o.to_set().remove(k).contains(x) {
                    let w = choose|w: int| 0 <= w < o.len() && o[w] == x;
                    assert(w != i);
                    let w2 = if w < i { w } else { w - 1 };
                    assert(n[w2] == x);
                }
            }
            assert(n.to_set() =~= o.to_set().remove(k));
        }
        true
    }

    /// Empty the set.
    pub fn clear(&mut self)
        ensures
            final(self).wf(),
            final(self)@ == Set::<DoorKey>::empty(),
    {
        self.items = Vec::new();
        assert(self@ =~= Set::<DoorKey>::empty());
    }

    /// The members, each once.
    pub fn to_vec(&self) -> (v: Vec<DoorKey>)
        ensures
            v@.to_set() == self@,
            v@ == self.items@,
    {
        let mut v: Vec<DoorKey> = Vec::new();
        let mut i: usize = 0;
        while i < self.items.len()
            invariant
                i <= self.items@.len(),
                v@ == self.items@.subrange(0, i as int),
            decreases self.items@.len() - i,
        {
            v.push(self.items[i]);
            proof {
                assert(self.items@.subrange(0, i + 1) =~= self.items@.subrange(0, i as int).push(self.items@[i as int]));
            }
            i = i + 1;
        }
        proof {
            assert(self.items@.subrange(0, self.items@.len() as int) =~= self.items@);
        }
        v
    }
}

/// The doors of one dungeon instance.
pub struct DungeonDoors {
    pub open: PairSet,
    pub locked_opens: Vec<(DoorKey, u64)>,
    pub generation: u64,
}

impl DungeonDoors {
    pub open spec fn wf(&self) -> bool {
        &&& self.open.wf()
        &&& forall|i: int, j: int| 0 <= i < j < self.locked_opens@.len()
            ==> #[trigger] self.locked_opens@[i].0 != #[trigger] self.locked_opens@[j].0
        &&& forall|i: int| 0 <= i < self.locked_opens@.len() ==> #[trigger] self.locked_opens@[i].1 <= self.generation
    }

    pub open spec fn has_opening(&self, k: DoorKey) -> bool {
        exists|i: int| 0 <= i < self.locked_opens@.len() && #[trigger] self.locked_opens@[i].0 == k
    }

    pub open spec fn view(&self) -> DoorsModel {
        DoorsModel {
            open: self.open@,
            opens: Map::new(
                |k: DoorKey| self.has_opening(k),
                |k: DoorKey| self.locked_opens@[choose|i: int| 0 <= i < self.locked_opens@.len()
                    && #[trigger] self.locked_opens@[i].0 == k].1,
            ),
            generation: self.generation,
        }
    }

    pub fn new() -> (d: Self)
        ensures
            d.wf(),
            d@.open == Set::<DoorKey>::empty(),
            d@.opens == Map::<DoorKey, u64>::empty(),
            d@.generation == 0,
    {
        let d = DungeonDoors { open: PairSet::new(), locked_opens: Vec::new(), generation: 0 };
        assert(d@.open =~= Set::<DoorKey>::empty());
        assert(d@.opens =~= Map::<DoorKey, u64>::empty());
        d
    }

    fn opening_index(&self, k: DoorKey) -> (r: Option<usize>)
        requires
            self.wf(),
        ensures
            match r {
                Some(i) => i < self.locked_opens@.len() && self.locked_opens@[i as int].0 == k
                    && self@.opens.contains_key(k) && self@.opens[k] == self.locked_opens@[i as int].1,
                None => !self@.opens.contains_key(k),
            },
    {
        let mut i: usize = 0;
        while i < self.locked_opens.len()
            invariant
                self.wf(),
                i <= self.locked_opens@.len(),
                forall|j: int| 0 <= j < i ==> #[trigger] self.locked_opens@[j].0 != k,
            decreases self.locked_opens@.len() - i,
        {
            let e = self.locked_opens[i].0;
            if e.0 == k.0 && e.1 == k.1 {
                proof {
                    let c = choose|c: int| 0 <= c < self.locked_opens@.len() && #[trigger] self.locked_opens@[c].0 == k;
                    if c != i {
                        if c < i {
                            assert(self.locked_opens@[c].0 != k);
                        } else {
                            assert(self.locked_opens@[i as int].0 != self.locked_opens@[c].0);
                        }
                    }
                }
                return Some(i);
            }
            i = i + 1;
        }
        None
    }

    /// Whether door `k` stands open.
    pub fn is_open(&self, k: DoorKey) -> (r: bool)
        ensures
            r == self@.open.contains(k),
    {
        self.open.contains(k)
    }

    /// The opening door `k` is on, if it is a locked door standing open.
    pub fn opening_of(&self, k: DoorKey) -> (r: Option<u64>)
        requires
            self.wf(),
        ensures
            match r {
                Some(g) => self@.opens.contains_key(k) && self@.opens[k] == g,
                None => !self@.opens.contains_key(k),
            },
    {
        match self.opening_index(k) {
            Some(i) => Some(self.locked_opens[i].1),
            None => None,
        }
    }

    fn set_opening(&mut self, k: DoorKey, g: u64)
        requires
            old(self).wf(),
            g <= old(self).generation,
        ensures
            final(self).wf(),
            final(self)@.opens == old(self)@.opens.insert(k, g),
            final(self).open == old(self).open,
            final(self).generation == old(self).generation,
    {
        match self.opening_index(k) {
            Some(i) => {
                self.locked_opens.set(i, (k, g));
                proof {
                    let v = self@.opens;
                    let w = old(self)@.opens.insert(k, g);
                    assert forall|x: DoorKey| #[trigger] v.contains_key(x) <==> w.contains_key(x) by {
                        if x != k && v.contains_key(x) {
                            let c = choose|c: int| 0 <= c < self.locked_opens@.len() && #[trigger] self.locked_opens@[c].0 == x;
                            assert(old(self).locked_opens@[c].0 == x);
                        }
                        if x != k && w.contains_key(x) {
                            let c = choose|c: int| 0 <= c < old(self).locked_opens@.len() && #[trigger] old(self).locked_opens@[c].0 == x;
                            assert(self.locked_opens@[c].0 == x);
                        }
                        if x == k {
                            assert(self.locked_opens@[i as int].0 == x);
                        }
                    }
                    assert forall|x: DoorKey| #[trigger] v.contains_key(x) implies v[x] == w[x] by {
                        let c = choose|c: int| 0 <= c < self.locked_opens@.len() && #[trigger] self.locked_opens@[c].0 == x;
                        if x == k {
                            if c != i {
                                assert(self.locked_opens@[c].0 != self.locked_opens@[i as int].0);
                            }
                        } else {
                            assert(old(self).locked_opens@[c].0 == x);
                            let c2 = choose|c2: int| 0 <= c2 < old(self).locked_opens@.len() && #[trigger] old(self).locked_opens@[c2].0 == x;
                            if c != c2 {
                                assert(old(self).locked_opens@[c].0 != old(self).locked_opens@[c2].0);
                            }
                        }
                    }
                    assert(v =~= w);
                }
            },
            None => {
                self.locked_opens.push((k, g));
                proof {
                    let n = old(self).locked_opens@.len() as int;
                    let v = self@.opens;
                    let w = old(self)@.opens.insert(k, g);
                    assert(self.locked_opens@[n] == (k, g));
                    assert forall|a: int, b: int| 0 <= a < b < self.locked_opens@.len()
                        implies #[trigger] self.locked_opens@[a].0 != #[trigger] self.locked_opens@[b].0 by {
                        if b == n {
                            assert(!old(self).has_opening(k));
                            assert(old(self).locked_opens@[a].0 != k);
                        } else {
                            assert(old(self).locked_opens@[a].0 != old(self).locked_opens@[b].0);
                        }
                    }
                    assert forall|x: DoorKey| #[trigger] v.contains_key(x) <==> w.contains_key(x) by {
                        if v.contains_key(x) && x != k {
                            let c = choose|c: int| 0 <= c < self.locked_opens@.len() && #[trigger] self.locked_opens@[c].0 == x;
                            assert(c < n);
                            assert(old(self).locked_opens@[c].0 == x);
                        }
                        if w.contains_key(x) && x != k {
                            let c = choose|c: int| 0 <= c < old(self).locked_opens@.len() && #[trigger] old(self).locked_opens@[c].0 == x;
                            assert(self.locked_opens@[c].0 == x);
                        }
                        if x == k {
                            assert(self.locked_opens@[n].0 == x);
                        }
                    }
                    assert forall|x: DoorKey| #[trigger] v.contains_key(x) implies v[x] == w[x] by {
                        let c = choose|c: int| 0 <= c < self.locked_opens@.len() && #[trigger] self.locked_opens@[c].0 == x;
                        if x == k {
                            if c != n {
                                assert(old(self).locked_opens@[c].0 == k);
                                assert(old(self).has_opening(k));
                            }
                        } else {
                            assert(c < n);
                            let c2 = choose|c2: int| 0 <= c2 < old(self).locked_opens@.len() && #[trigger] old(self).locked_opens@[c2].0 == x;
                            if c != c2 {
                                assert(old(self).locked_opens@[c].0 != old(self).locked_opens@[c2].0);
                            }
                        }
                    }
                    assert(v =~= w);
                }
            },
        }
    }

    fn clear_opening(&mut self, k: DoorKey)
        requires
            old(self).wf(),
        ensures
            final(self).wf(),
            final(self)@.opens == old(self)@.opens.remove(k),
            final(self).open == old(self).open,
            final(self).generation == old(self).generation,
    {
        match self.opening_index(k) {
            Some(i) => {
                self.locked_opens.remove(i);
                proof {
                    let o = old(self).locked_opens@;
                    let n = self.locked_opens@;
                    assert(n =~= o.subrange(0, i as int) + o.subrange(i + 1, o.len() as int));
                    assert forall|a: int, b: int| 0 <= a < b < n.len() implies #[trigger] n[a].0 != #[trigger] n[b].0 by {
                        let a2 = if a < i { a } else { a + 1 };
                        let b2 = if b < i { b } else { b + 1 };
                        assert(n[a] == o[a2] && n[b] == o[b2]);
                    }
                    assert forall|a: int| 0 <= a < n.len() implies #[trigger] n[a].1 <= self.generation by {
                        let a2 = if a < i { a } else { a + 1 };
                        assert(n[a] == o[a2]);
                    }
                    let v = self@.opens;
                    let w = old(self)@.opens.remove(k);
                    assert forall|x: DoorKey| #[trigger] v.contains_key(x) <==> w.contains_key(x) by {
                        if v.contains_key(x) {
                            let c = choose|c: int| 0 <= c < n.len() && #[trigger] n[c].0 == x;
                            let c2 = if c < i { c } else { c + 1 };
                            assert(o[c2].0 == x);
                            assert(c2 != i);
                        }
                        if w.contains_key(x) {
                            let c = choose|c: int| 0 <= c < o.len() && #[trigger] o[c].0 == x;
                            assert(c != i);
                            let c2 = if c < i { c } else { c - 1 };
                            assert(n[c2].0 == x);
                        }
                    }
                    assert forall|x: DoorKey| #[trigger] v.contains_key(x) implies v[x] == w[x] by {
                        let c = choose|c: int| 0 <= c < n.len() && #[trigger] n[c].0 == x;
                        let c2 = if c < i { c } else { c + 1 };
                        assert(o[c2].0 == x);
                        let c3 = choose|c3: int| 0 <= c3 < o.len() && #[trigger] o[c3].0 == x;
                        if c2 != c3 {
                            assert(o[c2].0 != o[c3].0);
                        }
                    }
                    assert(v =~= w);
                }
            },
            None => {
                assert(self@.opens =~= old(self)@.opens.remove(k));
            },
        }
    }

    /// Open door `k` if shut, shut it if open. A locked door (`locked`) that
    /// opens starts a new opening, whose number comes back for its timed
    /// close; a locked door that shuts forgets its opening.
    pub fn toggle(&mut self, k: DoorKey, locked: bool) -> (r: (bool, Option<u64>))
        requires
            old(self).wf(),
            old(self).generation < u64::MAX,
        ensures
            final(self).wf(),
            (final(self)@, r.0, r.1) == toggle_model(old(self)@, k, locked),
    {
        let is_open = !self.open.remove(k);
        if is_open {
            self.open.insert(k);
        }
        if locked && is_open {
            self.generation = self.generation + 1;
            let g = self.generation;
            proof {
                assert forall|i: int| 0 <= i < self.locked_opens@.len() implies #[trigger] self.locked_opens@[i].1 <= self.generation by {
                    assert(old(self).locked_opens@[i].1 <= old(self).generation);
                }
            }
            self.set_opening(k, g);
            proof {
                assert(self@ =~= toggle_model(old(self)@, k, locked).0);
            }
            (true, Some(g))
        } else {
            if locked {
                self.clear_opening(k);
            }
            proof {
                assert(self@.opens =~= toggle_model(old(self)@, k, locked).0.opens);
                assert(self@ =~= toggle_model(old(self)@, k, locked).0);
            }
            (is_open, None)
        }
    }

    /// A player's toggle of door `k`: an open door whose doorway a body
    /// occupies (`occupied`) stays open and nothing changes; otherwise the
    /// door toggles as `toggle` does.
    pub fn toggle_unless_occupied(&mut self, k: DoorKey, locked: bool, occupied: bool) -> (r: (bool, Option<u64>))
        requires
            old(self).wf(),
            old(self).generation < u64::MAX,
        ensures
            final(self).wf(),
            occupied && old(self)@.open.contains(k) ==> r == (true, None::<u64>) && final(self)@ == old(self)@,
            !(occupied && old(self)@.open.contains(k)) ==> (final(self)@, r.0, r.1) == toggle_model(old(self)@, k, locked),
    {
        if occupied && self.is_open(k) {
            return (true, None);
        }
        self.toggle(k, locked)
    }

    /// The timed close of opening `g` of door `k`, once its doorway is clear:
    /// shuts the door only if that opening is still the current one.
    pub fn close_locked(&mut self, k: DoorKey, g: u64) -> (shut: bool)
        requires
            old(self).wf(),
        ensures
            final(self).wf(),
            (final(self)@, shut) == close_model(old(self)@, k, g),
    {
        match self.opening_of(k) {
            Some(current) => {
                if current != g {
                    return false;
                }
            },
            None => return false,
        }
        self.clear_opening(k);
        let shut = self.open.remove(k);
        assert(self@ =~= close_model(old(self)@, k, g).0);
        shut
    }

    /// Whether the stair room of floor `depth` is sealed: the floor has
    /// locked doors (`locked_ids`) and none of them stands open.
    pub fn sealed(&self, depth: u8, locked_ids: &Vec<u32>) -> (r: bool)
        ensures
            r == (locked_ids@.len() > 0 && forall|i: int| 0 <= i < locked_ids@.len()
                ==> !self@.open.contains((depth, #[trigger] locked_ids@[i]))),
    {
        if locked_ids.len() == 0 {
            return false;
        }
        let mut i: usize = 0;
        while i < locked_ids.len()
            invariant
                i <= locked_ids@.len(),
                forall|j: int| 0 <= j < i ==> !self@.open.contains((depth, #[trigger] locked_ids@[j])),
            decreases locked_ids@.len() - i,
        {
            if self.is_open((depth, locked_ids[i])) {
                return false;
            }
            i = i + 1;
        }
        true
    }
}

/// A timed close of an opening that is no longer current changes nothing.
pub proof fn law_stale_close_changes_nothing(m: DoorsModel, k: DoorKey, g: u64)
    requires
        !(m.opens.contains_key(k) && m.opens[k] == g),
    ensures
        close_model(m, k, g) == (m, false),
{
}

/// Shutting a locked door and opening it again starts a new opening, which
/// the first opening's timed close leaves standing.
pub proof fn law_reopened_door_outlives_old_timer(m: DoorsModel, k: DoorKey)
    requires
        openings_issued(m),
        m.generation + 2 <= u64::MAX,
        !m.open.contains(k),
    ensures
        ({
            let (m1, open1, g1) = toggle_model(m, k, true);
            let (m2, open2, _) = toggle_model(m1, k, true);
            let (m3, open3, g3) = toggle_model(m2, k, true);
            &&& open1 && !open2 && open3
            &&& g1 is Some && g3 is Some && g1 != g3
            &&& close_model(m3, k, g1->0) == (m3, false)
        }),
{
}

/// A player in a floor's arrival stair room is out of monster sight while
/// freshly arrived or while the room is sealed behind shut locked doors.
pub fn hidden_in_stair_room(in_stair_room: bool, arrived_at: Option<u64>, now: u64, sealed: bool) -> (r: bool)
    ensures
        r == (in_stair_room && ((match arrived_at {
            Some(at) => (if now >= at { now - at } else { 0 }) < STAIR_ROOM_ARRIVAL_GRACE_MS,
            None => false,
        }) || sealed)),
{
    if !in_stair_room {
        return false;
    }
    let just_arrived = match arrived_at {
        Some(at) => now.saturating_sub(at) < STAIR_ROOM_ARRIVAL_GRACE_MS,
        None => false,
    };
    just_arrived || sealed
}

/// One monster spawn slot of a floor: the live monster's id (empty while
/// its spawn is in flight), when the slot may spawn again, and whether it
/// holds the floor's guardian.
pub struct SpawnSlot {
    pub alive_monster_id: Option<String>,
    pub respawn_at_ms: u64,
    pub is_boss: bool,
}

/// A slot may spawn at `now`: nothing lives in it and its wait is over.
pub open spec fn slot_free(s: SpawnSlot, now: u64) -> bool {
    s.alive_monster_id is None && now >= s.respawn_at_ms
}

/// `new` is slot `old` claimed for a spawn in flight: an empty monster id,
/// the rest as before.
pub open spec fn claimed_slot(new: SpawnSlot, old: SpawnSlot) -> bool {
    &&& new.alive_monster_id matches Some(id) && id@.len() == 0
    &&& new.respawn_at_ms == old.respawn_at_ms
    &&& new.is_boss == old.is_boss
}

/// The slots of `slots` that are free at `now`, in order.
pub open spec fn free_slots(slots: Seq<SpawnSlot>, now: u64) -> Seq<int>
    decreases slots.len(),
{
    if slots.len() == 0 {
        Seq::empty()
    } else if slot_free(slots.last(), now) {
        free_slots(slots.drop_last(), now).push(slots.len() - 1)
    } else {
        free_slots(slots.drop_last(), now)
    }
}

/// The live state of one dungeon floor: its spawn slots and who is on it,
/// with when each arrived.
pub struct FloorRuntime {
    pub slots: Vec<SpawnSlot>,
    pub players: IdMap<u64>,
}

/// The ids of the monsters alive in `slots`, in slot order, leaving out
/// spawns still in flight.
pub open spec fn alive_ids(slots: Seq<SpawnSlot>) -> Seq<Seq<char>>
    decreases slots.len(),
{
    if slots.len() == 0 {
        Seq::empty()
    } else {
        let rest = alive_ids(slots.drop_last());
        match slots.last().alive_monster_id {
            Some(id) => if id@.len() > 0 { rest.push(id@) } else { rest },
            None => rest,
        }
    }
}

impl FloorRuntime {
    pub open spec fn wf(&self) -> bool {
        self.players.wf()
    }

    /// A floor as a player first enters it: one empty slot per spawn of its
    /// layout, `is_boss[i]` telling which hold guardians.
    pub fn new(is_boss: &Vec<bool>) -> (f: Self)
        ensures
            f.wf(),
            f.players@ == Map::<PlayerId, u64>::empty(),
            f.slots@.len() == is_boss@.len(),
            forall|i: int| 0 <= i < is_boss@.len() ==> #[trigger] f.slots@[i]
                == (SpawnSlot { alive_monster_id: None, respawn_at_ms: 0, is_boss: is_boss@[i] }),
    {
        let mut slots: Vec<SpawnSlot> = Vec::new();
        let mut i: usize = 0;
        while i < is_boss.len()
            invariant
                i <= is_boss@.len(),
                slots@.len() == i,
                forall|j: int| 0 <= j < i ==> #[trigger] slots@[j]
                    == (SpawnSlot { alive_monster_id: None, respawn_at_ms: 0, is_boss: is_boss@[j] }),
            decreases is_boss@.len() - i,
        {
            slots.push(SpawnSlot { alive_monster_id: None, respawn_at_ms: 0, is_boss: is_boss[i] });
            i = i + 1;
        }
        FloorRuntime { slots, players: IdMap::new() }
    }

    /// `player` steps onto the floor at `now`.
    pub fn arrive(&mut self, player: PlayerId, now: u64)
        requires
            old(self).wf(),
        ensures
            final(self).wf(),
            final(self).players@ == old(self).players@.insert(player, now),
            final(self).slots == old(self).slots,
    {
        self.players.insert(player, now);
    }

    /// Claim every slot free at `now` for a spawn, so that concurrent
    /// callers cannot spawn it twice; the claimed slots come back in order.
    pub fn claim_free_slots(&mut self, now: u64) -> (claimed: Vec<usize>)
        ensures
            final(self).players == old(self).players,
            final(self).slots@.len() == old(self).slots@.len(),
            claimed@.map_values(|i: usize| i as int) == free_slots(old(self).slots@, now),
            forall|i: int| 0 <= i < old(self).slots@.len() ==> if slot_free(old(self).slots@[i], now) {
                claimed_slot(#[trigger] final(self).slots@[i], old(self).slots@[i])
            } else {
                final(self).slots@[i] == old(self).slots@[i]
            },
    {
        let mut claimed: Vec<usize> = Vec::new();
        let mut i: usize = 0;
        let n = self.slots.len();
        proof {
            assert(old(self).slots@.subrange(0, 0) =~= Seq::<SpawnSlot>::empty());
        }
        while i < n
            invariant
                n == old(self).slots@.len(),
                self.slots@.len() == n,
                self.players == old(self).players,
                i <= n,
                claimed@.map_values(|i: usize| i as int) == free_slots(old(self).slots@.subrange(0, i as int), now),
                forall|j: int| 0 <= j < i ==> if slot_free(old(self).slots@[j], now) {
                    claimed_slot(#[trigger] self.slots@[j], old(self).slots@[j])
                } else {
                    self.slots@[j] == old(self).slots@[j]
                },
                forall|j: int| i <= j < n ==> #[trigger] self.slots@[j] == old(self).slots@[j],
            decreases n - i,
        {
            proof {
                let next = old(self).slots@.subrange(0, i + 1);
                assert(next.drop_last() =~= old(self).slots@.subrange(0, i as int));
                assert(next.last() == old(self).slots@[i as int]);
            }
            let free = self.slots[i].alive_monster_id.is_none() && now >= self.slots[i].respawn_at_ms;
            if free {
                let slot = SpawnSlot {
                    alive_monster_id: Some(String::new()),
                    respawn_at_ms: self.slots[i].respawn_at_ms,
                    is_boss: self.slots[i].is_boss,
                };
                self.slots.set(i, slot);
                let ghost before = claimed@;
                claimed.push(i);
                proof {
                    assert(claimed@.map_values(|i: usize| i as int) =~= before.map_values(|i: usize| i as int).push(i as int));
                }
            }
            i = i + 1;
        }
        proof {
            assert(old(self).slots@.subrange(0, n as int) =~= old(self).slots@);
        }
        claimed
    }

    /// Record how the spawn for slot `slot` went: the monster's id, or a
    /// failure that frees the slot to retry after `SPAWN_RETRY_MS`.
    pub fn spawned(&mut self, slot: usize, monster: Option<String>, now: u64)
        requires
            now <= u64::MAX - SPAWN_RETRY_MS,
        ensures
            final(self).players == old(self).players,
            final(self).slots@.len() == old(self).slots@.len(),
            forall|i: int| 0 <= i < old(self).slots@.len() && i != slot ==> #[trigger] final(self).slots@[i] == old(self).slots@[i],
            slot < old(self).slots@.len() ==> final(self).slots@[slot as int] == match monster {
                Some(id) => SpawnSlot { alive_monster_id: Some(id), ..old(self).slots@[slot as int] },
                None => SpawnSlot { alive_monster_id: None, respawn_at_ms: (now + SPAWN_RETRY_MS) as u64, ..old(self).slots@[slot as int] },
            },
    {
        if slot >= self.slots.len() {
            return;
        }
        let is_boss = self.slots[slot].is_boss;
        let respawn = self.slots[slot].respawn_at_ms;
        let updated = match monster {
            Some(id) => SpawnSlot { alive_monster_id: Some(id), respawn_at_ms: respawn, is_boss },
            None => SpawnSlot { alive_monster_id: None, respawn_at_ms: now + SPAWN_RETRY_MS, is_boss },
        };
        self.slots.set(slot, updated);
    }

    /// `player` leaves the floor. When it empties, its live monsters go
    /// (their ids come back, for despawning) and the respawn timers stay.
    pub fn leave(&mut self, player: PlayerId) -> (despawn: Vec<String>)
        requires
            old(self).wf(),
        ensures
            final(self).wf(),
            final(self).players@ == old(self).players@.remove(player),
            final(self).slots@.len() == old(self).slots@.len(),
            final(self).players@ != Map::<PlayerId, u64>::empty() ==> despawn@.len() == 0 && final(self).slots == old(self).slots,
            final(self).players@ == Map::<PlayerId, u64>::empty() ==> views(despawn@) == alive_ids(old(self).slots@)
                && forall|i: int| 0 <= i < old(self).slots@.len() ==> #[trigger] final(self).slots@[i]
                    == (SpawnSlot { alive_monster_id: None, ..old(self).slots@[i] }),
    {
        self.players.remove(player);
        if self.players.entries.len() > 0 {
            assert(self.players@.contains_key(self.players.entries@[0].0));
            return Vec::new();
        }
        assert(self.players@ =~= Map::<PlayerId, u64>::empty());
        let mut despawn: Vec<String> = Vec::new();
        let n = self.slots.len();
        let mut i: usize = 0;
        proof {
            assert(old(self).slots@.subrange(0, 0) =~= Seq::<SpawnSlot>::empty());
        }
        while i < n
            invariant
                n == old(self).slots@.len(),
                self.slots@.len() == n,
                self.players.wf(),
                self.players@ == old(self).players@.remove(player),
                self.players@ == Map::<PlayerId, u64>::empty(),
                i <= n,
                views(despawn@) == alive_ids(old(self).slots@.subrange(0, i as int)),
                forall|j: int| 0 <= j < i ==> #[trigger] self.slots@[j] == (SpawnSlot { alive_monster_id: None, ..old(self).slots@[j] }),
                forall|j: int| i <= j < n ==> #[trigger] self.slots@[j] == old(self).slots@[j],
            decreases n - i,
        {
            proof {
                let next = old(self).slots@.subrange(0, i + 1);
                assert(next.drop_last() =~= old(self).slots@.subrange(0, i as int));
                assert(next.last() == old(self).slots@[i as int]);
            }
            let is_boss = self.slots[i].is_boss;
            let respawn = self.slots[i].respawn_at_ms;
            let taken = self.slots[i].alive_monster_id.clone();
            self.slots.set(i, SpawnSlot { alive_monster_id: None, respawn_at_ms: respawn, is_boss });
            match taken {
                Some(id) => {
                    if id.unicode_len() > 0 {
                        let ghost before = despawn@;
                        despawn.push(id);
                        proof {
                            assert(views(despawn@) =~= views(before).push(despawn@[before.len() as int]@));
                        }
                    }
                },
                None => {},
            }
            i = i + 1;
        }
        proof {
            assert(old(self).slots@.subrange(0, n as int) =~= old(self).slots@);
        }
        despawn
    }

    /// The nightly reset of a floor nobody is on: every slot empties and
    /// may spawn at once.
    pub fn reset_if_empty(&mut self)
        requires
            old(self).wf(),
        ensures
            final(self).players == old(self).players,
            final(self).slots@.len() == old(self).slots@.len(),
            forall|i: int| 0 <= i < old(self).slots@.len() ==> #[trigger] final(self).slots@[i] == if old(self).players@ == Map::<PlayerId, u64>::empty() {
                SpawnSlot { alive_monster_id: None, respawn_at_ms: 0, ..old(self).slots@[i] }
            } else {
                old(self).slots@[i]
            },
    {
        if self.players.entries.len() > 0 {
            assert(self.players@.contains_key(self.players.entries@[0].0));
            return;
        }
        assert(self.players@ =~= Map::<PlayerId, u64>::empty());
        let n = self.slots.len();
        let mut i: usize = 0;
        while i < n
            invariant
                n == old(self).slots@.len(),
                self.slots@.len() == n,
                self.players == old(self).players,
                old(self).players@ == Map::<PlayerId, u64>::empty(),
                i <= n,
                forall|j: int| 0 <= j < i ==> #[trigger] self.slots@[j] == (SpawnSlot { alive_monster_id: None, respawn_at_ms: 0, ..old(self).slots@[j] }),
                forall|j: int| i <= j < n ==> #[trigger] self.slots@[j] == old(self).slots@[j],
            decreases n - i,
        {
            let is_boss = self.slots[i].is_boss;
            self.slots.set(i, SpawnSlot { alive_monster_id: None, respawn_at_ms: 0, is_boss });
            i = i + 1;
        }
    }

    /// A dungeon monster in slot `slot` died: the slot empties and waits
    /// until `respawn_at_ms`. Whether the slot exists.
    pub fn monster_dead(&mut self, slot: usize, respawn_at_ms: u64) -> (found: bool)
        ensures
            found == (slot < old(self).slots@.len()),
            final(self).players == old(self).players,
            final(self).slots@.len() == old(self).slots@.len(),
            forall|i: int| 0 <= i < old(self).slots@.len() && i != slot ==> #[trigger] final(self).slots@[i] == old(self).slots@[i],
            found ==> final(self).slots@[slot as int]
                == (SpawnSlot { alive_monster_id: None, respawn_at_ms, ..old(self).slots@[slot as int] }),
    {
        if slot >= self.slots.len() {
            return false;
        }
        let is_boss = self.slots[slot].is_boss;
        self.slots.set(slot, SpawnSlot { alive_monster_id: None, respawn_at_ms, is_boss });
        true
    }
}

/// When a slain dungeon monster's slot may spawn again: a guardian's waits
/// for the nightly reset, others after `monster_respawn_ms` of the band's
/// live population.
pub fn respawn_at(is_boss: bool, now: u64, band_population: usize) -> (at: u64)
    requires
        now <= u64::MAX - 300_000,
    ensures
        at == if is_boss { BOSS_RESPAWN_NEVER } else { (now + respawn_delay(band_population)) as u64 },
{
    if is_boss {
        BOSS_RESPAWN_NEVER
    } else {
        now + monster_respawn_ms(band_population)
    }
}

/// A character's claim on a dungeon's treasure chest: when it was opened,
/// in game seconds, and the night (epoch) that fell in.
pub struct ChestOpen {
    pub character_id: i64,
    pub entrance_id: String,
    pub opened_seconds: i64,
    pub night: i64,
}

/// Who opened which dungeon chest: (character, entrance) to (opened
/// seconds, night).
pub type ChestKey = (i64, Seq<char>);

/// The chest claims a character holds, keyed by character and entrance.
pub struct ChestOpens {
    pub entries: Vec<ChestOpen>,
}

/// The key of a claim.
pub open spec fn chest_key(e: ChestOpen) -> ChestKey {
    (e.character_id, e.entrance_id@)
}

/// A recorded open of `k` falls on or after night `epoch`.
pub open spec fn opened_since_in(m: Map<ChestKey, (i64, i64)>, k: ChestKey, epoch: i64) -> bool {
    m.contains_key(k) && m[k].1 >= epoch
}

/// Claiming chest `k` at `now` in night `tonight`: refused when already
/// opened tonight; otherwise older nights' entries are dropped (the chest
/// has refilled since) and the claim recorded.
pub open spec fn claim_model(m: Map<ChestKey, (i64, i64)>, k: ChestKey, now: i64, tonight: i64)
    -> (Map<ChestKey, (i64, i64)>, bool) {
    if opened_since_in(m, k, tonight) {
        (m, false)
    } else {
        (Map::new(|x: ChestKey| m.contains_key(x) && m[x].1 >= tonight, |x: ChestKey| m[x]).insert(k, (now, tonight)), true)
    }
}

impl ChestOpens {
    pub open spec fn wf(&self) -> bool {
        forall|i: int, j: int| 0 <= i < j < self.entries@.len()
            ==> chest_key(#[trigger] self.entries@[i]) != chest_key(#[trigger] self.entries@[j])
    }

    pub open spec fn has(&self, k: ChestKey) -> bool {
        exists|i: int| 0 <= i < self.entries@.len() && chest_key(#[trigger] self.entries@[i]) == k
    }

    pub open spec fn view(&self) -> Map<ChestKey, (i64, i64)> {
        Map::new(
            |k: ChestKey| self.has(k),
            |k: ChestKey| {
                let e = self.entries@[choose|i: int| 0 <= i < self.entries@.len() && chest_key(#[trigger] self.entries@[i]) == k];
                (e.opened_seconds, e.night)
            },
        )
    }

    pub fn new() -> (c: Self)
        ensures
            c.wf(),
            c@ == Map::<ChestKey, (i64, i64)>::empty(),
    {
        let c = ChestOpens { entries: Vec::new() };
        assert(c@ =~= Map::<ChestKey, (i64, i64)>::empty());
        c
    }

    fn index_of(&self, character_id: i64, entrance_id: &str) -> (r: Option<usize>)
        requires
            self.wf(),
        ensures
            match r {
                Some(i) => i < self.entries@.len() && chest_key(self.entries@[i as int]) == (character_id, entrance_id@)
                    && self@.contains_key((character_id, entrance_id@))
                    && self@[(character_id, entrance_id@)] == (self.entries@[i as int].opened_seconds, self.entries@[i as int].night),
                None => !self@.contains_key((character_id, entrance_id@)),
            },
    {
        let ghost k = (character_id, entrance_id@);
        let want = crate::text::owned(entrance_id);
        let mut i: usize = 0;
        while i < self.entries.len()
            invariant
                self.wf(),
                want@ == entrance_id@,
                k == (character_id, entrance_id@),
                i <= self.entries@.len(),
                forall|j: int| 0 <= j < i ==> chest_key(#[trigger] self.entries@[j]) != k,
            decreases self.entries@.len() - i,
        {
            if self.entries[i].character_id == character_id && self.entries[i].entrance_id.eq(&want) {
                proof {
                    let c = choose|c: int| 0 <= c < self.entries@.len() && chest_key(#[trigger] self.entries@[c]) == k;
                    if c != i {
                        if c < i {
                            assert(chest_key(self.entries@[c]) != k);
                        } else {
                            assert(chest_key(self.entries@[i as int]) != chest_key(self.entries@[c]));
                        }
                    }
                }
                return Some(i);
            }
            i = i + 1;
        }
        None
    }

    /// Whether `character_id` opened `entrance_id`'s chest on or after
    /// night `epoch`.
    pub fn opened_since(&self, character_id: i64, entrance_id: &str, epoch: i64) -> (r: bool)
        requires
            self.wf(),
        ensures
            r == opened_since_in(self@, (character_id, entrance_id@), epoch),
    {
        match self.index_of(character_id, entrance_id) {
            Some(i) => self.entries[i].night >= epoch,
            None => false,
        }
    }

    /// Record (or replace) a claim.
    pub fn record(&mut self, character_id: i64, entrance_id: String, opened_seconds: i64, night: i64)
        requires
            old(self).wf(),
        ensures
            final(self).wf(),
            final(self)@ == old(self)@.insert((character_id, entrance_id@), (opened_seconds, night)),
    {
        let ghost k = (character_id, entrance_id@);
        let e = ChestOpen { character_id, entrance_id, opened_seconds, night };
        match self.index_of(character_id, e.entrance_id.as_str()) {
            Some(i) => {
                self.entries.set(i, e);
                proof {
                    let v = self@;
                    let w = old(self)@.insert(k, (opened_seconds, night));
                    assert forall|a: int, b: int| 0 <= a < b < self.entries@.len()
                        implies chest_key(#[trigger] self.entries@[a]) != chest_key(#[trigger] self.entries@[b]) by {
                        assert(chest_key(self.entries@[a]) == chest_key(old(self).entries@[a]));
                        assert(chest_key(self.entries@[b]) == chest_key(old(self).entries@[b]));
                    }
                    assert forall|x: ChestKey| #[trigger] v.contains_key(x) <==> w.contains_key(x) by {
                        if v.contains_key(x) {
                            let c = choose|c: int| 0 <= c < self.entries@.len() && chest_key(#[trigger] self.entries@[c]) == x;
                            assert(chest_key(old(self).entries@[c]) == x);
                        }
                        if w.contains_key(x) && x != k {
                            let c = choose|c: int| 0 <= c < old(self).entries@.len() && chest_key(#[trigger] old(self).entries@[c]) == x;
                            assert(chest_key(self.entries@[c]) == x);
                        }
                        if x == k {
                            assert(chest_key(self.entries@[i as int]) == x);
                        }
                    }
                    assert forall|x: ChestKey| #[trigger] v.contains_key(x) implies v[x] == w[x] by {
                        let c = choose|c: int| 0 <= c < self.entries@.len() && chest_key(#[trigger] self.entries@[c]) == x;
                        if x == k {
                            if c != i {
                                assert(chest_key(self.entries@[c]) != chest_key(self.entries@[i as int]));
                            }
                        } else {
                            let c2 = choose|c2: int| 0 <= c2 < old(self).entries@.len() && chest_key(#[trigger] old(self).entries@[c2]) == x;
                            assert(chest_key(old(self).entries@[c]) == x);
                            if c != c2 {
                                assert(chest_key(old(self).entries@[c]) != chest_key(old(self).entries@[c2]));
                            }
                        }
                    }
                    assert(v =~= w);
                }
            },
            None => {
                self.entries.push(e);
                proof {
                    let n = old(self).entries@.len() as int;
                    let v = self@;
                    let w = old(self)@.insert(k, (opened_seconds, night));
                    assert(chest_key(self.entries@[n]) == k);
                    assert forall|a: int, b: int| 0 <= a < b < self.entries@.len()
                        implies chest_key(#[trigger] self.entries@[a]) != chest_key(#[trigger] self.entries@[b]) by {
                        if b == n {
                            assert(!old(self).has(k));
                            assert(chest_key(old(self).entries@[a]) != k);
                        } else {
                            assert(chest_key(old(self).entries@[a]) != chest_key(old(self).entries@[b]));
                        }
                    }
                    assert forall|x: ChestKey| #[trigger] v.contains_key(x) <==> w.contains_key(x) by {
                        if v.contains_key(x) && x != k {
                            let c = choose|c: int| 0 <= c < self.entries@.len() && chest_key(#[trigger] self.entries@[c]) == x;
                            assert(c < n);
                            assert(chest_key(old(self).entries@[c]) == x);
                        }
                        if w.contains_key(x) && x != k {
                            let c = choose|c: int| 0 <= c < old(self).entries@.len() && chest_key(#[trigger] old(self).entries@[c]) == x;
                            assert(chest_key(self.entries@[c]) == x);
                        }
                    }
                    assert forall|x: ChestKey| #[trigger] v.contains_key(x) implies v[x] == w[x] by {
                        let c = choose|c: int| 0 <= c < self.entries@.len() && chest_key(#[trigger] self.entries@[c]) == x;
                        if x == k {
                            if c != n {
                                assert(chest_key(old(self).entries@[c]) == k);
                                assert(old(self).has(k));
                            }
                        } else {
                            assert(c < n);
                            let c2 = choose|c2: int| 0 <= c2 < old(self).entries@.len() && chest_key(#[trigger] old(self).entries@[c2]) == x;
                            if c != c2 {
                                assert(chest_key(old(self).entries@[c]) != chest_key(old(self).entries@[c2]));
                            }
                        }
                    }
                    assert(v =~= w);
                }
            },
        }
    }

    /// Seed a character's chest history at login, each entry as (entrance,
    /// opened seconds, night); without it a reconnect would read as never
    /// opened.
    pub fn set_chest_opens(&mut self, character_id: i64, opens: Vec<(String, i64, i64)>)
        requires
            old(self).wf(),
        ensures
            final(self).wf(),
            forall|k: ChestKey| k.0 != character_id ==> (#[trigger] final(self)@.contains_key(k) <==> old(self)@.contains_key(k)),
            forall|k: ChestKey| k.0 != character_id && old(self)@.contains_key(k) ==> #[trigger] final(self)@[k] == old(self)@[k],
            forall|i: int| 0 <= i < opens@.len() ==> final(self)@.contains_key((character_id, #[trigger] opens@[i].0@)),
    {
        let mut i: usize = 0;
        while i < opens.len()
            invariant
                self.wf(),
                i <= opens@.len(),
                forall|k: ChestKey| k.0 != character_id ==> (#[trigger] self@.contains_key(k) <==> old(self)@.contains_key(k)),
                forall|k: ChestKey| k.0 != character_id && old(self)@.contains_key(k) ==> #[trigger] self@[k] == old(self)@[k],
                forall|j: int| 0 <= j < i ==> self@.contains_key((character_id, #[trigger] opens@[j].0@)),
            decreases opens@.len() - i,
        {
            let (entrance, seconds, night) = (opens[i].0.clone(), opens[i].1, opens[i].2);
            self.record(character_id, entrance, seconds, night);
            i = i + 1;
        }
    }

    /// Claim `character_id`'s open of `entrance_id`'s chest at
    /// `now_seconds`, in night `tonight`; false when they already took it
    /// tonight. Claims from earlier nights carry nothing (the chest has
    /// refilled), so the claim drops them on its way through.
    pub fn claim(&mut self, character_id: i64, entrance_id: &str, now_seconds: i64, tonight: i64) -> (claimed: bool)
        requires
            old(self).wf(),
        ensures
            final(self).wf(),
            (final(self)@, claimed) == claim_model(old(self)@, (character_id, entrance_id@), now_seconds, tonight),
    {
        if self.opened_since(character_id, entrance_id, tonight) {
            return false;
        }
        let ghost m = self@;
        let mut kept: Vec<ChestOpen> = Vec::new();
        let mut i: usize = 0;
        while i < self.entries.len()
            invariant
                self.wf(),
                self@ == m,
                i <= self.entries@.len(),
                forall|a: int, b: int| 0 <= a < b < kept@.len() ==> chest_key(#[trigger] kept@[a]) != chest_key(#[trigger] kept@[b]),
                forall|a: int| #![trigger kept@[a]] 0 <= a < kept@.len() ==> exists|j: int| 0 <= j < i && #[trigger] self.entries@[j] == kept@[a],
                forall|a: int| 0 <= a < kept@.len() ==> (#[trigger] kept@[a]).night >= tonight,
                forall|j: int| 0 <= j < i && (#[trigger] self.entries@[j]).night >= tonight ==> exists|a: int| 0 <= a < kept@.len() && kept@[a] == self.entries@[j],
            decreases self.entries@.len() - i,
        {
            if self.entries[i].night >= tonight {
                let e = ChestOpen {
                    character_id: self.entries[i].character_id,
                    entrance_id: self.entries[i].entrance_id.clone(),
                    opened_seconds: self.entries[i].opened_seconds,
                    night: self.entries[i].night,
                };
                proof {
                    assert forall|a: int| 0 <= a < kept@.len() implies chest_key(kept@[a]) != chest_key(e) by {
                        let j = choose|j: int| 0 <= j < i && #[trigger] self.entries@[j] == kept@[a];
                        assert(chest_key(self.entries@[j]) != chest_key(self.entries@[i as int]));
                    }
                }
                let ghost before = kept@;
                kept.push(e);
                proof {
                    assert forall|a: int| #![trigger kept@[a]] 0 <= a < kept@.len() implies exists|j: int| 0 <= j < i + 1 && #[trigger] self.entries@[j] == kept@[a] by {
                        if a < before.len() {
                            let j = choose|j: int| 0 <= j < i && #[trigger] self.entries@[j] == before[a];
                            assert(self.entries@[j] == kept@[a]);
                        } else {
                            assert(self.entries@[i as int] == kept@[a]);
                        }
                    }
                    assert forall|j: int| 0 <= j < i + 1 && (#[trigger] self.entries@[j]).night >= tonight
                        implies exists|a: int| 0 <= a < kept@.len() && kept@[a] == self.entries@[j] by {
                        if j < i {
                            let a = choose|a: int| 0 <= a < before.len() && before[a] == self.entries@[j];
                            assert(kept@[a] == self.entries@[j]);
                        } else {
                            assert(kept@[before.len() as int] == self.entries@[j]);
                        }
                    }
                }
            }
            i = i + 1;
        }
        let ghost kept_seq = kept@;
        self.entries = kept;
        proof {
            let v = self@;
            let w = Map::new(|x: ChestKey| m.contains_key(x) && m[x].1 >= tonight, |x: ChestKey| m[x]);
            assert forall|x: ChestKey| #[trigger] v.contains_key(x) <==> w.contains_key(x) by {
                if v.contains_key(x) {
                    let a = choose|a: int| 0 <= a < kept_seq.len() && chest_key(#[trigger] kept_seq[a]) == x;
                    let j = choose|j: int| 0 <= j < old(self).entries@.len() && #[trigger] old(self).entries@[j] == kept_seq[a];
                    assert(chest_key(old(self).entries@[j]) == x);
                    let c = choose|c: int| 0 <= c < old(self).entries@.len() && chest_key(#[trigger] old(self).entries@[c]) == x;
                    if c != j {
                        assert(chest_key(old(self).entries@[c]) != chest_key(old(self).entries@[j]));
                    }
                }
                if w.contains_key(x) {
                    let c = choose|c: int| 0 <= c < old(self).entries@.len() && chest_key(#[trigger] old(self).entries@[c]) == x;
                    let a = choose|a: int| 0 <= a < kept_seq.len() && kept_seq[a] == old(self).entries@[c];
                    assert(chest_key(kept_seq[a]) == x);
                }
            }
            assert forall|x: ChestKey| #[trigger] v.contains_key(x) implies v[x] == w[x] by {
                let a = choose|a: int| 0 <= a < kept_seq.len() && chest_key(#[trigger] kept_seq[a]) == x;
                let j = choose|j: int| 0 <= j < old(self).entries@.len() && #[trigger] old(self).entries@[j] == kept_seq[a];
                let c = choose|c: int| 0 <= c < old(self).entries@.len() && chest_key(#[trigger] old(self).entries@[c]) == x;
                if c != j {
                    assert(chest_key(old(self).entries@[c]) != chest_key(old(self).entries@[j]));
                }
            }
            assert(v =~= w);
        }
        self.record(character_id, crate::text::owned(entrance_id), now_seconds, tonight);
        true
    }

    /// Undo a claim whose storing failed, so that a repaired store can be
    /// retried tonight; only the entry this attempt wrote goes, not one a
    /// relog has since loaded.
    pub fn rollback(&mut self, character_id: i64, entrance_id: &str, opened_seconds: i64)
        requires
            old(self).wf(),
        ensures
            final(self).wf(),
            final(self)@ == if old(self)@.contains_key((character_id, entrance_id@))
                && old(self)@[(character_id, entrance_id@)].0 == opened_seconds {
                old(self)@.remove((character_id, entrance_id@))
            } else {
                old(self)@
            },
    {
        let ghost k = (character_id, entrance_id@);
        let i = match self.index_of(character_id, entrance_id) {
            Some(i) => i,
            None => return,
        };
        if self.entries[i].opened_seconds != opened_seconds {
            return;
        }
        self.entries.remove(i);
        proof {
            let o = old(self).entries@;
            let n = self.entries@;
            assert(n =~= o.subrange(0, i as int) + o.subrange(i + 1, o.len() as int));
            assert forall|a: int, b: int| 0 <= a < b < n.len() implies chest_key(#[trigger] n[a]) != chest_key(#[trigger] n[b]) by {
                let a2 = if a < i { a } else { a + 1 };
                let b2 = if b < i { b } else { b + 1 };
                assert(n[a] == o[a2] && n[b] == o[b2]);
            }
            let v = self@;
            let w = old(self)@.remove(k);
            assert forall|x: ChestKey| #[trigger] v.contains_key(x) <==> w.contains_key(x) by {
                if v.contains_key(x) {
                    let c = choose|c: int| 0 <= c < n.len() && chest_key(#[trigger] n[c]) == x;
                    let c2 = if c < i { c } else { c + 1 };
                    assert(chest_key(o[c2]) == x);
                    assert(c2 != i);
                }
                if w.contains_key(x) {
                    let c = choose|c: int| 0 <= c < o.len() && chest_key(#[trigger] o[c]) == x;
                    assert(c != i);
                    let c2 = if c < i { c } else { c - 1 };
                    assert(chest_key(n[c2]) == x);
                }
            }
            assert forall|x: ChestKey| #[trigger] v.contains_key(x) implies v[x] == w[x] by {
                let c = choose|c: int| 0 <= c < n.len() && chest_key(#[trigger] n[c]) == x;
                let c2 = if c < i { c } else { c + 1 };
                assert(chest_key(o[c2]) == x);
                let c3 = choose|c3: int| 0 <= c3 < o.len() && chest_key(#[trigger] o[c3]) == x;
                if c2 != c3 {
                    assert(chest_key(o[c2]) != chest_key(o[c3]));
                }
            }
            assert(v =~= w);
        }
    }
}

/// A character opens a dungeon's chest at most once a night: a second claim
/// in the same night is refused.
pub proof fn law_one_chest_claim_per_night(m: Map<ChestKey, (i64, i64)>, k: ChestKey, now: i64, later: i64, tonight: i64)
    ensures
        !claim_model(claim_model(m, k, now, tonight).0, k, later, tonight).1,
{
}

/// After a claim, only entries from that night on remain.
pub proof fn law_claim_forgets_earlier_nights(m: Map<ChestKey, (i64, i64)>, k: ChestKey, now: i64, tonight: i64)
    requires
        claim_model(m, k, now, tonight).1,
    ensures
        forall|x: ChestKey| #[trigger] claim_model(m, k, now, tonight).0.contains_key(x)
            ==> claim_model(m, k, now, tonight).0[x].1 >= tonight,
{
}

/// The dungeon entrances each player online has discovered.
pub struct Discoveries {
    pub known: IdMap<StrSet>,
}

impl Discoveries {
    pub open spec fn wf(&self) -> bool {
        &&& self.known.wf()
        &&& forall|p: PlayerId| #[trigger] self.known@.contains_key(p) ==> self.known@[p].wf()
    }

    pub open spec fn view(&self) -> Map<PlayerId, Set<Seq<char>>> {
        self.known@.map_values(|s: StrSet| s@)
    }

    pub fn new() -> (d: Self)
        ensures
            d.wf(),
            d@ == Map::<PlayerId, Set<Seq<char>>>::empty(),
    {
        let d = Discoveries { known: IdMap::new() };
        assert(d@ =~= Map::<PlayerId, Set<Seq<char>>>::empty());
        d
    }

    /// Seed a player's discovered entrances at login, so that known ones
    /// are not announced again.
    pub fn set_dungeon_discoveries(&mut self, player: PlayerId, ids: Vec<String>)
        requires
            old(self).wf(),
        ensures
            final(self).wf(),
            final(self)@ == old(self)@.insert(player, views(ids@).to_set()),
    {
        let mut set = StrSet::new();
        let mut i: usize = 0;
        proof {
            assert(views(ids@.subrange(0, 0)).to_set() =~= Set::<Seq<char>>::empty());
        }
        while i < ids.len()
            invariant
                i <= ids@.len(),
                set.wf(),
                set@ == views(ids@.subrange(0, i as int)).to_set(),
            decreases ids@.len() - i,
        {
            set.insert(ids[i].clone());
            proof {
                assert(views(ids@.subrange(0, i + 1)) =~= views(ids@.subrange(0, i as int)).push(ids@[i as int]@));
                views(ids@.subrange(0, i as int)).lemma_push_to_set_commute(ids@[i as int]@);
            }
            i = i + 1;
        }
        proof {
            assert(ids@.subrange(0, ids@.len() as int) =~= ids@);
        }
        let ghost s = set@;
        self.known.insert(player, set);
        assert(self@ =~= old(self)@.insert(player, s));
    }

    /// Forget a player's discoveries when they leave.
    pub fn remove_dungeon_discoveries(&mut self, player: PlayerId)
        requires
            old(self).wf(),
        ensures
            final(self).wf(),
            final(self)@ == old(self)@.remove(player),
    {
        self.known.remove(player);
        assert(self@ =~= old(self)@.remove(player));
    }

    /// Whether `player` already knows entrance `entrance_id`.
    pub fn knows(&self, player: PlayerId, entrance_id: &str) -> (r: bool)
        requires
            self.wf(),
        ensures
            r == (self@.contains_key(player) && self@[player].contains(entrance_id@)),
    {
        match self.known.get(player) {
            Some(set) => set.contains(entrance_id),
            None => false,
        }
    }

    /// Record that `player` found entrance `entrance_id`. The first time,
    /// all the entrances they know come back, for their client; again, it
    /// is `None`.
    pub fn discover(&mut self, player: PlayerId, entrance_id: String) -> (r: Option<Vec<String>>)
        requires
            old(self).wf(),
        ensures
            final(self).wf(),
            ({
                let before = if old(self)@.contains_key(player) { old(self)@[player] } else { Set::<Seq<char>>::empty() };
                &&& final(self)@ == old(self)@.insert(player, before.insert(entrance_id@))
                &&& match r {
                    None => before.contains(entrance_id@),
                    Some(all) => !before.contains(entrance_id@)
                        && forall|k: Seq<char>| #[trigger] views(all@).contains(k) <==> before.insert(entrance_id@).contains(k),
                }
            }),
    {
        let ghost e = entrance_id@;
        let mut set = match self.known.remove(player) {
            Some(s) => s,
            None => StrSet::new(),
        };
        let was = set.contains(entrance_id.as_str());
        set.insert(entrance_id);
        let ghost s = set@;
        let list = if was { None } else { Some(copy_strings(&set.items)) };
        proof {
            assert forall|k: Seq<char>| #[trigger] views(set.items@).contains(k) <==> set@.contains(k) by {
                if views(set.items@).contains(k) {
                    let i = choose|i: int| 0 <= i < views(set.items@).len() && views(set.items@)[i] == k;
                    assert(set.items@[i]@ == k);
                }
                if set@.contains(k) {
                    let i = choose|i: int| 0 <= i < set.items@.len() && #[trigger] set.items@[i]@ == k;
                    assert(views(set.items@)[i] == k);
                }
            }
        }
        self.known.insert(player, set);
        proof {
            if !old(self)@.contains_key(player) {
                assert(s =~= Set::<Seq<char>>::empty().insert(e));
            }
            assert(self@ =~= old(self)@.insert(player, s));
        }
        list
    }
}

/// Copies of `v`'s strings.
fn copy_strings(v: &Vec<String>) -> (out: Vec<String>)
    ensures
        views(out@) == views(v@),
{
    let mut out: Vec<String> = Vec::new();
    let mut i: usize = 0;
    while i < v.len()
        invariant
            i <= v@.len(),
            views(out@) == views(v@.subrange(0, i as int)),
        decreases v@.len() - i,
    {
        out.push(v[i].clone());
        proof {
            assert(views(v@.subrange(0, i + 1)) =~= views(v@.subrange(0, i as int)).push(v@[i as int]@));
            assert(views(out@) =~= views(v@.subrange(0, i + 1)));
        }
        i = i + 1;
    }
    proof {
        assert(v@.subrange(0, v@.len() as int) =~= v@);
    }
    out
}

/// The gold a dungeon's treasure chest holds, for a dungeon `depth` floors
/// deep: between 500 and 1500 per floor.
pub fn roll_chest_gold(depth: u8) -> (gold: i64)
    ensures
        depth * 500 <= gold <= depth * 1500,
{
    let d = depth as i64;
    random_in_range(d * 500, d * 1500)
}

} // verus!
