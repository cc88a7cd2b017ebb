//! Timed debuffs on a player (food poisoning, bleeding, wet, cold,
//! alcohol): which are active, what damage and hit penalty they add, how a
//! new one replaces others of its group, their expiry, and the alcohol
//! stages. Times are in milliseconds.
use vstd::prelude::*;
use vstd::string::*;
use crate::keyed::lemma_filter_keeps_order;
use crate::text::{join, opt_string_clone, push_str};

verus! {

/// The debuff that soaks a player, and the one that chills them.
pub const WET_DEBUFF_ID: &'static str = "wet";
pub const COLD_DEBUFF_ID: &'static str = "cold";
/// Drinks within this window count together toward the next stage.
pub const ALCOHOL_WINDOW_MS: u64 = 600_000;
/// Seconds of soaking or chill a lit campfire burns off per second spent by
/// it.
pub const CAMPFIRE_DRY_SECS_PER_SEC: u64 = 10;

/// What the rules read of a debuff's definition: its id, the group it is
/// exclusive within, its damage per second, its hit modifier and whether it
/// stops regeneration.
pub struct DebuffInfo {
    pub id: String,
    pub group: Option<String>,
    pub dps: u32,
    pub hit_mod: i32,
    pub blocks_regen: bool,
}

/// A debuff on a player, until the given time.
pub struct ActiveDebuff {
    pub def: DebuffInfo,
    pub until_ms: u64,
}

/// Active at `now`: inclusive, so a sweep landing on `until_ms` still ticks
/// it once before it is dropped.
pub open spec fn is_active(d: ActiveDebuff, now: u64) -> bool {
    d.until_ms >= now
}

/// The total damage per second of the debuffs active at `now`.
pub open spec fn dps_total(s: Seq<ActiveDebuff>, now: u64) -> int
    decreases s.len(),
{
    if s.len() == 0 {
        0
    } else {
        dps_total(s.drop_last(), now) + if is_active(s.last(), now) { s.last().def.dps as int } else { 0 }
    }
}

/// The total hit modifier of the debuffs active at `now`.
pub open spec fn hit_total(s: Seq<ActiveDebuff>, now: u64) -> int
    decreases s.len(),
{
    if s.len() == 0 {
        0
    } else {
        hit_total(s.drop_last(), now) + if is_active(s.last(), now) { s.last().def.hit_mod as int } else { 0 }
    }
}

/// The ids of the debuffs active at `now` that deal damage, in order.
pub open spec fn damaging_ids(s: Seq<ActiveDebuff>, now: u64) -> Seq<Seq<char>>
    decreases s.len(),
{
    if s.len() == 0 {
        Seq::empty()
    } else if is_active(s.last(), now) && s.last().def.dps > 0 {
        damaging_ids(s.drop_last(), now).push(s.last().def.id@)
    } else {
        damaging_ids(s.drop_last(), now)
    }
}

/// `d` belongs to group `g`, when there is one.
pub open spec fn in_group(d: ActiveDebuff, g: Option<String>) -> bool {
    match g {
        Some(name) => match d.def.group {
            Some(own) => own@ == name@,
            None => false,
        },
        None => false,
    }
}

fn copy_info(d: &DebuffInfo) -> (c: DebuffInfo)
    ensures
        c == *d,
{
    DebuffInfo {
        id: d.id.clone(),
        group: opt_string_clone(&d.group),
        dps: d.dps,
        hit_mod: d.hit_mod,
        blocks_regen: d.blocks_regen,
    }
}

fn copy_debuff(d: &ActiveDebuff) -> (c: ActiveDebuff)
    ensures
        c == *d,
{
    ActiveDebuff { def: copy_info(&d.def), until_ms: d.until_ms }
}

/// How a debuff landed.
pub enum Inflicted {
    /// It was already on: its timer restarted.
    Refreshed,
    /// It is new: others of its group gave way to it.
    Added,
}

/// The debuffs on one player, one entry per id.
pub struct Debuffs {
    pub list: Vec<ActiveDebuff>,
}

impl Debuffs {
    pub open spec fn wf(&self) -> bool {
        forall|i: int, j: int| 0 <= i < j < self.list@.len() ==> #[trigger] self.list@[i].def.id@ != #[trigger] self.list@[j].def.id@
    }

    /// The position of debuff `id`, if it is on.
    pub open spec fn index_of(&self, id: Seq<char>) -> Option<int> {
        if exists|i: int| 0 <= i < self.list@.len() && #[trigger] self.list@[i].def.id@ == id {
            Some(choose|i: int| 0 <= i < self.list@.len() && #[trigger] self.list@[i].def.id@ == id)
        } else {
            None
        }
    }

    pub fn new() -> (d: Self)
        ensures
            d.wf(),
            d.list@.len() == 0,
    {
        Debuffs { list: Vec::new() }
    }

    fn find(&self, id: &str) -> (r: Option<usize>)
        requires
            self.wf(),
        ensures
            match r {
                Some(i) => i < self.list@.len() && self.list@[i as int].def.id@ == id@ && self.index_of(id@) == Some(i as int),
                None => self.index_of(id@) is None,
            },
    {
        let want = crate::text::owned(id);
        let mut i: usize = 0;
        while i < self.list.len()
            invariant
                self.wf(),
                want@ == id@,
                i <= self.list@.len(),
                forall|j: int| 0 <= j < i ==> #[trigger] self.list@[j].def.id@ != id@,
            decreases self.list@.len() - i,
        {
            if self.list[i].def.id.eq(&want) {
                proof {
                    let c = choose|c: int| 0 <= c < self.list@.len() && #[trigger] self.list@[c].def.id@ == id@;
                    if c != i {
                        if c < i {
                            assert(self.list@[c].def.id@ != id@);
                        } else {
                            assert(self.list@[i as int].def.id@ != self.list@[c].def.id@);
                        }
                    }
                }
                return Some(i);
            }
            i = i + 1;
        }
        None
    }

    /// Whether debuff `id` is active at `now`.
    pub fn carries(&self, id: &str, now: u64) -> (r: bool)
        requires
            self.wf(),
        ensures
            r == match self.index_of(id@) {
                Some(i) => is_active(self.list@[i], now),
                None => false,
            },
    {
        match self.find(id) {
            Some(i) => self.list[i].until_ms >= now,
            None => false,
        }
    }

    /// How long debuff `id` still runs at `now`; zero when it is not active.
    pub fn remaining(&self, id: &str, now: u64) -> (ms: u64)
        requires
            self.wf(),
        ensures
            ms == match self.index_of(id@) {
                Some(i) => if is_active(self.list@[i], now) { (self.list@[i].until_ms - now) as u64 } else { 0 },
                None => 0,
            },
    {
        match self.find(id) {
            Some(i) => {
                if self.list[i].until_ms >= now {
                    self.list[i].until_ms - now
                } else {
                    0
                }
            },
            None => 0,
        }
    }

    /// The damage per second the active debuffs deal together.
    pub fn debuff_dps(&self, now: u64) -> (dps: u64)
        requires
            self.list@.len() <= u32::MAX,
        ensures
            dps == dps_total(self.list@, now),
    {
        let mut total: u64 = 0;
        let mut i: usize = 0;
        while i < self.list.len()
            invariant
                i <= self.list@.len(),
                self.list@.len() <= u32::MAX,
                total == dps_total(self.list@.subrange(0, i as int), now),
                total <= i * (u32::MAX as int),
            decreases self.list@.len() - i,
        {
            proof {
                let next = self.list@.subrange(0, i + 1);
                assert(next.drop_last() =~= self.list@.subrange(0, i as int));
                assert(next.last() == self.list@[i as int]);
                assert((i + 1) * (u32::MAX as int) == i * (u32::MAX as int) + u32::MAX) by (nonlinear_arith);
                assert((i + 1) * (u32::MAX as int) <= (u32::MAX as int) * (u32::MAX as int)) by (nonlinear_arith)
                    requires i + 1 <= u32::MAX;
            }
            if self.list[i].until_ms >= now {
                total = total + self.list[i].def.dps as u64;
            }
            i = i + 1;
        }
        proof {
            assert(self.list@.subrange(0, self.list@.len() as int) =~= self.list@);
        }
        total
    }

    /// The hit modifier the active debuffs add together.
    pub fn debuff_hit_mod(&self, now: u64) -> (m: i64)
        requires
            self.list@.len() <= u32::MAX,
        ensures
            m == hit_total(self.list@, now),
    {
        let mut total: i64 = 0;
        let mut i: usize = 0;
        while i < self.list.len()
            invariant
                i <= self.list@.len(),
                self.list@.len() <= u32::MAX,
                total == hit_total(self.list@.subrange(0, i as int), now),
                -(i * 0x8000_0000) <= total <= i * 0x8000_0000,
            decreases self.list@.len() - i,
        {
            proof {
                let next = self.list@.subrange(0, i + 1);
                assert(next.drop_last() =~= self.list@.subrange(0, i as int));
                assert(next.last() == self.list@[i as int]);
                assert((i + 1) * 0x8000_0000 == i * 0x8000_0000 + 0x8000_0000) by (nonlinear_arith);
                assert((i + 1) * 0x8000_0000 <= 0x1_0000_0000 * 0x8000_0000) by (nonlinear_arith)
                    requires i + 1 <= u32::MAX;
            }
            if self.list[i].until_ms >= now {
                total = total + self.list[i].def.hit_mod as i64;
            }
            i = i + 1;
        }
        proof {
            assert(self.list@.subrange(0, self.list@.len() as int) =~= self.list@);
        }
        total
    }

    /// Whether an active debuff stops regeneration.
    pub fn debuff_blocks_regen(&self, now: u64) -> (r: bool)
        ensures
            r == exists|i: int| 0 <= i < self.list@.len() && is_active(#[trigger] self.list@[i], now)
                && self.list@[i].def.blocks_regen,
    {
        let mut i: usize = 0;
        while i < self.list.len()
            invariant
                i <= self.list@.len(),
                forall|j: int| 0 <= j < i ==> !(is_active(#[trigger] self.list@[j], now) && self.list@[j].def.blocks_regen),
            decreases self.list@.len() - i,
        {
            if self.list[i].until_ms >= now && self.list[i].def.blocks_regen {
                return true;
            }
            i = i + 1;
        }
        false
    }

    /// The ids of the damaging active debuffs joined by `+`: the cause a
    /// death by them is announced with.
    pub fn damaging_debuff_ids(&self, now: u64) -> (s: String)
        ensures
            s@ == join(damaging_ids(self.list@, now), "+"@),
    {
        let mut s = String::new();
        let mut count: usize = 0;
        let mut i: usize = 0;
        proof {
            assert(self.list@.subrange(0, 0) =~= Seq::<ActiveDebuff>::empty());
        }
        while i < self.list.len()
            invariant
                i <= self.list@.len(),
                count == damaging_ids(self.list@.subrange(0, i as int), now).len(),
                count <= i,
                s@ == join(damaging_ids(self.list@.subrange(0, i as int), now), "+"@),
            decreases self.list@.len() - i,
        {
            let ghost before = damaging_ids(self.list@.subrange(0, i as int), now);
            proof {
                let next = self.list@.subrange(0, i + 1);
                assert(next.drop_last() =~= self.list@.subrange(0, i as int));
                assert(next.last() == self.list@[i as int]);
            }
            if self.list[i].until_ms >= now && self.list[i].def.dps > 0 {
                if count > 0 {
                    push_str(&mut s, "+");
                }
                push_str(&mut s, self.list[i].def.id.as_str());
                proof {
                    let after = before.push(self.list@[i as int].def.id@);
                    assert(after.drop_last() =~= before);
                    if count == 0 {
                        assert(before.len() == 0);
                        assert(s@ =~= join(after, "+"@));
                    } else {
                        assert(s@ =~= join(after, "+"@));
                    }
                }
                count = count + 1;
            }
            i = i + 1;
        }
        proof {
            assert(self.list@.subrange(0, self.list@.len() as int) =~= self.list@);
        }
        s
    }

    /// Put `def` on for `duration_ms` from `now`. Already on, its timer
    /// restarts; new, the debuffs of its group give way to it.
    pub fn inflict(&mut self, def: DebuffInfo, duration_ms: u64, now: u64) -> (r: Inflicted)
        requires
            old(self).wf(),
            now + duration_ms <= u64::MAX,
        ensures
            final(self).wf(),
            match old(self).index_of(def.id@) {
                Some(i) => r is Refreshed && final(self).list@ == old(self).list@.update(i,
                    ActiveDebuff { until_ms: (now + duration_ms) as u64, ..old(self).list@[i] }),
                None => r is Added && final(self).list@ == old(self).list@.filter(|d: ActiveDebuff| !in_group(d, def.group))
                    .push(ActiveDebuff { def, until_ms: (now + duration_ms) as u64 }),
            },
    {
        let until = now + duration_ms;
        match self.find(def.id.as_str()) {
            Some(i) => {
                let refreshed = ActiveDebuff { def: copy_info(&self.list[i].def), until_ms: until };
                self.list.set(i, refreshed);
                proof {
                    assert forall|a: int, b: int| 0 <= a < b < self.list@.len()
                        implies #[trigger] self.list@[a].def.id@ != #[trigger] self.list@[b].def.id@ by {
                        assert(self.list@[a].def.id@ == old(self).list@[a].def.id@);
                        assert(self.list@[b].def.id@ == old(self).list@[b].def.id@);
                    }
                }
                Inflicted::Refreshed
            },
            None => {
                let ghost pred = |d: ActiveDebuff| !in_group(d, def.group);
                let mut kept: Vec<ActiveDebuff> = Vec::new();
                let mut j: usize = 0;
                while j < self.list.len()
                    invariant
                        self.wf(),
                        *self == *old(self),
                        j <= self.list@.len(),
                        pred == (|d: ActiveDebuff| !in_group(d, def.group)),
                        kept@ == self.list@.subrange(0, j as int).filter(pred),
                    decreases self.list@.len() - j,
                {
                    proof {
                        assert(self.list@.subrange(0, j + 1) =~= self.list@.subrange(0, j as int).push(self.list@[j as int]));
                        self.list@.subrange(0, j as int).lemma_filter_push(self.list@[j as int], pred);
                    }
                    let same = match (&def.group, &self.list[j].def.group) {
                        (Some(g), Some(own)) => own.eq(g),
                        _ => false,
                    };
                    if !same {
                        kept.push(copy_debuff(&self.list[j]));
                    }
                    j = j + 1;
                }
                proof {
                    assert(self.list@.subrange(0, self.list@.len() as int) =~= self.list@);
                }
                let ghost filtered = kept@;
                let ghost d = def;
                kept.push(ActiveDebuff { def, until_ms: until });
                self.list = kept;
                proof {
                    let o = old(self).list@;
                    assert(filtered == o.filter(pred));
                    assert forall|a: int, b: int| 0 <= a < b < self.list@.len()
                        implies #[trigger] self.list@[a].def.id@ != #[trigger] self.list@[b].def.id@ by {
                        assert(self.list@[a] == filtered[a]);
                        assert(o.filter(pred).contains(filtered[a]));
                        o.lemma_filter_contains_rev(pred, filtered[a]);
                        if b == filtered.len() {
                            let w = choose|w: int| 0 <= w < o.len() && o[w] == filtered[a];
                            assert(o[w].def.id@ != d.id@);
                        } else {
                            assert(self.list@[b] == filtered[b]);
                            lemma_filter_keeps_order(o, pred, a, b);
                            let (i, j) = choose|i: int, j: int| 0 <= i < j < o.len() && o[i] == o.filter(pred)[a] && o[j] == o.filter(pred)[b];
                            assert(o[i].def.id@ != o[j].def.id@);
                        }
                    }
                }
                Inflicted::Added
            },
        }
    }

    /// Whether a sweep at `now` has work: a debuff due to expire, or one
    /// that deals damage.
    pub fn due(&self, now: u64) -> (r: bool)
        ensures
            r == exists|i: int| 0 <= i < self.list@.len()
                && ((#[trigger] self.list@[i]).until_ms <= now || self.list@[i].def.dps > 0),
    {
        let mut i: usize = 0;
        while i < self.list.len()
            invariant
                i <= self.list@.len(),
                forall|j: int| 0 <= j < i ==> !((#[trigger] self.list@[j]).until_ms <= now || self.list@[j].def.dps > 0),
            decreases self.list@.len() - i,
        {
            if self.list[i].until_ms <= now || self.list[i].def.dps > 0 {
                return true;
            }
            i = i + 1;
        }
        false
    }

    /// The sweep's expiry: drop the debuffs whose time is up. Whether the
    /// list changed, and whether a `wet` among them ran out (the player
    /// dried).
    pub fn expire(&mut self, now: u64) -> (r: (bool, bool))
        requires
            old(self).wf(),
        ensures
            final(self).wf(),
            final(self).list@ == old(self).list@.filter(|d: ActiveDebuff| d.until_ms > now),
            r.0 == (final(self).list@.len() != old(self).list@.len()),
            r.1 == exists|i: int| 0 <= i < old(self).list@.len() && (#[trigger] old(self).list@[i]).def.id@ == WET_DEBUFF_ID@
                && old(self).list@[i].until_ms <= now,
    {
        let ghost pred = |d: ActiveDebuff| d.until_ms > now;
        let wet = crate::text::owned(WET_DEBUFF_ID);
        let mut dried = false;
        let mut kept: Vec<ActiveDebuff> = Vec::new();
        let mut j: usize = 0;
        while j < self.list.len()
            invariant
                self.wf(),
                *self == *old(self),
                wet@ == WET_DEBUFF_ID@,
                j <= self.list@.len(),
                pred == (|d: ActiveDebuff| d.until_ms > now),
                kept@ == self.list@.subrange(0, j as int).filter(pred),
                dried == exists|i: int| 0 <= i < j && (#[trigger] self.list@[i]).def.id@ == WET_DEBUFF_ID@
                    && self.list@[i].until_ms <= now,
            decreases self.list@.len() - j,
        {
            proof {
                assert(self.list@.subrange(0, j + 1) =~= self.list@.subrange(0, j as int).push(self.list@[j as int]));
                self.list@.subrange(0, j as int).lemma_filter_push(self.list@[j as int], pred);
            }
            if self.list[j].until_ms > now {
                kept.push(copy_debuff(&self.list[j]));
            } else if self.list[j].def.id.eq(&wet) {
                dried = true;
            }
            j = j + 1;
        }
        proof {
            assert(self.list@.subrange(0, self.list@.len() as int) =~= self.list@);
        }
        let changed = kept.len() != self.list.len();
        self.list = kept;
        proof {
            let o = old(self).list@;
            assert forall|a: int, b: int| 0 <= a < b < self.list@.len()
                implies #[trigger] self.list@[a].def.id@ != #[trigger] self.list@[b].def.id@ by {
                lemma_filter_keeps_order(o, pred, a, b);
                let (i, j) = choose|i: int, j: int| 0 <= i < j < o.len() && o[i] == o.filter(pred)[a] && o[j] == o.filter(pred)[b];
                assert(o[i].def.id@ != o[j].def.id@);
            }
        }
        (changed, dried)
    }

    /// Death drops every debuff; whether the player was wet.
    pub fn clear(&mut self, now: u64) -> (was_wet: bool)
        requires
            old(self).wf(),
        ensures
            final(self).wf(),
            final(self).list@.len() == 0,
            was_wet == match old(self).index_of(WET_DEBUFF_ID@) {
                Some(i) => is_active(old(self).list@[i], now),
                None => false,
            },
    {
        let was_wet = self.carries(WET_DEBUFF_ID, now);
        self.list = Vec::new();
        was_wet
    }

    /// A lit campfire beside the player pulls the wet and cold timers
    /// `pulled_ms` nearer (not before `now`); whether it touched any.
    pub fn campfire_pull(&mut self, pulled_ms: u64, now: u64) -> (any: bool)
        requires
            old(self).wf(),
        ensures
            final(self).wf(),
            final(self).list@.len() == old(self).list@.len(),
            forall|i: int| 0 <= i < old(self).list@.len() ==> #[trigger] final(self).list@[i] == if campfire_clears(old(self).list@[i].def.id@) {
                ActiveDebuff {
                    until_ms: if old(self).list@[i].until_ms >= pulled_ms { (old(self).list@[i].until_ms - pulled_ms) as u64 } else { now },
                    ..old(self).list@[i]
                }
            } else {
                old(self).list@[i]
            },
            any == exists|i: int| 0 <= i < old(self).list@.len() && campfire_clears(#[trigger] old(self).list@[i].def.id@),
    {
        let wet = crate::text::owned(WET_DEBUFF_ID);
        let cold = crate::text::owned(COLD_DEBUFF_ID);
        let mut any = false;
        let mut i: usize = 0;
        while i < self.list.len()
            invariant
                wet@ == WET_DEBUFF_ID@,
                cold@ == COLD_DEBUFF_ID@,
                i <= self.list@.len(),
                self.list@.len() == old(self).list@.len(),
                forall|j: int| 0 <= j < self.list@.len() ==> #[trigger] self.list@[j].def == old(self).list@[j].def,
                forall|j: int| 0 <= j < i ==> #[trigger] self.list@[j] == if campfire_clears(old(self).list@[j].def.id@) {
                    ActiveDebuff {
                        until_ms: if old(self).list@[j].until_ms >= pulled_ms { (old(self).list@[j].until_ms - pulled_ms) as u64 } else { now },
                        ..old(self).list@[j]
                    }
                } else {
                    old(self).list@[j]
                },
                forall|j: int| i <= j < self.list@.len() ==> #[trigger] self.list@[j] == old(self).list@[j],
                any == exists|j: int| 0 <= j < i && campfire_clears(#[trigger] old(self).list@[j].def.id@),
            decreases self.list@.len() - i,
        {
            if self.list[i].def.id.eq(&wet) || self.list[i].def.id.eq(&cold) {
                let until = if self.list[i].until_ms >= pulled_ms { self.list[i].until_ms - pulled_ms } else { now };
                let d = ActiveDebuff { def: copy_info(&self.list[i].def), until_ms: until };
                self.list.set(i, d);
                any = true;
            }
            i = i + 1;
        }
        proof {
            assert forall|a: int, b: int| 0 <= a < b < self.list@.len()
                implies #[trigger] self.list@[a].def.id@ != #[trigger] self.list@[b].def.id@ by {
                assert(self.list@[a].def == old(self).list@[a].def);
                assert(self.list@[b].def == old(self).list@[b].def);
            }
        }
        any
    }
}

/// The debuffs a campfire dries or warms off.
pub open spec fn campfire_clears(id: Seq<char>) -> bool {
    id == WET_DEBUFF_ID@ || id == COLD_DEBUFF_ID@
}

/// `units` of drink just went down at `now`: the drinks of the last
/// `ALCOHOL_WINDOW_MS` (each as time and units) plus this one, and the
/// stage they add up to: one unit tipsy, two drunk, three and beyond
/// wasted.
pub fn alcohol_stage(recent: &mut Vec<(u64, u32)>, units: u32, now: u64) -> (stage: &'static str)
    requires
        units > 0,
        forall|i: int| 0 <= i < old(recent)@.len() ==> (#[trigger] old(recent)@[i]).0 <= now,
        old(recent)@.len() < u32::MAX,
    ensures
        final(recent)@ == old(recent)@.filter(|d: (u64, u32)| now - d.0 < ALCOHOL_WINDOW_MS).push((now, units)),
        stage@ == if drink_units(final(recent)@) <= 1 {
            "tipsy"@
        } else if drink_units(final(recent)@) == 2 {
            "drunk"@
        } else {
            "wasted"@
        },
{
    let ghost pred = |d: (u64, u32)| now - d.0 < ALCOHOL_WINDOW_MS;
    let mut kept: Vec<(u64, u32)> = Vec::new();
    let mut i: usize = 0;
    while i < recent.len()
        invariant
            i <= recent@.len(),
            *recent == *old(recent),
            forall|k: int| 0 <= k < recent@.len() ==> (#[trigger] recent@[k]).0 <= now,
            pred == (|d: (u64, u32)| now - d.0 < ALCOHOL_WINDOW_MS),
            kept@ == recent@.subrange(0, i as int).filter(pred),
        decreases recent@.len() - i,
    {
        proof {
            assert(recent@.subrange(0, i + 1) =~= recent@.subrange(0, i as int).push(recent@[i as int]));
            recent@.subrange(0, i as int).lemma_filter_push(recent@[i as int], pred);
        }
        if now - recent[i].0 < ALCOHOL_WINDOW_MS {
            kept.push(recent[i]);
        }
        i = i + 1;
    }
    proof {
        assert(recent@.subrange(0, recent@.len() as int) =~= recent@);
        recent@.lemma_filter_len(pred);
    }
    kept.push((now, units));
    *recent = kept;
    let mut total: u64 = 0;
    let mut j: usize = 0;
    while j < recent.len()
        invariant
            j <= recent@.len(),
            recent@.len() <= u32::MAX,
            total == drink_units(recent@.subrange(0, j as int)),
            total <= j * (u32::MAX as int),
        decreases recent@.len() - j,
    {
        proof {
            let next = recent@.subrange(0, j + 1);
            assert(next.drop_last() =~= recent@.subrange(0, j as int));
            assert((j + 1) * (u32::MAX as int) == j * (u32::MAX as int) + u32::MAX) by (nonlinear_arith);
            assert((j + 1) * (u32::MAX as int) <= (u32::MAX as int) * (u32::MAX as int)) by (nonlinear_arith)
                requires j + 1 <= u32::MAX;
        }
        total = total + recent[j].1 as u64;
        j = j + 1;
    }
    proof {
        assert(recent@.subrange(0, recent@.len() as int) =~= recent@);
    }
    if total <= 1 {
        "tipsy"
    } else if total == 2 {
        "drunk"
    } else {
        "wasted"
    }
}

/// The units of a list of drinks.
pub open spec fn drink_units(s: Seq<(u64, u32)>) -> int
    decreases s.len(),
{
    if s.len() == 0 { 0 } else { drink_units(s.drop_last()) + s.last().1 }
}

} // verus!
